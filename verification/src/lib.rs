//! An associative container mapping unique keys to values, built from
//! hash-based bucketing with chaining for collision resolution.
//!
//! The map owns an array of bucket chains; every pair sits in the chain whose
//! index is the key's hash code reduced modulo the bucket count. Insertion
//! grows the array geometrically once the load factor passes three quarters
//! and rehashes every stored pair. The abstract value of a map is a
//! [`Map`](vstd::map::Map) from abstract key values to values, and every
//! operation's contract is stated over it.

use vstd::prelude::*;

pub mod entry;
pub mod laws;
pub mod key;

use crate::key::HashKey;
use crate::key::Probe;

verus! {

broadcast use vstd::std_specs::vec::axiom_spec_len;

/// The bucket a hash code selects in a table of `n` buckets.
pub open spec fn spec_bucket_of(h: u64, n: int) -> int
    recommends
        n > 0,
{
    h as int % n
}

/// Whether some pair of the chain `c` has the abstract key value `kv`.
spec fn chain_has_key<K: HashKey, V>(c: Seq<(K, V)>, kv: K::V) -> bool {
    exists|i: int| 0 <= i < c.len() && (#[trigger] c[i]).0@ == kv
}

/// The value a chain associates with the abstract key value `kv`.
spec fn chain_value_of<K: HashKey, V>(c: Seq<(K, V)>, kv: K::V) -> V
    recommends
        chain_has_key(c, kv),
{
    let i = choose|i: int| 0 <= i < c.len() && (#[trigger] c[i]).0@ == kv;
    c[i].1
}

/// No two pairs of the chain share an abstract key value.
pub open spec fn pairs_distinct<K: HashKey, V>(c: Seq<(K, V)>) -> bool {
    forall|i: int, j: int| 0 <= i < j < c.len() ==> (#[trigger] c[i]).0@ != (#[trigger] c[j]).0@
}

/// The abstract contents of a sequence of chains.
spec fn tbl_has_key<K: HashKey, V>(t: Seq<Seq<(K, V)>>, kv: K::V) -> bool {
    exists|j: int| 0 <= j < t.len() && chain_has_key(#[trigger] t[j], kv)
}

spec fn tbl_value_of<K: HashKey, V>(t: Seq<Seq<(K, V)>>, kv: K::V) -> V
    recommends
        tbl_has_key(t, kv),
{
    let j = choose|j: int| 0 <= j < t.len() && chain_has_key(#[trigger] t[j], kv);
    chain_value_of(t[j], kv)
}

spec fn tbl_view<K: HashKey, V>(t: Seq<Seq<(K, V)>>) -> Map<K::V, V> {
    Map::new(|kv: K::V| tbl_has_key(t, kv), |kv: K::V| tbl_value_of(t, kv))
}

/// Every pair of every chain sits in the bucket its key's hash selects.
spec fn tbl_placed<K: HashKey, V>(t: Seq<Seq<(K, V)>>) -> bool {
    forall|j: int, i: int|
        0 <= j < t.len() && 0 <= i < t[j].len() ==> spec_bucket_of(
            K::hash_of((#[trigger] t[j][i]).0@),
            t.len() as int,
        ) == j
}

/// A well-formed table: pairs are placed by hash and no chain repeats a key.
spec fn tbl_wf<K: HashKey, V>(t: Seq<Seq<(K, V)>>) -> bool {
    &&& tbl_placed(t)
    &&& forall|j: int| 0 <= j < t.len() ==> pairs_distinct(#[trigger] t[j])
}

/// The abstract view of a sequence of bucket vectors.
spec fn vecs_view<K, V>(b: Seq<Vec<(K, V)>>) -> Seq<Seq<(K, V)>> {
    Seq::new(b.len(), |j: int| b[j]@)
}

/// Viewing the bucket vectors commutes with updating one bucket.
broadcast proof fn lemma_vecs_view_update<K, V>(b: Seq<Vec<(K, V)>>, j: int, w: Vec<(K, V)>)
    requires
        0 <= j < b.len(),
    ensures
        #[trigger] vecs_view(b.update(j, w)) == vecs_view(b).update(j, w@),
{
    assert(vecs_view(b.update(j, w)) =~= vecs_view(b).update(j, w@));
}

/// An unordered mapping from unique keys to values.
pub struct HashMap<K, V> {
    pub(crate) buckets: Vec<Vec<(K, V)>>,
    pub(crate) items: usize,
}

impl<K: HashKey, V> View for HashMap<K, V> {
    type V = Map<K::V, V>;

    closed spec fn view(&self) -> Map<K::V, V> {
        tbl_view(self.table())
    }
}

impl<K: HashKey, V> HashMap<K, V> {
    spec fn table(&self) -> Seq<Seq<(K, V)>> {
        vecs_view(self.buckets@)
    }

    /// The internal invariant: the table is well formed and the stored count
    /// equals the number of distinct keys.
    pub closed spec fn wf(&self) -> bool {
        &&& tbl_wf(self.table())
        &&& self@.dom().finite()
        &&& self.items == self@.len()
    }

    /// Construct an empty map, with no buckets and no items.
    pub fn new() -> (m: Self)
        ensures
            m@ == Map::<K::V, V>::empty(),
            m.wf(),
    {
        let m = HashMap { buckets: Vec::new(), items: 0 };
        proof {
            assert(m@ =~= Map::<K::V, V>::empty());
        }
        m
    }

    /// The number of stored pairs.
    pub fn len(&self) -> (n: usize)
        requires
            self.wf(),
        ensures
            n == self@.len(),
    {
        self.items
    }

    /// Whether the map stores no pair at all.
    pub fn is_empty(&self) -> (b: bool)
        requires
            self.wf(),
        ensures
            b == (self@.len() == 0),
    {
        self.len() == 0
    }
}

/// Whether the table holds a pair with abstract key value `kv` and value `v`.
spec fn tbl_contains_pair<K: HashKey, V>(t: Seq<Seq<(K, V)>>, kv: K::V, v: V) -> bool {
    exists|j: int, i: int|
        0 <= j < t.len() && 0 <= i < t[j].len() && (#[trigger] t[j][i]).0@ == kv && t[j][i].1 == v
}

/// A pair found at a position of a well-formed table is the pair its key's
/// abstract value maps to.
proof fn lemma_tbl_located<K: HashKey, V>(t: Seq<Seq<(K, V)>>, kv: K::V, j: int, i: int)
    requires
        tbl_wf(t),
        0 <= j < t.len(),
        0 <= i < t[j].len(),
        t[j][i].0@ == kv,
    ensures
        tbl_has_key(t, kv),
        j == spec_bucket_of(K::hash_of(kv), t.len() as int),
        tbl_view(t).dom().contains(kv),
        tbl_view(t)[kv] == t[j][i].1,
{
    assert(chain_has_key(t[j], kv));
    let j2 = choose|j2: int| 0 <= j2 < t.len() && chain_has_key(#[trigger] t[j2], kv);
    let c = t[j2];
    let i2 = choose|i2: int| 0 <= i2 < c.len() && (#[trigger] c[i2]).0@ == kv;
    assert(spec_bucket_of(K::hash_of(kv), t.len() as int) == j2);
    assert(j2 == j);
    assert(i2 == i);
}

/// An abstract key value absent from its home bucket is absent from the
/// whole well-formed table.
proof fn lemma_tbl_absent<K: HashKey, V>(t: Seq<Seq<(K, V)>>, kv: K::V)
    requires
        tbl_wf(t),
        t.len() == 0 || !chain_has_key(t[spec_bucket_of(K::hash_of(kv), t.len() as int)], kv),
    ensures
        !tbl_has_key(t, kv),
        !tbl_view(t).dom().contains(kv),
{
    if tbl_has_key(t, kv) {
        let j = choose|j: int| 0 <= j < t.len() && chain_has_key(#[trigger] t[j], kv);
        let c = t[j];
        let i = choose|i: int| 0 <= i < c.len() && (#[trigger] c[i]).0@ == kv;
        assert(spec_bucket_of(K::hash_of(kv), t.len() as int) == j);
    }
}

/// A pair the table holds is what the view maps its key to.
proof fn lemma_pair_value<K: HashKey, V>(t: Seq<Seq<(K, V)>>, kv: K::V, v: V)
    requires
        tbl_wf(t),
        tbl_contains_pair(t, kv, v),
    ensures
        tbl_has_key(t, kv),
        tbl_view(t).dom().contains(kv),
        tbl_view(t)[kv] == v,
{
    let (j, i): (int, int) = choose|j: int, i: int|
        0 <= j < t.len() && 0 <= i < t[j].len() && (#[trigger] t[j][i]).0@ == kv && t[j][i].1
            == v;
    lemma_tbl_located(t, kv, j, i);
}

/// A key the table holds pairs with some value.
proof fn lemma_has_key_pair<K: HashKey, V>(t: Seq<Seq<(K, V)>>, kv: K::V)
    requires
        tbl_has_key(t, kv),
    ensures
        exists|v: V| tbl_contains_pair(t, kv, v),
{
    let j = choose|j: int| 0 <= j < t.len() && chain_has_key(#[trigger] t[j], kv);
    let c = t[j];
    let i = choose|i: int| 0 <= i < c.len() && (#[trigger] c[i]).0@ == kv;
    assert(tbl_contains_pair(t, kv, t[j][i].1));
}

/// Two well-formed tables holding a pair for a key `kv` more or less of each
/// other, and the same pairs elsewhere, have views an insertion apart.
proof fn lemma_view_insert<K: HashKey, V>(
    t1: Seq<Seq<(K, V)>>,
    t2: Seq<Seq<(K, V)>>,
    kv: K::V,
    v: V,
)
    requires
        tbl_wf(t1),
        tbl_wf(t2),
        tbl_contains_pair(t2, kv, v),
        forall|kv2: K::V, v2: V|
            kv2 != kv ==> (#[trigger] tbl_contains_pair(t1, kv2, v2) <==> #[trigger] tbl_contains_pair(
                t2,
                kv2,
                v2,
            )),
    ensures
        tbl_view(t2) == tbl_view(t1).insert(kv, v),
{
    let m1 = tbl_view(t1).insert(kv, v);
    let m2 = tbl_view(t2);
    assert forall|kv2: K::V|
        #![trigger m1.dom().contains(kv2)]
        #![trigger m2.dom().contains(kv2)]
        m1.dom().contains(kv2) <==> m2.dom().contains(kv2) by {
        if kv2 == kv {
            lemma_pair_value(t2, kv, v);
        } else {
            if m1.dom().contains(kv2) {
                lemma_has_key_pair(t1, kv2);
                let v2 = choose|v2: V| tbl_contains_pair(t1, kv2, v2);
                lemma_pair_value(t2, kv2, v2);
            }
            if m2.dom().contains(kv2) {
                lemma_has_key_pair(t2, kv2);
                let v2 = choose|v2: V| tbl_contains_pair(t2, kv2, v2);
                lemma_pair_value(t1, kv2, v2);
            }
        }
    }
    assert forall|kv2: K::V|
        #![trigger m1.dom().contains(kv2)]
        #![trigger m2.dom().contains(kv2)]
        m2.dom().contains(kv2) implies m2[kv2] == m1[kv2] by {
        if kv2 == kv {
            lemma_pair_value(t2, kv, v);
        } else {
            lemma_has_key_pair(t2, kv2);
            let v2 = choose|v2: V| tbl_contains_pair(t2, kv2, v2);
            lemma_pair_value(t2, kv2, v2);
            lemma_pair_value(t1, kv2, v2);
        }
    }
    assert(m2 =~= m1);
}

/// Two well-formed tables with the same pairs everywhere but a key `kv`,
/// which the second lacks, have views a removal apart.
proof fn lemma_view_remove<K: HashKey, V>(t1: Seq<Seq<(K, V)>>, t2: Seq<Seq<(K, V)>>, kv: K::V)
    requires
        tbl_wf(t1),
        tbl_wf(t2),
        !tbl_has_key(t2, kv),
        forall|kv2: K::V, v2: V|
            kv2 != kv ==> (#[trigger] tbl_contains_pair(t1, kv2, v2) <==> #[trigger] tbl_contains_pair(
                t2,
                kv2,
                v2,
            )),
    ensures
        tbl_view(t2) == tbl_view(t1).remove(kv),
{
    let m1 = tbl_view(t1).remove(kv);
    let m2 = tbl_view(t2);
    assert forall|kv2: K::V|
        #![trigger m1.dom().contains(kv2)]
        #![trigger m2.dom().contains(kv2)]
        m1.dom().contains(kv2) <==> m2.dom().contains(kv2) by {
        if m1.dom().contains(kv2) {
            lemma_has_key_pair(t1, kv2);
            let v2 = choose|v2: V| tbl_contains_pair(t1, kv2, v2);
            lemma_pair_value(t2, kv2, v2);
        }
        if m2.dom().contains(kv2) {
            lemma_has_key_pair(t2, kv2);
            let v2 = choose|v2: V| tbl_contains_pair(t2, kv2, v2);
            assert(kv2 != kv);
            lemma_pair_value(t1, kv2, v2);
        }
    }
    assert forall|kv2: K::V|
        #![trigger m1.dom().contains(kv2)]
        #![trigger m2.dom().contains(kv2)]
        m2.dom().contains(kv2) implies m2[kv2] == m1[kv2] by {
        lemma_has_key_pair(t2, kv2);
        let v2 = choose|v2: V| tbl_contains_pair(t2, kv2, v2);
        lemma_pair_value(t2, kv2, v2);
        assert(kv2 != kv);
        lemma_pair_value(t1, kv2, v2);
    }
    assert(m2 =~= m1);
}

/// Removing the last pair of a chain removes exactly that pair's key from a
/// well-formed table.
proof fn lemma_pop_pairs<K: HashKey, V>(t: Seq<Seq<(K, V)>>, t2: Seq<Seq<(K, V)>>, j: int)
    requires
        tbl_wf(t),
        0 <= j < t.len(),
        t[j].len() > 0,
        t2 == t.update(j, t[j].drop_last()),
    ensures
        tbl_wf(t2),
        tbl_contains_pair(t, t[j].last().0@, t[j].last().1),
        !tbl_has_key(t2, t[j].last().0@),
        forall|kv: K::V, v: V| #[trigger]
            tbl_contains_pair(t2, kv, v) <==> (tbl_contains_pair(t, kv, v) && kv
                != t[j].last().0@),
{
    let p = t[j].last();
    let kvp = p.0@;
    let m = t[j].len() as int - 1;
    assert(t2[j] == t[j].drop_last());
    assert forall|jj: int, ii: int|
        0 <= jj < t2.len() && 0 <= ii < t2[jj].len() implies (#[trigger] t2[jj][ii]) == t[jj][ii]
        && (jj != j || ii < m) by {}
    assert(tbl_placed(t2));
    assert forall|jj: int| 0 <= jj < t2.len() implies pairs_distinct(#[trigger] t2[jj]) by {
        assert(pairs_distinct(t[jj]));
    }
    assert(tbl_contains_pair(t, kvp, p.1));
    if tbl_has_key(t2, kvp) {
        let jj = choose|jj: int| 0 <= jj < t2.len() && chain_has_key(#[trigger] t2[jj], kvp);
        let ii = choose|ii: int| 0 <= ii < t2[jj].len() && (#[trigger] t2[jj][ii]).0@ == kvp;
        lemma_tbl_located(t, kvp, jj, ii);
        lemma_tbl_located(t, kvp, j, m);
        assert(false);
    }
    assert forall|kv: K::V, v: V| #[trigger]
        tbl_contains_pair(t2, kv, v) implies (tbl_contains_pair(t, kv, v) && kv != kvp) by {
        let (jj, ii): (int, int) = choose|jj: int, ii: int|
            0 <= jj < t2.len() && 0 <= ii < t2[jj].len() && (#[trigger] t2[jj][ii]).0@ == kv
                && t2[jj][ii].1 == v;
        assert(t[jj][ii].0@ == kv && t[jj][ii].1 == v);
        assert(chain_has_key(t2[jj], kv));
        assert(tbl_has_key(t2, kv));
    }
    assert forall|kv: K::V, v: V|
        tbl_contains_pair(t, kv, v) && kv != kvp implies #[trigger] tbl_contains_pair(
        t2,
        kv,
        v,
    ) by {
        let (jj, ii): (int, int) = choose|jj: int, ii: int|
            0 <= jj < t.len() && 0 <= ii < t[jj].len() && (#[trigger] t[jj][ii]).0@ == kv
                && t[jj][ii].1 == v;
        if jj == j && ii == m {
            assert(kv == kvp);
        } else {
            assert(t2[jj][ii].0@ == kv && t2[jj][ii].1 == v);
        }
    }
}

/// Appending a pair with a fresh key to its home bucket adds exactly that
/// pair to a well-formed table.
proof fn lemma_push_pairs<K: HashKey, V>(
    t: Seq<Seq<(K, V)>>,
    t2: Seq<Seq<(K, V)>>,
    j: int,
    p: (K, V),
)
    requires
        tbl_wf(t),
        0 <= j < t.len(),
        !tbl_has_key(t, p.0@),
        j == spec_bucket_of(K::hash_of(p.0@), t.len() as int),
        t2 == t.update(j, t[j].push(p)),
    ensures
        tbl_wf(t2),
        tbl_contains_pair(t2, p.0@, p.1),
        forall|kv: K::V, v: V| #[trigger]
            tbl_contains_pair(t2, kv, v) <==> (tbl_contains_pair(t, kv, v) || (kv == p.0@ && v
                == p.1)),
{
    let kvp = p.0@;
    let m = t[j].len() as int;
    assert(t2[j] == t[j].push(p));
    assert(t2[j][m] == p);
    assert forall|jj: int, ii: int|
        0 <= jj < t2.len() && 0 <= ii < t2[jj].len() && !(jj == j && ii == m) implies (
    #[trigger] t2[jj][ii]) == t[jj][ii] by {}
    assert(tbl_placed(t2));
    assert forall|jj: int| 0 <= jj < t2.len() implies pairs_distinct(#[trigger] t2[jj]) by {
        assert(pairs_distinct(t[jj]));
        if jj == j {
            assert forall|ii: int| 0 <= ii < m implies (#[trigger] t2[j][ii]).0@ != kvp by {
                if t2[j][ii].0@ == kvp {
                    assert(chain_has_key(t[j], kvp));
                }
            }
        }
    }
    assert(tbl_contains_pair(t2, kvp, p.1));
    assert forall|kv: K::V, v: V| #[trigger]
        tbl_contains_pair(t2, kv, v) implies (tbl_contains_pair(t, kv, v) || (kv == kvp && v
            == p.1)) by {
        let (jj, ii): (int, int) = choose|jj: int, ii: int|
            0 <= jj < t2.len() && 0 <= ii < t2[jj].len() && (#[trigger] t2[jj][ii]).0@ == kv
                && t2[jj][ii].1 == v;
        if !(jj == j && ii == m) {
            assert(t[jj][ii].0@ == kv && t[jj][ii].1 == v);
        }
    }
    assert forall|kv: K::V, v: V|
        tbl_contains_pair(t, kv, v) implies #[trigger] tbl_contains_pair(t2, kv, v) by {
        let (jj, ii): (int, int) = choose|jj: int, ii: int|
            0 <= jj < t.len() && 0 <= ii < t[jj].len() && (#[trigger] t[jj][ii]).0@ == kv
                && t[jj][ii].1 == v;
        assert(t2[jj][ii].0@ == kv && t2[jj][ii].1 == v);
    }
}

/// Overwriting the value of one pair of a well-formed table changes exactly
/// the binding of that pair's key.
proof fn lemma_replace_pairs<K: HashKey, V>(
    t: Seq<Seq<(K, V)>>,
    t2: Seq<Seq<(K, V)>>,
    j: int,
    i: int,
    v: V,
)
    requires
        tbl_wf(t),
        0 <= j < t.len(),
        0 <= i < t[j].len(),
        t2 == t.update(j, t[j].update(i, (t[j][i].0, v))),
    ensures
        tbl_wf(t2),
        tbl_contains_pair(t2, t[j][i].0@, v),
        forall|kv: K::V, v2: V| #[trigger]
            tbl_contains_pair(t2, kv, v2) <==> ((tbl_contains_pair(t, kv, v2) && kv
                != t[j][i].0@) || (kv == t[j][i].0@ && v2 == v)),
{
    let kvp = t[j][i].0@;
    assert(t2[j] == t[j].update(i, (t[j][i].0, v)));
    assert forall|jj: int, ii: int|
        0 <= jj < t2.len() && 0 <= ii < t2[jj].len() implies 0 <= jj < t.len() && 0 <= ii
        < t[jj].len() && (#[trigger] t2[jj][ii]).0 == t[jj][ii].0 && (!(jj == j && ii == i)
        ==> t2[jj][ii].1 == t[jj][ii].1) by {}
    assert(tbl_placed(t2));
    assert forall|jj: int| 0 <= jj < t2.len() implies pairs_distinct(#[trigger] t2[jj]) by {
        assert(pairs_distinct(t[jj]));
    }
    assert(t2[j][i] == (t[j][i].0, v));
    assert(tbl_contains_pair(t2, kvp, v));
    assert forall|kv: K::V, v2: V| #[trigger]
        tbl_contains_pair(t2, kv, v2) implies ((tbl_contains_pair(t, kv, v2) && kv != kvp) || (
    kv == kvp && v2 == v)) by {
        let (jj, ii): (int, int) = choose|jj: int, ii: int|
            0 <= jj < t2.len() && 0 <= ii < t2[jj].len() && (#[trigger] t2[jj][ii]).0@ == kv
                && t2[jj][ii].1 == v2;
        if kv == kvp {
            lemma_tbl_located(t2, kvp, jj, ii);
            lemma_tbl_located(t2, kvp, j, i);
        } else {
            assert(t[jj][ii].0@ == kv && t[jj][ii].1 == v2);
        }
    }
    assert forall|kv: K::V, v2: V|
        ((tbl_contains_pair(t, kv, v2) && kv != kvp) || (kv == kvp && v2 == v)) implies
    #[trigger] tbl_contains_pair(t2, kv, v2) by {
        if kv == kvp {
        } else {
            let (jj, ii): (int, int) = choose|jj: int, ii: int|
                0 <= jj < t.len() && 0 <= ii < t[jj].len() && (#[trigger] t[jj][ii]).0@ == kv
                    && t[jj][ii].1 == v2;
            assert(t2[jj][ii].0@ == kv && t2[jj][ii].1 == v2);
        }
    }
}

/// Compacting a chain by moving its last pair over position `i` removes
/// exactly the key at position `i` from a well-formed table.
proof fn lemma_swap_remove_pairs<K: HashKey, V>(
    t: Seq<Seq<(K, V)>>,
    t2: Seq<Seq<(K, V)>>,
    j: int,
    i: int,
)
    requires
        tbl_wf(t),
        0 <= j < t.len(),
        0 <= i < t[j].len(),
        t2 == t.update(j, t[j].update(i, t[j].last()).drop_last()),
    ensures
        tbl_wf(t2),
        !tbl_has_key(t2, t[j][i].0@),
        forall|kv: K::V, v: V| #[trigger]
            tbl_contains_pair(t2, kv, v) <==> (tbl_contains_pair(t, kv, v) && kv != t[j][i].0@),
{
    let c = t[j];
    let kvp = c[i].0@;
    let m = c.len() as int - 1;
    let c2 = c.update(i, c.last()).drop_last();
    assert(t2[j] == c2);
    assert(c2.len() == m);
    assert forall|ii: int| 0 <= ii < m implies (#[trigger] c2[ii]) == (if ii == i {
        c[m]
    } else {
        c[ii]
    }) by {}
    assert(tbl_placed(t2));
    assert forall|jj: int| 0 <= jj < t2.len() implies pairs_distinct(#[trigger] t2[jj]) by {
        assert(pairs_distinct(t[jj]));
        if jj == j {
            assert forall|a: int, b: int| 0 <= a < b < m implies (#[trigger] c2[a]).0@ != (
            #[trigger] c2[b]).0@ by {
                assert(pairs_distinct(c));
            }
        }
    }
    assert forall|kv: K::V, v: V| #[trigger]
        tbl_contains_pair(t2, kv, v) implies (tbl_contains_pair(t, kv, v) && kv != kvp) by {
        let (jj, ii): (int, int) = choose|jj: int, ii: int|
            0 <= jj < t2.len() && 0 <= ii < t2[jj].len() && (#[trigger] t2[jj][ii]).0@ == kv
                && t2[jj][ii].1 == v;
        if jj == j {
            if ii == i {
                assert(t2[jj][ii] == c[m]);
                assert(tbl_contains_pair(t, kv, v));
                if kv == kvp {
                    assert(pairs_distinct(c));
                    assert(c[m].0@ == kvp && c[i].0@ == kvp);
                    assert(i == m);
                    assert(false);
                }
            } else {
                assert(t2[jj][ii] == c[ii]);
                assert(tbl_contains_pair(t, kv, v));
                if kv == kvp {
                    assert(pairs_distinct(c));
                    assert(false);
                }
            }
        } else {
            assert(t2[jj][ii] == t[jj][ii]);
            assert(tbl_contains_pair(t, kv, v));
            if kv == kvp {
                lemma_tbl_located(t, kvp, jj, ii);
                lemma_tbl_located(t, kvp, j, i);
                assert(false);
            }
        }
    }
    assert forall|kv: K::V, v: V|
        tbl_contains_pair(t, kv, v) && kv != kvp implies #[trigger] tbl_contains_pair(
        t2,
        kv,
        v,
    ) by {
        let (jj, ii): (int, int) = choose|jj: int, ii: int|
            0 <= jj < t.len() && 0 <= ii < t[jj].len() && (#[trigger] t[jj][ii]).0@ == kv
                && t[jj][ii].1 == v;
        if jj == j {
            assert(ii != i);
            if ii == m {
                assert(i < m);
                assert(c2[i] == c[m]);
                assert(t2[j][i].0@ == kv && t2[j][i].1 == v);
            } else {
                assert(c2[ii] == c[ii]);
                assert(t2[j][ii].0@ == kv && t2[j][ii].1 == v);
            }
        } else {
            assert(t2[jj][ii].0@ == kv && t2[jj][ii].1 == v);
        }
    }
    if tbl_has_key(t2, kvp) {
        lemma_has_key_pair(t2, kvp);
        let v = choose|v: V| tbl_contains_pair(t2, kvp, v);
        assert(false);
    }
}

/// Two well-formed tables holding the same pairs have the same view.
proof fn lemma_view_equal<K: HashKey, V>(t1: Seq<Seq<(K, V)>>, t2: Seq<Seq<(K, V)>>)
    requires
        tbl_wf(t1),
        tbl_wf(t2),
        forall|kv: K::V, v: V|
            #![trigger tbl_contains_pair(t1, kv, v)]
            #![trigger tbl_contains_pair(t2, kv, v)]
            tbl_contains_pair(t1, kv, v) <==> tbl_contains_pair(t2, kv, v),
    ensures
        tbl_view(t1) == tbl_view(t2),
{
    let m1 = tbl_view(t1);
    let m2 = tbl_view(t2);
    assert forall|kv: K::V|
        #![trigger m1.dom().contains(kv)]
        #![trigger m2.dom().contains(kv)]
        m1.dom().contains(kv) <==> m2.dom().contains(kv) by {
        if m1.dom().contains(kv) {
            lemma_has_key_pair(t1, kv);
            let v = choose|v: V| tbl_contains_pair(t1, kv, v);
            lemma_pair_value(t2, kv, v);
        }
        if m2.dom().contains(kv) {
            lemma_has_key_pair(t2, kv);
            let v = choose|v: V| tbl_contains_pair(t2, kv, v);
            lemma_pair_value(t1, kv, v);
        }
    }
    assert forall|kv: K::V|
        #![trigger m1.dom().contains(kv)]
        #![trigger m2.dom().contains(kv)]
        m1.dom().contains(kv) implies m1[kv] == m2[kv] by {
        lemma_has_key_pair(t1, kv);
        let v = choose|v: V| tbl_contains_pair(t1, kv, v);
        lemma_pair_value(t1, kv, v);
        lemma_pair_value(t2, kv, v);
    }
    assert(m1 =~= m2);
}

impl<K: HashKey, V> HashMap<K, V> {
    /// Look up the value stored under a key, if any. The probe may be any
    /// type that hashes and compares like the key type, such as a borrowed
    /// string slice against owned string keys.
    pub fn get<'a, Q: Probe<K>>(&'a self, key: &Q) -> (r: Option<&'a V>)
        requires
            self.wf(),
        ensures
            match r {
                Some(v) => self@.dom().contains(key@) && *v == self@[key@],
                None => !self@.dom().contains(key@),
            },
    {
        let ghost t = self.table();
        if self.buckets.len() == 0 {
            proof {
                lemma_tbl_absent(t, key@);
            }
            None
        } else {
            {
                let index = probe_bucket::<K, Q>(key, self.buckets.len());
                let bucket: &Vec<(K, V)> = &self.buckets[index];
                let n = bucket.len();
                let mut i: usize = 0;
                while i < n
                    invariant
                        self.wf(),
                        t == self.table(),
                        0 <= index < t.len(),
                        index == spec_bucket_of(K::hash_of(key@), t.len() as int),
                        bucket@ == t[index as int],
                        n == bucket@.len(),
                        0 <= i <= n,
                        forall|p: int| 0 <= p < i ==> (#[trigger] bucket@[p]).0@ != key@,
                    decreases n - i,
                {
                    if key.probe_eq(&bucket[i].0) {
                        proof {
                            lemma_tbl_located(t, key@, index as int, i as int);
                        }
                        return Some(&bucket[i].1);
                    }
                    i += 1;
                }
                proof {
                    assert(!chain_has_key(t[index as int], key@));
                    lemma_tbl_absent(t, key@);
                }
                None
            }
        }
    }

    /// Whether an insertion must grow the bucket array first: there are no
    /// buckets yet, or the load factor exceeds three quarters.
    fn should_resize(&self) -> (b: bool)
        ensures
            b == (self.buckets@.len() == 0 || self.items as int > 3 * self.buckets@.len() as int
                / 4),
    {
        self.buckets.len() == 0 || (self.items as u128) > 3 * (self.buckets.len() as u128) / 4
    }

    /// Grow the bucket array and redistribute every stored pair by its hash
    /// against the new size. The abstract contents are unchanged.
    fn resize(&mut self)
        requires
            old(self).wf(),
        ensures
            final(self).wf(),
            final(self)@ == old(self)@,
            final(self).items == old(self).items,
            final(self).buckets@.len() > 0,
            final(self).buckets@.len() as int == (if old(self).buckets@.len() == 0 {
                1int
            } else if old(self).buckets@.len() <= usize::MAX / 2 {
                2 * (old(self).buckets@.len() as int)
            } else {
                old(self).buckets@.len() as int
            }),
    {
        let ghost t0 = self.table();
        let ghost m0 = self@;
        let n = self.buckets.len();
        let target = if n == 0 {
            1
        } else if n <= usize::MAX / 2 {
            // geometric growth
            2 * n
        } else {
            // the bucket array has reached the top of the address range and
            // cannot double; rehash at the same size
            n
        };
        let mut new_buckets: Vec<Vec<(K, V)>> = Vec::new();
        while new_buckets.len() < target
            invariant
                new_buckets@.len() <= target,
                forall|j: int|
                    0 <= j < new_buckets@.len() ==> (#[trigger] new_buckets@[j])@.len() == 0,
            decreases target - new_buckets@.len(),
        {
            new_buckets.push(Vec::new());
        }
        proof {
            assert forall|kv: K::V, v: V| !tbl_contains_pair(
                vecs_view(new_buckets@),
                kv,
                v,
            ) by {}
            assert forall|kv: K::V| !tbl_has_key(vecs_view(new_buckets@), kv) by {
                if tbl_has_key(vecs_view(new_buckets@), kv) {
                    lemma_has_key_pair::<K, V>(vecs_view(new_buckets@), kv);
                }
            }
        }
        let mut j: usize = 0;
        while j < self.buckets.len()
            invariant
                old(self).wf(),
                t0 == old(self).table(),
                m0 == old(self)@,
                target > 0,
                self.buckets@.len() == t0.len(),
                self.items == old(self).items,
                new_buckets@.len() == target,
                tbl_wf(self.table()),
                tbl_wf(vecs_view(new_buckets@)),
                0 <= j <= self.buckets@.len(),
                forall|jj: int| 0 <= jj < j ==> (#[trigger] self.table()[jj]).len() == 0,
                forall|kv: K::V, v: V|
                    #![trigger tbl_contains_pair(t0, kv, v)]
                    #![trigger tbl_contains_pair(self.table(), kv, v)]
                    #![trigger tbl_contains_pair(vecs_view(new_buckets@), kv, v)]
                    tbl_contains_pair(t0, kv, v) <==> (tbl_contains_pair(self.table(), kv, v)
                        || tbl_contains_pair(vecs_view(new_buckets@), kv, v)),
                forall|kv: K::V|
                    !(#[trigger] tbl_has_key(self.table(), kv) && tbl_has_key(
                        vecs_view(new_buckets@),
                        kv,
                    )),
            decreases self.buckets@.len() - j,
        {
            while self.buckets[j].len() > 0
                invariant
                    old(self).wf(),
                    t0 == old(self).table(),
                    m0 == old(self)@,
                    target > 0,
                    self.buckets@.len() == t0.len(),
                    self.items == old(self).items,
                    new_buckets@.len() == target,
                    tbl_wf(self.table()),
                    tbl_wf(vecs_view(new_buckets@)),
                    0 <= j < self.buckets@.len(),
                    forall|jj: int| 0 <= jj < j ==> (#[trigger] self.table()[jj]).len() == 0,
                    forall|kv: K::V, v: V|
                        #![trigger tbl_contains_pair(t0, kv, v)]
                        #![trigger tbl_contains_pair(self.table(), kv, v)]
                        #![trigger tbl_contains_pair(vecs_view(new_buckets@), kv, v)]
                        tbl_contains_pair(t0, kv, v) <==> (tbl_contains_pair(self.table(), kv, v)
                            || tbl_contains_pair(vecs_view(new_buckets@), kv, v)),
                    forall|kv: K::V|
                        !(#[trigger] tbl_has_key(self.table(), kv) && tbl_has_key(
                            vecs_view(new_buckets@),
                            kv,
                        )),
                decreases self.buckets@[j as int]@.len(),
            {
                let ghost ct = self.table();
                let ghost nt = vecs_view(new_buckets@);
                let pair = match self.buckets[j].pop() {
                    Some(p) => p,
                    None => vstd::pervasive::unreached(),
                };
                proof {
                    assert(self.table() =~= ct.update(j as int, ct[j as int].drop_last()));
                    lemma_pop_pairs(ct, self.table(), j as int);
                    assert(tbl_contains_pair(ct, pair.0@, pair.1));
                    assert(!tbl_has_key(nt, pair.0@)) by {
                        assert(tbl_has_key(ct, pair.0@)) by {
                            lemma_pair_value(ct, pair.0@, pair.1);
                        }
                    }
                }
                let idx = compute_hash_unchecked(&pair.0, new_buckets.len());
                let ghost p = pair;
                new_buckets[idx].push(pair);
                proof {
                    assert(vecs_view(new_buckets@) =~= nt.update(idx as int, nt[idx as int].push(p)));
                    lemma_push_pairs(nt, vecs_view(new_buckets@), idx as int, p);
                    assert forall|kv: K::V|
                        !(#[trigger] tbl_has_key(self.table(), kv) && tbl_has_key(
                            vecs_view(new_buckets@),
                            kv,
                        )) by {
                        if tbl_has_key(self.table(), kv) && tbl_has_key(
                            vecs_view(new_buckets@),
                            kv,
                        ) {
                            lemma_has_key_pair(self.table(), kv);
                            let v = choose|v: V| tbl_contains_pair(self.table(), kv, v);
                            lemma_has_key_pair(vecs_view(new_buckets@), kv);
                            let v2 = choose|v2: V| tbl_contains_pair(vecs_view(new_buckets@), kv, v2);
                            assert(kv != p.0@);
                            assert(tbl_contains_pair(nt, kv, v2));
                            assert(tbl_has_key(nt, kv)) by {
                                lemma_pair_value(nt, kv, v2);
                            }
                            assert(tbl_has_key(ct, kv)) by {
                                lemma_pair_value(ct, kv, v);
                            }
                        }
                    }
                }
            }
            j += 1;
        }
        proof {
            assert forall|kv: K::V| !tbl_has_key(self.table(), kv) by {
                if tbl_has_key(self.table(), kv) {
                    let jj = choose|jj: int|
                        0 <= jj < self.table().len() && chain_has_key(
                            #[trigger] self.table()[jj],
                            kv,
                        );
                    assert(self.table()[jj].len() == 0);
                    let ii = choose|ii: int|
                        0 <= ii < self.table()[jj].len() && (#[trigger] self.table()[jj][ii]).0@
                            == kv;
                }
            }
            assert forall|kv: K::V, v: V| !tbl_contains_pair(self.table(), kv, v) by {
                if tbl_contains_pair(self.table(), kv, v) {
                    lemma_pair_value(self.table(), kv, v);
                }
            }
        }
        self.buckets = new_buckets;
        proof {
            lemma_view_equal(t0, self.table());
        }
    }

    /// Store `value` under `key`. Returns the value previously stored under
    /// the key, if any, which the new value replaces.
    pub fn insert(&mut self, key: K, value: V) -> (prev: Option<V>)
        requires
            old(self).wf(),
            old(self)@.len() < usize::MAX,
        ensures
            final(self).wf(),
            final(self)@ == old(self)@.insert(key@, value),
            match prev {
                Some(v) => old(self)@.dom().contains(key@) && v == old(self)@[key@],
                None => !old(self)@.dom().contains(key@),
            },
    {
        broadcast use vstd::set::group_set_axioms;

        if self.should_resize() {
            self.resize();
        }
        let ghost t = self.table();
        let ghost m1 = self@;
        let index = compute_hash_unchecked(&key, self.buckets.len());
        let n = self.buckets[index].len();
        let mut i: usize = 0;
        while i < n
            invariant
                self.wf(),
                t == self.table(),
                m1 == self@,
                m1 == old(self)@,
                self.items == self@.len(),
                0 <= index < t.len(),
                t.len() == self.buckets@.len(),
                index == spec_bucket_of(K::hash_of(key@), t.len() as int),
                n == t[index as int].len(),
                0 <= i <= n,
                forall|p: int| 0 <= p < i ==> (#[trigger] t[index as int][p]).0@ != key@,
            decreases n - i,
        {
            if self.buckets[index][i].0.key_eq(&key) {
                let ghost oldv = t[index as int][i as int].1;
                let pair = &mut self.buckets[index][i];
                let mut tmp = value;
                core::mem::swap(&mut pair.1, &mut tmp);
                proof {
                    assert(self.table() =~= t.update(
                        index as int,
                        t[index as int].update(i as int, (t[index as int][i as int].0, value)),
                    ));
                    lemma_replace_pairs(t, self.table(), index as int, i as int, value);
                    lemma_view_insert(t, self.table(), key@, value);
                    lemma_tbl_located(t, key@, index as int, i as int);
                }
                return Some(tmp);
            }
            i += 1;
        }
        proof {
            assert(!chain_has_key(t[index as int], key@));
            lemma_tbl_absent(t, key@);
        }
        self.buckets[index].push((key, value));
        self.items = self.items + 1;
        proof {
            assert(self.table() =~= t.update(
                index as int,
                t[index as int].push((key, value)),
            ));
            lemma_push_pairs(t, self.table(), index as int, (key, value));
            lemma_view_insert(t, self.table(), key@, value);
        }
        None
    }

    /// Take the pair stored under a key out of the map and return its value,
    /// if any pair is stored there.
    pub fn remove<Q: Probe<K>>(&mut self, key: &Q) -> (prev: Option<V>)
        requires
            old(self).wf(),
        ensures
            final(self).wf(),
            final(self)@ == old(self)@.remove(key@),
            match prev {
                Some(v) => old(self)@.dom().contains(key@) && v == old(self)@[key@],
                None => !old(self)@.dom().contains(key@) && *final(self) == *old(self),
            },
    {
        broadcast use vstd::set::group_set_axioms;

        let ghost t = self.table();
        if self.buckets.len() == 0 {
            proof {
                lemma_tbl_absent(t, key@);
                assert(self@.remove(key@) =~= self@);
            }
            None
        } else {
            {
                let index = probe_bucket::<K, Q>(key, self.buckets.len());
                let n = self.buckets[index].len();
                let mut i: usize = 0;
                while i < n
                    invariant
                        self.wf(),
                        t == self.table(),
                        self@ == old(self)@,
                        *self == *old(self),
                        self.items == self@.len(),
                        0 <= index < t.len(),
                        t.len() == self.buckets@.len(),
                        index == spec_bucket_of(K::hash_of(key@), t.len() as int),
                        n == t[index as int].len(),
                        0 <= i <= n,
                        forall|p: int| 0 <= p < i ==> (#[trigger] t[index as int][p]).0@ != key@,
                    decreases n - i,
                {
                    if key.probe_eq(&self.buckets[index][i].0) {
                        proof {
                            lemma_tbl_located(t, key@, index as int, i as int);
                        }
                        let pair = self.buckets[index].swap_remove(i);
                        self.items = self.items - 1;
                        proof {
                            assert(self.table() =~= t.update(
                                index as int,
                                t[index as int].update(i as int, t[index as int].last()).drop_last(),
                            ));
                            lemma_swap_remove_pairs(t, self.table(), index as int, i as int);
                            lemma_view_remove(t, self.table(), key@);
                        }
                        return Some(pair.1);
                    }
                    i += 1;
                }
                proof {
                    assert(!chain_has_key(t[index as int], key@));
                    lemma_tbl_absent(t, key@);
                    assert(self@.remove(key@) =~= self@);
                }
                None
            }
        }
    }

    /// Look up the value stored under a key and hand back exclusive access to
    /// it, if any pair is stored there.
    pub fn get_mut<Q: Probe<K>>(&mut self, key: &Q) -> (r: Option<&mut V>)
        requires
            old(self).wf(),
        ensures
            match r {
                Some(v) => old(self)@.dom().contains(key@) && *v == old(self)@[key@]
                    && final(self)@ == old(self)@.insert(key@, *final(v)) && final(self).wf(),
                None => !old(self)@.dom().contains(key@) && *final(self) == *old(self),
            },
    {
        broadcast use vstd::set::group_set_axioms;

        let ghost t = self.table();
        if self.buckets.len() == 0 {
            proof {
                lemma_tbl_absent(t, key@);
            }
            None
        } else {
            {
                let index = probe_bucket::<K, Q>(key, self.buckets.len());
                let n = self.buckets[index].len();
                let mut i: usize = 0;
                while i < n
                    invariant
                        self.wf(),
                        t == self.table(),
                        self@ == old(self)@,
                        *self == *old(self),
                        self.items == self@.len(),
                        0 <= index < t.len(),
                        t.len() == self.buckets@.len(),
                        index == spec_bucket_of(K::hash_of(key@), t.len() as int),
                        n == t[index as int].len(),
                        0 <= i <= n,
                        forall|p: int| 0 <= p < i ==> (#[trigger] t[index as int][p]).0@ != key@,
                    decreases n - i,
                {
                    if key.probe_eq(&self.buckets[index][i].0) {
                        proof {
                            lemma_tbl_located(t, key@, index as int, i as int);
                        }
                        let pair = &mut self.buckets[index][i];
                        let value_ref = &mut pair.1;
                        proof {
                            broadcast use lemma_vecs_view_update;

                            let fv = *final(value_ref);
                            let c2 = t[index as int].update(
                                i as int,
                                (t[index as int][i as int].0, fv),
                            );
                            let t2 = t.update(index as int, c2);
                            lemma_replace_pairs(t, t2, index as int, i as int, fv);
                            lemma_view_insert(t, t2, key@, fv);
                        }
                        return Some(value_ref);
                    }
                    i += 1;
                }
                proof {
                    assert(!chain_has_key(t[index as int], key@));
                    lemma_tbl_absent(t, key@);
                }
                None
            }
        }
    }

    /// Whether some pair is stored under the key.
    pub fn contains_key<Q: Probe<K>>(&self, key: &Q) -> (b: bool)
        requires
            self.wf(),
        ensures
            b == self@.dom().contains(key@),
    {
        self.get(key).is_some()
    }

    /// Look up a key known to be present; the total [`Self::get`] is the
    /// accessor for untrusted keys.
    pub fn index<'a, Q: Probe<K>>(&'a self, key: &Q) -> (v: &'a V)
        requires
            self.wf(),
            self@.dom().contains(key@),
        ensures
            *v == self@[key@],
    {
        match self.get(key) {
            Some(v) => v,
            None => vstd::pervasive::unreached(),
        }
    }
}

impl<K: HashKey, V> HashMap<K, V> {
    /// Whether (`bucket`, `index`) is the position of a live pair.
    pub closed spec fn slot_live(&self, bucket: int, index: int) -> bool {
        &&& 0 <= bucket < self.table().len()
        &&& 0 <= index < self.table()[bucket].len()
    }

    /// The abstract key value of the pair at a live position.
    pub closed spec fn slot_key(&self, bucket: int, index: int) -> K::V {
        self.table()[bucket][index].0@
    }

    /// Read the value of the pair at a live position.
    pub(crate) fn slot_value<'a>(&'a self, bucket: usize, index: usize) -> (v: &'a V)
        requires
            self.wf(),
            self.slot_live(bucket as int, index as int),
        ensures
            self@.dom().contains(self.slot_key(bucket as int, index as int)),
            *v == self@[self.slot_key(bucket as int, index as int)],
    {
        proof {
            lemma_tbl_located(
                self.table(),
                self.slot_key(bucket as int, index as int),
                bucket as int,
                index as int,
            );
        }
        &self.buckets[bucket][index].1
    }

    /// Hand back exclusive access to the value of the pair at a live
    /// position.
    pub(crate) fn slot_value_mut<'a>(&'a mut self, bucket: usize, index: usize) -> (v: &'a mut V)
        requires
            old(self).wf(),
            old(self).slot_live(bucket as int, index as int),
        ensures
            old(self)@.dom().contains(old(self).slot_key(bucket as int, index as int)),
            *v == old(self)@[old(self).slot_key(bucket as int, index as int)],
            final(self)@ == old(self)@.insert(
                old(self).slot_key(bucket as int, index as int),
                *final(v),
            ),
            final(self).wf(),
    {
        broadcast use vstd::set::group_set_axioms;

        let ghost t = self.table();
        let ghost kv = self.slot_key(bucket as int, index as int);
        proof {
            lemma_tbl_located(t, kv, bucket as int, index as int);
        }
        let pair = &mut self.buckets[bucket][index];
        let value_ref = &mut pair.1;
        proof {
            broadcast use lemma_vecs_view_update;

            let fv = *final(value_ref);
            let c2 = t[bucket as int].update(index as int, (t[bucket as int][index as int].0, fv));
            let t2 = t.update(bucket as int, c2);
            lemma_replace_pairs(t, t2, bucket as int, index as int, fv);
            lemma_view_insert(t, t2, kv, fv);
        }
        value_ref
    }

    /// Place a pair whose key is known to be absent, growing the bucket array
    /// first when the load calls for it, and hand back exclusive access to
    /// the stored value.
    pub(crate) fn push_vacant<'a>(&'a mut self, key: K, value: V) -> (v: &'a mut V)
        requires
            old(self).wf(),
            !old(self)@.dom().contains(key@),
            old(self)@.len() < usize::MAX,
        ensures
            final(self)@ == old(self)@.insert(key@, *final(v)),
            *v == value,
            final(self).wf(),
    {
        broadcast use vstd::set::group_set_axioms;

        if self.should_resize() {
            self.resize();
        }
        let ghost t = self.table();
        let ghost m1 = self@;
        let index = compute_hash_unchecked(&key, self.buckets.len());
        let ghost kv = key@;
        proof {
            if chain_has_key(t[index as int], kv) {
                let i = choose|i: int|
                    0 <= i < t[index as int].len() && (#[trigger] t[index as int][i]).0@ == kv;
                lemma_tbl_located(t, kv, index as int, i);
            }
        }
        self.buckets[index].push((key, value));
        self.items = self.items + 1;
        let ghost t2 = self.table();
        proof {
            assert(t2 =~= t.update(index as int, t[index as int].push((key, value))));
            lemma_push_pairs(t, t2, index as int, (key, value));
            lemma_view_insert(t, t2, kv, value);
        }
        let n = self.buckets[index].len();
        let pair = &mut self.buckets[index][n - 1];
        let value_ref = &mut pair.1;
        proof {
            broadcast use lemma_vecs_view_update;

            let fv = *final(value_ref);
            let c3 = t2[index as int].update(n - 1, (t2[index as int][n - 1].0, fv));
            let t3 = t2.update(index as int, c3);
            lemma_replace_pairs(t2, t3, index as int, n - 1, fv);
            lemma_view_insert(t2, t3, kv, fv);
            assert(m1.insert(kv, value).insert(kv, fv) =~= m1.insert(kv, fv));
        }
        value_ref
    }

    /// Take the pair at a live position out, feed its value to `f`, and store
    /// the result back under the same key. Returns the pair's new position.
    pub(crate) fn slot_apply<F: FnOnce(V) -> V>(&mut self, bucket: usize, index: usize, f: F) -> (r:
        (usize, usize))
        requires
            old(self).wf(),
            old(self).slot_live(bucket as int, index as int),
            f.requires((old(self)@[old(self).slot_key(bucket as int, index as int)],)),
        ensures
            final(self).wf(),
            final(self).slot_live(r.0 as int, r.1 as int),
            final(self).slot_key(r.0 as int, r.1 as int) == old(self).slot_key(
                bucket as int,
                index as int,
            ),
            final(self)@.dom().contains(old(self).slot_key(bucket as int, index as int)),
            f.ensures(
                (old(self)@[old(self).slot_key(bucket as int, index as int)],),
                final(self)@[old(self).slot_key(bucket as int, index as int)],
            ),
            final(self)@ == old(self)@.insert(
                old(self).slot_key(bucket as int, index as int),
                final(self)@[old(self).slot_key(bucket as int, index as int)],
            ),
    {
        broadcast use vstd::set::group_set_axioms;

        let ghost t = self.table();
        let ghost kv = self.slot_key(bucket as int, index as int);
        proof {
            lemma_tbl_located(t, kv, bucket as int, index as int);
        }
        let pair = self.buckets[bucket].swap_remove(index);
        let ghost t2 = self.table();
        proof {
            assert(t2 =~= t.update(
                bucket as int,
                t[bucket as int].update(index as int, t[bucket as int].last()).drop_last(),
            ));
            lemma_swap_remove_pairs(t, t2, bucket as int, index as int);
            lemma_view_remove(t, t2, kv);
        }
        let new_value = f(pair.1);
        self.buckets[bucket].push((pair.0, new_value));
        let ghost t3 = self.table();
        proof {
            assert(t3 =~= t2.update(bucket as int, t2[bucket as int].push((pair.0, new_value))));
            lemma_push_pairs(t2, t3, bucket as int, (pair.0, new_value));
            lemma_view_insert(t2, t3, kv, new_value);
            assert(old(self)@.remove(kv).insert(kv, new_value) =~= old(self)@.insert(
                kv,
                new_value,
            ));
            lemma_tbl_located(t3, kv, bucket as int, t3[bucket as int].len() as int - 1);
        }
        let n = self.buckets[bucket].len();
        (bucket, n - 1)
    }

    /// A cursor at the key's slot when some pair is stored under it, and at
    /// the key itself otherwise, for inspect-or-insert without a second
    /// lookup.
    pub fn entry(&self, key: K) -> (e: crate::entry::Entry<K>)
        requires
            self.wf(),
        ensures
            e.valid(self),
            e.key_view() == key@,
            e.is_occupied() == self@.dom().contains(key@),
    {
        let ghost t = self.table();
        match compute_hash(&key, self.buckets.len()) {
            None => {
                proof {
                    lemma_tbl_absent(t, key@);
                }
                crate::entry::Entry::Vacant(crate::entry::VacantEntry::new(self, 0, key))
            },
            Some(index) => {
                let n = self.buckets[index].len();
                let mut i: usize = 0;
                while i < n
                    invariant
                        self.wf(),
                        t == self.table(),
                        0 <= index < t.len(),
                        t.len() == self.buckets@.len(),
                        index == spec_bucket_of(K::hash_of(key@), t.len() as int),
                        n == t[index as int].len(),
                        0 <= i <= n,
                        forall|p: int| 0 <= p < i ==> (#[trigger] t[index as int][p]).0@ != key@,
                    decreases n - i,
                {
                    if self.buckets[index][i].0.key_eq(&key) {
                        proof {
                            lemma_tbl_located(t, key@, index as int, i as int);
                        }
                        return crate::entry::Entry::Occupied(
                            crate::entry::OccupiedEntry::new(self, index, i),
                        );
                    }
                    i += 1;
                }
                proof {
                    assert(!chain_has_key(t[index as int], key@));
                    lemma_tbl_absent(t, key@);
                }
                crate::entry::Entry::Vacant(crate::entry::VacantEntry::new(self, index, key))
            },
        }
    }
}

/// The map a sequence of pairs denotes: each pair inserted in order, so a
/// later pair overwrites an earlier one with the same key.
pub open spec fn pairs_to_map<K: HashKey, V>(s: Seq<(K, V)>) -> Map<K::V, V>
    decreases s.len(),
{
    if s.len() == 0 {
        Map::empty()
    } else {
        pairs_to_map(s.drop_last()).insert(s.last().0@, s.last().1)
    }
}

/// Removing the first pair of a chain removes exactly that pair's key from a
/// well-formed table.
proof fn lemma_drop_first_pairs<K: HashKey, V>(t: Seq<Seq<(K, V)>>, t2: Seq<Seq<(K, V)>>, j: int)
    requires
        tbl_wf(t),
        0 <= j < t.len(),
        t[j].len() > 0,
        t2 == t.update(j, t[j].drop_first()),
    ensures
        tbl_wf(t2),
        tbl_contains_pair(t, t[j][0].0@, t[j][0].1),
        !tbl_has_key(t2, t[j][0].0@),
        forall|kv: K::V, v: V| #[trigger]
            tbl_contains_pair(t2, kv, v) <==> (tbl_contains_pair(t, kv, v) && kv != t[j][0].0@),
{
    let c = t[j];
    let kvp = c[0].0@;
    let m = c.len() as int - 1;
    assert(t2[j] == c.drop_first());
    assert forall|ii: int| 0 <= ii < m implies (#[trigger] t2[j][ii]) == c[ii + 1] by {}
    assert(tbl_placed(t2));
    assert forall|jj: int| 0 <= jj < t2.len() implies pairs_distinct(#[trigger] t2[jj]) by {
        assert(pairs_distinct(t[jj]));
        if jj == j {
            assert forall|a: int, b: int| 0 <= a < b < m implies (#[trigger] t2[j][a]).0@ != (
            #[trigger] t2[j][b]).0@ by {
                assert(pairs_distinct(c));
            }
        }
    }
    assert(tbl_contains_pair(t, kvp, c[0].1));
    assert forall|kv: K::V, v: V| #[trigger]
        tbl_contains_pair(t2, kv, v) implies (tbl_contains_pair(t, kv, v) && kv != kvp) by {
        let (jj, ii): (int, int) = choose|jj: int, ii: int|
            0 <= jj < t2.len() && 0 <= ii < t2[jj].len() && (#[trigger] t2[jj][ii]).0@ == kv
                && t2[jj][ii].1 == v;
        if jj == j {
            assert(t[j][ii + 1].0@ == kv && t[j][ii + 1].1 == v);
            if kv == kvp {
                assert(pairs_distinct(c));
                assert(false);
            }
        } else {
            assert(t[jj][ii].0@ == kv && t[jj][ii].1 == v);
            if kv == kvp {
                lemma_tbl_located(t, kvp, jj, ii);
                lemma_tbl_located(t, kvp, j, 0);
                assert(false);
            }
        }
    }
    assert forall|kv: K::V, v: V|
        tbl_contains_pair(t, kv, v) && kv != kvp implies #[trigger] tbl_contains_pair(
        t2,
        kv,
        v,
    ) by {
        let (jj, ii): (int, int) = choose|jj: int, ii: int|
            0 <= jj < t.len() && 0 <= ii < t[jj].len() && (#[trigger] t[jj][ii]).0@ == kv
                && t[jj][ii].1 == v;
        if jj == j {
            assert(ii != 0);
            assert(t2[j][ii - 1].0@ == kv && t2[j][ii - 1].1 == v);
        } else {
            assert(t2[jj][ii].0@ == kv && t2[jj][ii].1 == v);
        }
    }
    if tbl_has_key(t2, kvp) {
        lemma_has_key_pair(t2, kvp);
        let v = choose|v: V| tbl_contains_pair(t2, kvp, v);
        assert(false);
    }
}

/// The table still to be traversed by a cursor standing at chain `b`,
/// position `i`: earlier chains are exhausted and chain `b` is entered.
spec fn remaining_table<K: HashKey, V>(t: Seq<Seq<(K, V)>>, b: int, i: int) -> Seq<Seq<(K, V)>> {
    Seq::new(
        t.len(),
        |j: int|
            if j < b {
                Seq::empty()
            } else if j == b {
                t[j].skip(i)
            } else {
                t[j]
            },
    )
}

/// A cursor's remaining table is well formed whenever the full table is.
proof fn lemma_remaining_wf<K: HashKey, V>(t: Seq<Seq<(K, V)>>, b: int, i: int)
    requires
        tbl_wf(t),
        0 <= b,
        0 <= i,
        b < t.len() ==> i <= t[b].len(),
    ensures
        tbl_wf(remaining_table(t, b, i)),
{
    let rt = remaining_table(t, b, i);
    assert forall|jj: int, ii: int|
        0 <= jj < rt.len() && 0 <= ii < rt[jj].len() implies (#[trigger] rt[jj][ii]) == t[jj][(
    if jj == b {
        ii + i
    } else {
        ii
    })] && jj >= b by {}
    assert(tbl_placed(rt));
    assert forall|jj: int| 0 <= jj < rt.len() implies pairs_distinct(#[trigger] rt[jj]) by {
        assert(pairs_distinct(t[jj]));
        if jj == b {
            assert forall|a: int, c2: int|
                0 <= a < c2 < rt[jj].len() implies (#[trigger] rt[jj][a]).0@ != (
            #[trigger] rt[jj][c2]).0@ by {}
        }
    }
}

/// A borrowing cursor over the pairs of a map: chains in index order, and
/// each chain front to back. It never mutates the map and can be restarted by
/// asking the map for a fresh one.
pub struct Iter<'m, K, V> {
    map: &'m HashMap<K, V>,
    bucket: usize,
    index: usize,
}

impl<'m, K: HashKey, V> Iter<'m, K, V> {
    spec fn rt(&self) -> Seq<Seq<(K, V)>> {
        remaining_table(self.map.table(), self.bucket as int, self.index as int)
    }

    /// The map this cursor traverses.
    pub closed spec fn source(&self) -> Map<K::V, V> {
        self.map@
    }

    /// The pairs the cursor has not yet yielded, as a map.
    pub closed spec fn remaining_map(&self) -> Map<K::V, V> {
        tbl_view(self.rt())
    }

    /// The cursor's internal invariant.
    pub closed spec fn wf_iter(&self) -> bool {
        &&& self.map.wf()
        &&& self.bucket <= self.map.table().len()
        &&& (self.bucket < self.map.table().len() ==> self.index
            <= self.map.table()[self.bucket as int].len())
        &&& (self.bucket == self.map.table().len() ==> self.index == 0)
        &&& self.remaining_map().dom().finite()
        &&& self.remaining_map().submap_of(self.source())
    }

    /// Start a traversal at the first chain.
    pub fn new(map: &'m HashMap<K, V>) -> (it: Self)
        requires
            map.wf(),
        ensures
            it.wf_iter(),
            it.source() == map@,
            it.remaining_map() == map@,
    {
        let it = Iter { map, bucket: 0, index: 0 };
        proof {
            assert(it.rt() =~~= map.table());
            assert(it.remaining_map() =~= map@);
        }
        it
    }

    /// Yield the next pair, or nothing once every pair has been yielded.
    pub fn next(&mut self) -> (r: Option<&'m (K, V)>)
        requires
            old(self).wf_iter(),
        ensures
            final(self).wf_iter(),
            final(self).source() == old(self).source(),
            match r {
                Some(p) => old(self).remaining_map().dom().contains(p.0@) && old(self).remaining_map()[p.0@] == p.1 && old(self).source().dom().contains(p.0@) && old(self).source()[p.0@] == p.1 && final(self).remaining_map() == old(self).remaining_map().remove(p.0@),
                None => old(self).remaining_map() == Map::<K::V, V>::empty() && final(self).remaining_map() == old(self).remaining_map(),
            },
    {
        broadcast use vstd::set::group_set_axioms;

        let map: &'m HashMap<K, V> = self.map;
        let ghost t = map.table();
        while self.bucket < map.buckets.len()
            invariant
                self.map == map,
                old(self).map == map,
                t == map.table(),
                self.wf_iter(),
                self.remaining_map() == old(self).remaining_map(),
            decreases t.len() - self.bucket,
        {
            let c: &Vec<(K, V)> = &map.buckets[self.bucket];
            if self.index >= c.len() {
                let ghost rt0 = self.rt();
                self.index = 0;
                self.bucket = self.bucket + 1;
                proof {
                    assert(self.rt() =~~= rt0);
                }
            } else {
                let ghost rt0 = self.rt();
                let ghost kv = rt0[self.bucket as int][0].0@;
                proof {
                    lemma_remaining_wf(t, self.bucket as int, self.index as int);
                    assert(rt0[self.bucket as int][0] == t[self.bucket as int][self.index as int]);
                    lemma_tbl_located(t, kv, self.bucket as int, self.index as int);
                }
                self.index = self.index + 1;
                proof {
                    assert(self.rt() =~~= rt0.update(
                        self.bucket as int,
                        rt0[self.bucket as int].drop_first(),
                    ));
                    lemma_drop_first_pairs(rt0, self.rt(), self.bucket as int);
                    lemma_remaining_wf(t, self.bucket as int, self.index as int);
                    lemma_view_remove(rt0, self.rt(), kv);
                    lemma_pair_value(rt0, kv, rt0[self.bucket as int][0].1);
                    assert forall|kv2: K::V| self.remaining_map().dom().contains(kv2) implies
                        self.source().dom().contains(kv2) && self.remaining_map()[kv2]
                        == self.source()[kv2] by {
                        assert(tbl_view(rt0).dom().contains(kv2));
                    }
                    assert(self.remaining_map().submap_of(self.source()));
                }
                return Some(&map.buckets[self.bucket][self.index - 1]);
            }
        }
        proof {
            assert forall|kv: K::V| !tbl_has_key(self.rt(), kv) by {
                if tbl_has_key(self.rt(), kv) {
                    let jj = choose|jj: int|
                        0 <= jj < self.rt().len() && chain_has_key(#[trigger] self.rt()[jj], kv);
                    assert(self.rt()[jj].len() == 0);
                    let ii = choose|ii: int|
                        0 <= ii < self.rt()[jj].len() && (#[trigger] self.rt()[jj][ii]).0@ == kv;
                }
            }
            assert(self.remaining_map() =~= Map::<K::V, V>::empty());
        }
        None
    }
}

/// The pairs a sequence of borrowed pairs stands for.
pub open spec fn deref_pairs<K, V>(s: Seq<&(K, V)>) -> Seq<(K, V)> {
    s.map_values(|p: &(K, V)| *p)
}

impl<'m, K: HashKey, V> Iter<'m, K, V> {
    /// Run the traversal to its end and collect everything it yields: one
    /// reference per stored pair, the keys pairwise distinct, and together
    /// exactly the traversal's remaining contents.
    pub fn collect_pairs(self) -> (pairs: Vec<&'m (K, V)>)
        requires
            self.wf_iter(),
        ensures
            pairs_distinct(deref_pairs(pairs@)),
            pairs_to_map(deref_pairs(pairs@)) == self.remaining_map(),
            pairs@.len() == self.remaining_map().len(),
    {
        broadcast use vstd::set::group_set_axioms;

        let ghost m0 = self.remaining_map();
        let mut it = self;
        let mut pairs: Vec<&'m (K, V)> = Vec::new();
        loop
            invariant
                it.wf_iter(),
                m0 == self.remaining_map(),
                pairs_distinct(deref_pairs(pairs@)),
                pairs_to_map(deref_pairs(pairs@)).dom().finite(),
                m0 == it.remaining_map().union_prefer_right(pairs_to_map(deref_pairs(pairs@))),
                forall|kv: K::V|
                    !(#[trigger] it.remaining_map().dom().contains(kv) && pairs_to_map(
                        deref_pairs(pairs@),
                    ).dom().contains(kv)),
                pairs@.len() == pairs_to_map(deref_pairs(pairs@)).len(),
            decreases it.remaining_map().len(),
        {
            let ghost rem = it.remaining_map();
            let ghost coll = pairs_to_map(deref_pairs(pairs@));
            match it.next() {
                None => {
                    proof {
                        assert(m0 =~= coll);
                    }
                    return pairs;
                },
                Some(p) => {
                    let ghost oldp = pairs@;
                    let ghost kv = p.0@;
                    pairs.push(p);
                    proof {
                        assert(pairs@.drop_last() =~= oldp);
                        assert(deref_pairs(pairs@).drop_last() =~= deref_pairs(oldp));
                        assert(deref_pairs(pairs@).last() == *p);
                        assert(pairs_to_map(deref_pairs(pairs@)) == coll.insert(kv, p.1));
                        crate::laws::lemma_pairs_to_map_membership(deref_pairs(oldp), kv);
                        assert forall|a: int, b: int|
                            0 <= a < b < deref_pairs(pairs@).len() implies (#[trigger] deref_pairs(
                            pairs@,
                        )[a]).0@ != (#[trigger] deref_pairs(pairs@)[b]).0@ by {
                            assert(deref_pairs(pairs@)[a] == deref_pairs(oldp)[a]);
                            if b < pairs@.len() - 1 {
                                assert(deref_pairs(pairs@)[b] == deref_pairs(oldp)[b]);
                            } else {
                                assert(deref_pairs(pairs@)[b] == *p);
                                assert((deref_pairs(oldp)[a]).0@ != kv);
                            }
                        }
                        assert(m0 =~= it.remaining_map().union_prefer_right(
                            pairs_to_map(deref_pairs(pairs@)),
                        ));
                    }
                },
            }
        }
    }
}

/// An owning cursor over the pairs of a map: it consumes the map and drains
/// one pair at a time from the end of each chain, chains in index order.
pub struct IntoIter<K, V> {
    buckets: Vec<Vec<(K, V)>>,
    bucket: usize,
}

impl<K: HashKey, V> IntoIter<K, V> {
    spec fn table(&self) -> Seq<Seq<(K, V)>> {
        vecs_view(self.buckets@)
    }

    /// The pairs the cursor has not yet yielded, as a map.
    pub closed spec fn remaining_map(&self) -> Map<K::V, V> {
        tbl_view(self.table())
    }

    /// The cursor's internal invariant.
    pub closed spec fn wf_into(&self) -> bool {
        &&& tbl_wf(self.table())
        &&& self.bucket <= self.table().len()
        &&& forall|j: int| 0 <= j < self.bucket ==> (#[trigger] self.table()[j]).len() == 0
        &&& self.remaining_map().dom().finite()
    }

    /// Take the map apart into an owning traversal of its pairs.
    pub fn new(map: HashMap<K, V>) -> (it: Self)
        requires
            map.wf(),
        ensures
            it.wf_into(),
            it.remaining_map() == map@,
    {
        let HashMap { buckets, items: _ } = map;
        IntoIter { buckets, bucket: 0 }
    }

    /// Remove and yield some not yet yielded pair, or nothing once the map
    /// has been drained.
    pub fn next(&mut self) -> (r: Option<(K, V)>)
        requires
            old(self).wf_into(),
        ensures
            final(self).wf_into(),
            match r {
                Some(p) => old(self).remaining_map().dom().contains(p.0@) && old(self).remaining_map()[p.0@] == p.1 && final(self).remaining_map() == old(self).remaining_map().remove(p.0@),
                None => old(self).remaining_map() == Map::<K::V, V>::empty() && final(self).remaining_map() == old(self).remaining_map(),
            },
    {
        broadcast use vstd::set::group_set_axioms;

        while self.bucket < self.buckets.len() && self.buckets[self.bucket].len() == 0
            invariant
                self.wf_into(),
                self.table() == old(self).table(),
                self.remaining_map() == old(self).remaining_map(),
                self.bucket >= old(self).bucket,
            decreases self.table().len() - self.bucket,
        {
            self.bucket = self.bucket + 1;
        }
        if self.bucket == self.buckets.len() {
            proof {
                assert forall|kv: K::V| !tbl_has_key(self.table(), kv) by {
                    if tbl_has_key(self.table(), kv) {
                        let jj = choose|jj: int|
                            0 <= jj < self.table().len() && chain_has_key(
                                #[trigger] self.table()[jj],
                                kv,
                            );
                        assert(self.table()[jj].len() == 0);
                        let ii = choose|ii: int|
                            0 <= ii < self.table()[jj].len() && (#[trigger] self.table()[jj][ii]).0@
                                == kv;
                    }
                }
                assert(self.remaining_map() =~= Map::<K::V, V>::empty());
            }
            return None;
        }
        let ghost t = self.table();
        let pair = match self.buckets[self.bucket].pop() {
            Some(p) => p,
            None => vstd::pervasive::unreached(),
        };
        proof {
            assert(self.table() =~= t.update(
                self.bucket as int,
                t[self.bucket as int].drop_last(),
            ));
            lemma_pop_pairs(t, self.table(), self.bucket as int);
            lemma_pair_value(t, pair.0@, pair.1);
            lemma_view_remove(t, self.table(), pair.0@);
        }
        Some(pair)
    }
}

impl<K: HashKey, V> IntoIter<K, V> {
    /// Drain the traversal to its end and collect everything it yields: each
    /// remaining pair exactly once, by value, with pairwise distinct keys,
    /// leaving nothing behind.
    pub fn collect_pairs(self) -> (pairs: Vec<(K, V)>)
        requires
            self.wf_into(),
        ensures
            pairs_distinct(pairs@),
            pairs_to_map(pairs@) == self.remaining_map(),
            pairs@.len() == self.remaining_map().len(),
    {
        broadcast use vstd::set::group_set_axioms;

        let ghost m0 = self.remaining_map();
        let mut it = self;
        let mut pairs: Vec<(K, V)> = Vec::new();
        loop
            invariant
                it.wf_into(),
                m0 == self.remaining_map(),
                pairs_distinct(pairs@),
                pairs_to_map(pairs@).dom().finite(),
                m0 == it.remaining_map().union_prefer_right(pairs_to_map(pairs@)),
                forall|kv: K::V|
                    !(#[trigger] it.remaining_map().dom().contains(kv) && pairs_to_map(
                        pairs@,
                    ).dom().contains(kv)),
                pairs@.len() == pairs_to_map(pairs@).len(),
            decreases it.remaining_map().len(),
        {
            let ghost coll = pairs_to_map(pairs@);
            match it.next() {
                None => {
                    proof {
                        assert(m0 =~= coll);
                    }
                    return pairs;
                },
                Some(p) => {
                    let ghost oldp = pairs@;
                    let ghost kv = p.0@;
                    pairs.push(p);
                    proof {
                        assert(pairs@.drop_last() =~= oldp);
                        assert(pairs@.last() == p);
                        assert(pairs_to_map(pairs@) == coll.insert(kv, p.1));
                        crate::laws::lemma_pairs_to_map_membership(oldp, kv);
                        assert forall|a: int, b: int|
                            0 <= a < b < pairs@.len() implies (#[trigger] pairs@[a]).0@ != (
                        #[trigger] pairs@[b]).0@ by {
                            assert(pairs@[a] == oldp[a]);
                            if b < pairs@.len() - 1 {
                                assert(pairs@[b] == oldp[b]);
                            } else {
                                assert(pairs@[b] == p);
                                assert((oldp[a]).0@ != kv);
                            }
                        }
                        assert(m0 =~= it.remaining_map().union_prefer_right(pairs_to_map(pairs@)));
                    }
                },
            }
        }
    }
}

impl<K: HashKey, V> HashMap<K, V> {
    /// A borrowing traversal over every stored pair.
    pub fn iter<'m>(&'m self) -> (it: Iter<'m, K, V>)
        requires
            self.wf(),
        ensures
            it.wf_iter(),
            it.source() == self@,
            it.remaining_map() == self@,
    {
        Iter::new(self)
    }

    /// An owning traversal that consumes the map and yields every stored
    /// pair exactly once.
    pub fn into_iter(self) -> (it: IntoIter<K, V>)
        requires
            self.wf(),
        ensures
            it.wf_into(),
            it.remaining_map() == self@,
    {
        IntoIter::new(self)
    }

    /// Build a map from a sequence of pairs, inserting them in order: a later
    /// pair overwrites an earlier one with the same key.
    pub fn from_pairs(pairs: Vec<(K, V)>) -> (m: Self)
        requires
            pairs@.len() < usize::MAX,
        ensures
            m.wf(),
            m@ == pairs_to_map(pairs@),
    {
        broadcast use vstd::set::group_set_axioms;

        let mut pairs = pairs;
        let ghost s = pairs@;
        let mut m = Self::new();
        let ghost done: int = 0;
        proof {
            assert(s.take(0) =~= Seq::<(K, V)>::empty());
        }
        while pairs.len() > 0
            invariant
                s.len() < usize::MAX,
                0 <= done <= s.len(),
                pairs@ == s.skip(done),
                m.wf(),
                m@ == pairs_to_map(s.take(done)),
                m@.len() <= done,
            decreases s.len() - done,
        {
            let p = pairs.remove(0);
            proof {
                assert(p == s[done]);
                assert(pairs@ =~= s.skip(done + 1));
            }
            m.insert(p.0, p.1);
            proof {
                assert(s.take(done + 1).drop_last() =~= s.take(done));
                assert(s.take(done + 1).last() == s[done]);
                done = done + 1;
            }
        }
        proof {
            assert(s.take(done) =~= s);
        }
        m
    }
}

impl<K: HashKey, V> core::default::Default for HashMap<K, V> {
    /// The empty map.
    fn default() -> (m: Self)
        ensures
            m@ == Map::<K::V, V>::empty(),
            m.wf(),
    {
        Self::new()
    }
}

/// The bucket index for a key against `len` buckets, or nothing when there
/// are no buckets to choose from.
pub fn compute_hash<K: HashKey>(value: &K, len: usize) -> (r: Option<usize>)
    ensures
        match r {
            Some(i) => len > 0 && i == spec_bucket_of(K::hash_of(value@), len as int),
            None => len == 0,
        },
{
    if len == 0 {
        None
    } else {
        Some(compute_hash_unchecked(value, len))
    }
}

/// The bucket index a probe selects against `len` buckets; the table must
/// not be empty.
fn probe_bucket<K: HashKey, Q: Probe<K>>(value: &Q, len: usize) -> (i: usize)
    requires
        len > 0,
    ensures
        i == spec_bucket_of(K::hash_of(value@), len as int),
        i < len,
{
    let h = value.probe_hash();
    (h % (len as u64)) as usize
}

/// The bucket index for a key against `len` buckets; the table must not be
/// empty.
pub fn compute_hash_unchecked<K: HashKey>(value: &K, len: usize) -> (i: usize)
    requires
        len > 0,
    ensures
        i == spec_bucket_of(K::hash_of(value@), len as int),
        i < len,
{
    let h = value.hash_key();
    (h % (len as u64)) as usize
}

} // verus!
