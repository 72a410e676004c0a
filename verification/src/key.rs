//! Keys of the map: a hash code and an equality decision, both pinned to the
//! key's abstract value, so that the table's placement of a pair is a function
//! of the key alone.

use vstd::prelude::*;

verus! {

use std::collections::hash_map::DefaultHasher;
use std::hash::Hasher;
use vstd::std_specs::hash::DefaultHasherAdditionalSpecFns;

/// A type usable as a map key.
///
/// A key has an abstract value (its [`View`]), a hash code that is a function
/// of that abstract value alone, and an executable equality test that decides
/// equality of abstract values. The hash code is computed with the standard
/// library's default hasher; only its determinism matters for the map's
/// correctness, never the particular value.
pub trait HashKey: View + Sized {
    /// The hash code of a key, as a function of its abstract value.
    spec fn hash_of(v: Self::V) -> u64;

    /// Compute the hash code of this key.
    fn hash_key(&self) -> (h: u64)
        ensures
            h == Self::hash_of(self@),
    ;

    /// Decide whether two keys have equal abstract values.
    fn key_eq(&self, other: &Self) -> (b: bool)
        ensures
            b == (self@ == other@),
    ;
}

/// Feed one byte string to a fresh default hasher and return its digest.
fn hash_one_shot(bytes: &[u8]) -> (h: u64)
    ensures
        h == DefaultHasher::spec_finish(seq![bytes@]),
{
    let mut hasher = DefaultHasher::new();
    hasher.write(bytes);
    proof {
        assert(hasher@ =~= seq![bytes@]);
    }
    hasher.finish()
}

impl HashKey for u64 {
    open spec fn hash_of(v: u64) -> u64 {
        DefaultHasher::spec_finish(seq![vstd::bytes::spec_u64_to_le_bytes(v)])
    }

    fn hash_key(&self) -> (h: u64) {
        let bytes = vstd::bytes::u64_to_le_bytes(*self);
        hash_one_shot(bytes.as_slice())
    }

    fn key_eq(&self, other: &Self) -> (b: bool) {
        *self == *other
    }
}

impl HashKey for usize {
    open spec fn hash_of(v: usize) -> u64 {
        DefaultHasher::spec_finish(seq![vstd::bytes::spec_u64_to_le_bytes(v as u64)])
    }

    fn hash_key(&self) -> (h: u64) {
        let bytes = vstd::bytes::u64_to_le_bytes(*self as u64);
        hash_one_shot(bytes.as_slice())
    }

    fn key_eq(&self, other: &Self) -> (b: bool) {
        *self == *other
    }
}

impl HashKey for char {
    open spec fn hash_of(v: char) -> u64 {
        DefaultHasher::spec_finish(seq![vstd::bytes::spec_u32_to_le_bytes(v as u32)])
    }

    fn hash_key(&self) -> (h: u64) {
        let bytes = vstd::bytes::u32_to_le_bytes(*self as u32);
        hash_one_shot(bytes.as_slice())
    }

    fn key_eq(&self, other: &Self) -> (b: bool) {
        *self == *other
    }
}

/// Compare two byte strings for equality of contents.
fn bytes_eq(a: &[u8], b: &[u8]) -> (r: bool)
    ensures
        r == (a@ == b@),
{
    if a.len() != b.len() {
        return false;
    }
    let mut i: usize = 0;
    while i < a.len()
        invariant
            a@.len() == b@.len(),
            0 <= i <= a@.len(),
            forall|p: int| 0 <= p < i ==> a@[p] == b@[p],
        decreases a@.len() - i,
    {
        if a[i] != b[i] {
            return false;
        }
        i += 1;
    }
    proof {
        assert(a@ =~= b@);
    }
    true
}

/// Equal byte encodings come only from equal character sequences.
proof fn lemma_utf8_injective(a: Seq<char>, b: Seq<char>)
    requires
        vstd::utf8::encode_utf8(a) == vstd::utf8::encode_utf8(b),
    ensures
        a == b,
{
    vstd::utf8::encode_utf8_decode_utf8(a);
    vstd::utf8::encode_utf8_decode_utf8(b);
}

impl<'s> HashKey for &'s str {
    open spec fn hash_of(v: Seq<char>) -> u64 {
        DefaultHasher::spec_finish(seq![vstd::utf8::encode_utf8(v)])
    }

    fn hash_key(&self) -> (h: u64) {
        hash_one_shot(self.as_bytes())
    }

    fn key_eq(&self, other: &Self) -> (b: bool) {
        let r = bytes_eq(self.as_bytes(), other.as_bytes());
        proof {
            if vstd::utf8::encode_utf8(self@) == vstd::utf8::encode_utf8(other@) {
                lemma_utf8_injective(self@, other@);
            }
        }
        r
    }
}

/// A probe for looking up keys of type `K` without materializing one: it has
/// the same kind of abstract value as the key, hashes exactly as the key type
/// does, and decides equality of abstract values against a stored key.
pub trait Probe<K: HashKey>: View<V = <K as View>::V> + Sized {
    /// Compute the probe's hash code, which agrees with the key type's.
    fn probe_hash(&self) -> (h: u64)
        ensures
            h == K::hash_of(self@),
    ;

    /// Decide whether the probe's abstract value equals the stored key's.
    fn probe_eq(&self, key: &K) -> (b: bool)
        ensures
            b == (self@ == key@),
    ;
}

/// Every key type probes a map keyed by itself.
impl<K: HashKey> Probe<K> for K {
    fn probe_hash(&self) -> (h: u64) {
        self.hash_key()
    }

    fn probe_eq(&self, key: &K) -> (b: bool) {
        self.key_eq(key)
    }
}

/// A borrowed string probes a map with owned string keys.
impl<'s> Probe<String> for &'s str {
    fn probe_hash(&self) -> (h: u64) {
        hash_one_shot(self.as_bytes())
    }

    fn probe_eq(&self, key: &String) -> (b: bool) {
        let r = bytes_eq(self.as_bytes(), key.as_str().as_bytes());
        proof {
            if vstd::utf8::encode_utf8(self@) == vstd::utf8::encode_utf8(key@) {
                lemma_utf8_injective(self@, key@);
            }
        }
        r
    }
}

impl HashKey for String {
    open spec fn hash_of(v: Seq<char>) -> u64 {
        DefaultHasher::spec_finish(seq![vstd::utf8::encode_utf8(v)])
    }

    fn hash_key(&self) -> (h: u64) {
        hash_one_shot(self.as_str().as_bytes())
    }

    fn key_eq(&self, other: &Self) -> (b: bool) {
        let r = bytes_eq(self.as_str().as_bytes(), other.as_str().as_bytes());
        proof {
            if vstd::utf8::encode_utf8(self@) == vstd::utf8::encode_utf8(other@) {
                lemma_utf8_injective(self@, other@);
            }
        }
        r
    }
}

} // verus!
