//! The in-memory store: a map from key bytes to value bytes, plus a
//! content-addressed map from a cryptographic digest to its preimage.
//!
//! Both maps are kept as association vectors with pairwise-distinct keys and
//! are specified through their [`Map`] views.  Typed accessors encode and
//! decode the fixed scalar encodings of [`StoreValue`].

use crate::codec::{
    spec_u32_to_be_bytes, spec_u64_from_be_bytes, spec_u64_to_be_bytes, u32_from_be_bytes,
    u32_to_be_bytes, u64_from_be_bytes, u64_to_be_bytes,
};
use crate::rollup_core;
use vstd::prelude::*;

verus! {

// ------------------------------------------------------------------
// Typed store values
// ------------------------------------------------------------------

/// A value with a fixed byte encoding, as the host keeps it in its store.
pub trait StoreValue: Sized {
    /// The byte encoding of this value.
    spec fn spec_encode(&self) -> Seq<u8>;

    /// Whether `b` encodes some value of this type.
    spec fn is_encoding(b: Seq<u8>) -> bool;

    /// An encoded value is a valid encoding.
    proof fn lemma_encode_is_encoding(&self)
        ensures
            Self::is_encoding(self.spec_encode()),
    ;

    /// Renders the value as bytes.
    fn to_bytes(self) -> (r: Vec<u8>)
        ensures
            r@ == self.spec_encode(),
    ;

    /// Reads a value back from its encoding.
    fn from_bytes(bytes: &[u8]) -> (r: Self)
        requires
            Self::is_encoding(bytes@),
        ensures
            r.spec_encode() == bytes@,
    ;
}

impl StoreValue for Vec<u8> {
    open spec fn spec_encode(&self) -> Seq<u8> {
        self@
    }

    open spec fn is_encoding(b: Seq<u8>) -> bool {
        true
    }

    proof fn lemma_encode_is_encoding(&self) {
    }

    fn to_bytes(self) -> (r: Vec<u8>) {
        self
    }

    fn from_bytes(bytes: &[u8]) -> (r: Self) {
        vstd::slice::slice_to_vec(bytes)
    }
}

impl StoreValue for bool {
    open spec fn spec_encode(&self) -> Seq<u8> {
        if *self {
            seq![116u8]
        } else {
            seq![102u8]
        }
    }

    open spec fn is_encoding(b: Seq<u8>) -> bool {
        b == seq![116u8] || b == seq![102u8]
    }

    proof fn lemma_encode_is_encoding(&self) {
    }

    fn to_bytes(self) -> (r: Vec<u8>) {
        let mut v: Vec<u8> = Vec::new();
        if self {
            v.push(116);
        } else {
            v.push(102);
        }
        proof {
            assert(v@ =~= self.spec_encode());
        }
        v
    }

    fn from_bytes(bytes: &[u8]) -> (r: Self) {
        let r = bytes[0] == 116;
        proof {
            assert(r.spec_encode() =~= bytes@);
        }
        r
    }
}

impl StoreValue for u8 {
    open spec fn spec_encode(&self) -> Seq<u8> {
        seq![*self]
    }

    open spec fn is_encoding(b: Seq<u8>) -> bool {
        b.len() == 1
    }

    proof fn lemma_encode_is_encoding(&self) {
    }

    fn to_bytes(self) -> (r: Vec<u8>) {
        let mut v: Vec<u8> = Vec::new();
        v.push(self);
        proof {
            assert(v@ =~= self.spec_encode());
        }
        v
    }

    fn from_bytes(bytes: &[u8]) -> (r: Self) {
        let r = bytes[0];
        proof {
            assert(r.spec_encode() =~= bytes@);
        }
        r
    }
}

impl StoreValue for u32 {
    open spec fn spec_encode(&self) -> Seq<u8> {
        spec_u32_to_be_bytes(*self)
    }

    open spec fn is_encoding(b: Seq<u8>) -> bool {
        b.len() == 4
    }

    proof fn lemma_encode_is_encoding(&self) {
    }

    fn to_bytes(self) -> (r: Vec<u8>) {
        u32_to_be_bytes(self)
    }

    fn from_bytes(bytes: &[u8]) -> (r: Self) {
        let r = u32_from_be_bytes(bytes);
        proof {
            crate::codec::lemma_u32_be_bytes_complete(bytes@);
        }
        r
    }
}

impl StoreValue for i32 {
    open spec fn spec_encode(&self) -> Seq<u8> {
        spec_u32_to_be_bytes(*self as u32)
    }

    open spec fn is_encoding(b: Seq<u8>) -> bool {
        b.len() == 4
    }

    proof fn lemma_encode_is_encoding(&self) {
    }

    fn to_bytes(self) -> (r: Vec<u8>) {
        u32_to_be_bytes(self as u32)
    }

    fn from_bytes(bytes: &[u8]) -> (r: Self) {
        let w = u32_from_be_bytes(bytes);
        let r = w as i32;
        proof {
            crate::codec::lemma_u32_be_bytes_complete(bytes@);
            assert((w as i32) as u32 == w) by (bit_vector);
        }
        r
    }
}

impl StoreValue for usize {
    open spec fn spec_encode(&self) -> Seq<u8> {
        spec_u64_to_be_bytes(*self as u64)
    }

    open spec fn is_encoding(b: Seq<u8>) -> bool {
        b.len() == 8 && spec_u64_from_be_bytes(b) <= usize::MAX as u64
    }

    proof fn lemma_encode_is_encoding(&self) {
        crate::codec::lemma_u64_be_bytes_roundtrip(*self as u64);
    }

    fn to_bytes(self) -> (r: Vec<u8>) {
        u64_to_be_bytes(self as u64)
    }

    fn from_bytes(bytes: &[u8]) -> (r: Self) {
        let w = u64_from_be_bytes(bytes);
        let r = if w <= usize::MAX as u64 {
            w as usize
        } else {
            0
        };
        proof {
            crate::codec::lemma_u64_be_bytes_complete(bytes@);
        }
        r
    }
}

impl StoreValue for rollup_core::Input {
    open spec fn spec_encode(&self) -> Seq<u8> {
        match *self {
            rollup_core::Input::MessageData => seq![104u8],
            rollup_core::Input::SlotDataChunk => seq![115u8],
        }
    }

    open spec fn is_encoding(b: Seq<u8>) -> bool {
        b == seq![104u8] || b == seq![115u8]
    }

    proof fn lemma_encode_is_encoding(&self) {
    }

    fn to_bytes(self) -> (r: Vec<u8>) {
        let mut v: Vec<u8> = Vec::new();
        match self {
            rollup_core::Input::MessageData => v.push(104),
            rollup_core::Input::SlotDataChunk => v.push(115),
        }
        proof {
            assert(v@ =~= self.spec_encode());
        }
        v
    }

    fn from_bytes(bytes: &[u8]) -> (r: Self) {
        let r = if bytes[0] == 104 {
            rollup_core::Input::MessageData
        } else {
            rollup_core::Input::SlotDataChunk
        };
        proof {
            assert(r.spec_encode() =~= bytes@);
        }
        r
    }
}

// ------------------------------------------------------------------
// Association vectors as maps
// ------------------------------------------------------------------

/// The map denoted by an association vector; a later entry for the same key
/// overrides an earlier one.
pub open spec fn assoc_map(s: Seq<(Vec<u8>, Vec<u8>)>) -> Map<Seq<u8>, Seq<u8>>
    decreases s.len(),
{
    if s.len() == 0 {
        Map::empty()
    } else {
        assoc_map(s.drop_last()).insert(s.last().0@, s.last().1@)
    }
}

/// Whether the keys of an association vector are pairwise distinct.
pub open spec fn keys_distinct(s: Seq<(Vec<u8>, Vec<u8>)>) -> bool {
    forall|i: int, j: int| 0 <= i < j < s.len() ==> (#[trigger] s[i]).0@ != (#[trigger] s[j]).0@
}

proof fn lemma_assoc_contains(s: Seq<(Vec<u8>, Vec<u8>)>, k: Seq<u8>)
    ensures
        assoc_map(s).contains_key(k) <==> exists|i: int| 0 <= i < s.len() && (#[trigger] s[i]).0@
            == k,
    decreases s.len(),
{
    if s.len() > 0 {
        lemma_assoc_contains(s.drop_last(), k);
        if assoc_map(s).contains_key(k) {
            if s.last().0@ == k {
                assert((s[s.len() - 1]).0@ == k);
            } else {
                let i = choose|i: int| 0 <= i < s.len() - 1 && (#[trigger] s.drop_last()[i]).0@
                    == k;
                assert((s[i]).0@ == k);
            }
        }
        if exists|i: int| 0 <= i < s.len() && (#[trigger] s[i]).0@ == k {
            let i = choose|i: int| 0 <= i < s.len() && (#[trigger] s[i]).0@ == k;
            if i < s.len() - 1 {
                assert((s.drop_last()[i]).0@ == k);
            }
        }
    }
}

proof fn lemma_assoc_get(s: Seq<(Vec<u8>, Vec<u8>)>, i: int)
    requires
        keys_distinct(s),
        0 <= i < s.len(),
    ensures
        assoc_map(s).contains_key(s[i].0@),
        assoc_map(s)[s[i].0@] == s[i].1@,
    decreases s.len(),
{
    if i == s.len() - 1 {
    } else {
        lemma_assoc_get(s.drop_last(), i);
        assert(s.drop_last()[i] == s[i]);
        assert(s[i].0@ != s.last().0@);
    }
}

proof fn lemma_assoc_remove(s: Seq<(Vec<u8>, Vec<u8>)>, i: int)
    requires
        keys_distinct(s),
        0 <= i < s.len(),
    ensures
        assoc_map(s.remove(i)) =~= assoc_map(s).remove(s[i].0@),
        keys_distinct(s.remove(i)),
    decreases s.len(),
{
    lemma_assoc_contains(s, s[i].0@);
    assert forall|a: int, b: int| 0 <= a < b < s.remove(i).len() implies (#[trigger] s.remove(
        i,
    )[a]).0@ != (#[trigger] s.remove(i)[b]).0@ by {
        let a0 = if a < i {
            a
        } else {
            a + 1
        };
        let b0 = if b < i {
            b
        } else {
            b + 1
        };
        assert(s.remove(i)[a] == s[a0] && s.remove(i)[b] == s[b0]);
    }
    if i == s.len() - 1 {
        assert(s.remove(i) =~= s.drop_last());
        lemma_assoc_contains(s.drop_last(), s[i].0@);
        assert(!assoc_map(s.drop_last()).contains_key(s[i].0@));
    } else {
        lemma_assoc_remove(s.drop_last(), i);
        assert(s.remove(i).drop_last() =~= s.drop_last().remove(i));
        assert(s.remove(i).last() == s.last());
        assert(s[i].0@ != s.last().0@);
    }
}

// ------------------------------------------------------------------
// The trusted digest
// ------------------------------------------------------------------

/// The 32-byte Blake2b digest of a byte sequence, as the outside hashing
/// routine computes it.
pub uninterp spec fn digest_of(data: Seq<u8>) -> Seq<u8>;

/// Relies on `tezos_crypto_rs::blake2b::digest_256`: the 256-bit (32-byte)
/// Blake2b digest of the input, a function of the input bytes alone.
#[verifier::external_body]
fn blake2b_digest_256(data: &Vec<u8>) -> (r: Vec<u8>)
    ensures
        r@ == digest_of(data@),
        r@.len() == 32,
{
    tezos_crypto_rs::blake2b::digest_256(data.as_slice())
}

// ------------------------------------------------------------------
// The store itself
// ------------------------------------------------------------------

/// Compares two byte slices for equality.
pub fn bytes_eq(a: &[u8], b: &[u8]) -> (r: bool)
    ensures
        r == (a@ == b@),
{
    if a.len() != b.len() {
        return false;
    }
    let n = a.len();
    let mut i: usize = 0;
    while i < n
        invariant
            0 <= i <= n,
            n == a@.len() == b@.len(),
            forall|j: int| 0 <= j < i ==> a@[j] == b@[j],
        decreases n - i,
    {
        if a[i] != b[i] {
            return false;
        }
        i = i + 1;
    }
    proof {
        assert(a@ =~= b@);
    }
    true
}

/// Finds the entry index of `key` in an association vector, if present.
fn assoc_lookup(entries: &Vec<(Vec<u8>, Vec<u8>)>, key: &[u8]) -> (r: Option<usize>)
    ensures
        match r {
            Some(i) => i < entries@.len() && entries@[i as int].0@ == key@ && assoc_map(
                entries@,
            ).contains_key(key@),
            None => !assoc_map(entries@).contains_key(key@),
        },
{
    proof {
        lemma_assoc_contains(entries@, key@);
    }
    let n = entries.len();
    let mut i: usize = 0;
    while i < n
        invariant
            0 <= i <= n,
            n == entries@.len(),
            forall|j: int| 0 <= j < i ==> (#[trigger] entries@[j]).0@ != key@,
        decreases n - i,
    {
        if bytes_eq(entries[i].0.as_slice(), key) {
            proof {
                lemma_assoc_contains(entries@, key@);
            }
            return Some(i);
        }
        i = i + 1;
    }
    None
}

/// The container of host state: key-value entries plus stored preimages.
#[derive(Debug, Clone, PartialEq, Eq)]
pub struct Store {
    inner: Vec<(Vec<u8>, Vec<u8>)>,
    preimages: Vec<(Vec<u8>, Vec<u8>)>,
}

impl View for Store {
    type V = Map<Seq<u8>, Seq<u8>>;

    closed spec fn view(&self) -> Map<Seq<u8>, Seq<u8>> {
        assoc_map(self.inner@)
    }
}

impl Default for Store {
    /// An empty store.
    fn default() -> (r: Store)
        ensures
            r.wf(),
            r@ == Map::<Seq<u8>, Seq<u8>>::empty(),
            r.preimages() == Map::<Seq<u8>, Seq<u8>>::empty(),
    {
        Store { inner: Vec::new(), preimages: Vec::new() }
    }
}

impl Store {
    /// The stored preimages, keyed by their digest.
    pub closed spec fn preimages(&self) -> Map<Seq<u8>, Seq<u8>> {
        assoc_map(self.preimages@)
    }

    /// Well-formedness: both association vectors have distinct keys.
    pub closed spec fn wf(&self) -> bool {
        keys_distinct(self.inner@) && keys_distinct(self.preimages@)
    }

    /// Finds the entry index of `path`, if present.
    fn lookup_index(&self, path: &[u8]) -> (r: Option<usize>)
        ensures
            match r {
                Some(i) => i < self.inner@.len() && self.inner@[i as int].0@ == path@
                    && self@.contains_key(path@),
                None => !self@.contains_key(path@),
            },
    {
        assoc_lookup(&self.inner, path)
    }

    /// Whether the store holds an entry at `path`.
    pub fn has_entry(&self, path: &[u8]) -> (r: bool)
        ensures
            r == self@.contains_key(path@),
    {
        self.lookup_index(path).is_some()
    }

    /// Returns the value at `path` decoded as a `T`, or `None` when the path
    /// is absent.  A present value must carry a valid `T` encoding: anything
    /// else is a host-side inconsistency.
    pub fn maybe_get_value<T: StoreValue>(&self, path: &[u8]) -> (r: Option<T>)
        requires
            self.wf(),
            self@.contains_key(path@) ==> T::is_encoding(self@[path@]),
        ensures
            match r {
                Some(v) => self@.contains_key(path@) && v.spec_encode() == self@[path@],
                None => !self@.contains_key(path@),
            },
    {
        match self.lookup_index(path) {
            Some(i) => {
                proof {
                    lemma_assoc_get(self.inner@, i as int);
                }
                Some(T::from_bytes(self.inner[i].1.as_slice()))
            },
            None => None,
        }
    }

    /// Returns the value at `path` decoded as a `T`.  The path must exist
    /// and carry a valid `T` encoding: anything else is a host-side
    /// inconsistency.
    pub fn get_value<T: StoreValue>(&self, path: &[u8]) -> (r: T)
        requires
            self.wf(),
            self@.contains_key(path@),
            T::is_encoding(self@[path@]),
        ensures
            r.spec_encode() == self@[path@],
    {
        self.maybe_get_value::<T>(path).unwrap()
    }

    /// Sets `path` to the encoding of `value`, replacing any previous entry.
    pub fn set_value<T: StoreValue>(&mut self, path: &[u8], value: T)
        requires
            old(self).wf(),
        ensures
            final(self).wf(),
            final(self)@ == old(self)@.insert(path@, value.spec_encode()),
            final(self).preimages() == old(self).preimages(),
    {
        let bytes = value.to_bytes();
        let ghost s0 = self.inner@;
        match self.lookup_index(path) {
            Some(i) => {
                proof {
                    lemma_assoc_remove(s0, i as int);
                }
                let pair = self.inner.remove(i);
                self.inner.push((pair.0, bytes));
                proof {
                    let s1 = s0.remove(i as int);
                    assert(self.inner@ =~= s1.push((pair.0, bytes)));
                    assert(self.inner@.drop_last() =~= s1);
                    assert(assoc_map(self.inner@) =~= assoc_map(s0).insert(
                        path@,
                        value.spec_encode(),
                    ));
                    assert forall|a: int, b: int|
                        0 <= a < b < self.inner@.len() implies (#[trigger] self.inner@[a]).0@ != (
                    #[trigger] self.inner@[b]).0@ by {
                        if b < self.inner@.len() - 1 {
                            assert(self.inner@[a] == s1[a] && self.inner@[b] == s1[b]);
                        } else {
                            assert(self.inner@[a] == s1[a]);
                            lemma_assoc_contains(s1, path@);
                        }
                    }
                }
            },
            None => {
                self.inner.push((vstd::slice::slice_to_vec(path), bytes));
                proof {
                    assert(self.inner@.drop_last() =~= s0);
                    assert(assoc_map(self.inner@) =~= assoc_map(s0).insert(
                        path@,
                        value.spec_encode(),
                    ));
                    lemma_assoc_contains(s0, path@);
                    assert forall|a: int, b: int|
                        0 <= a < b < self.inner@.len() implies (#[trigger] self.inner@[a]).0@ != (
                    #[trigger] self.inner@[b]).0@ by {
                        if b < self.inner@.len() - 1 {
                            assert(self.inner@[a] == s0[a] && self.inner@[b] == s0[b]);
                        } else {
                            assert(self.inner@[a] == s0[a]);
                        }
                    }
                }
            },
        }
    }

    /// Reads the value at `path` as a `T`, applies `update_fn` and stores
    /// the result back.  The path must exist and carry a valid `T` encoding.
    pub fn update_value<T: StoreValue, F: Fn(T) -> T>(&mut self, path: &[u8], update_fn: F)
        requires
            old(self).wf(),
            old(self)@.contains_key(path@),
            T::is_encoding(old(self)@[path@]),
            forall|v: T| v.spec_encode() == old(self)@[path@] ==> update_fn.requires((v,)),
        ensures
            final(self).wf(),
            final(self).preimages() == old(self).preimages(),
            exists|v: T, r: T|
                v.spec_encode() == old(self)@[path@] && update_fn.ensures((v,), r)
                    && final(self)@ == old(self)@.insert(path@, r.spec_encode()),
    {
        let v = self.get_value::<T>(path);
        let r = update_fn(v);
        self.set_value(path, r);

    }

    /// Removes the entry at `path`, which must exist; deleting an absent
    /// path is a host-side inconsistency.
    pub fn delete_value(&mut self, path: &[u8])
        requires
            old(self).wf(),
            old(self)@.contains_key(path@),
        ensures
            final(self).wf(),
            final(self)@ == old(self)@.remove(path@),
            final(self).preimages() == old(self).preimages(),
    {
        let ghost s0 = self.inner@;
        match self.lookup_index(path) {
            Some(i) => {
                proof {
                    lemma_assoc_remove(s0, i as int);
                }
                let _ = self.inner.remove(i);
            },
            None => {
                proof {
                    assert(false);
                }
            },
        }
    }

    /// Lists every key of the store, in storage order.
    pub fn list_paths(&self) -> (r: Vec<Vec<u8>>)
        requires
            self.wf(),
        ensures
            forall|i: int| 0 <= i < r@.len() ==> self@.contains_key((#[trigger] r@[i])@),
            forall|k: Seq<u8>|
                self@.contains_key(k) ==> exists|i: int| 0 <= i < r@.len() && (#[trigger] r@[i])@
                    == k,
            forall|i: int, j: int| 0 <= i < j < r@.len() ==> (#[trigger] r@[i])@ != (
            #[trigger] r@[j])@,
    {
        let n = self.inner.len();
        let mut r: Vec<Vec<u8>> = Vec::new();
        let mut i: usize = 0;
        while i < n
            invariant
                0 <= i <= n,
                n == self.inner@.len(),
                r@.len() == i,
                forall|j: int| 0 <= j < i ==> (#[trigger] r@[j])@ == self.inner@[j].0@,
            decreases n - i,
        {
            r.push(vstd::slice::slice_to_vec(self.inner[i].0.as_slice()));
            i = i + 1;
        }
        proof {
            assert forall|i2: int| 0 <= i2 < r@.len() implies self@.contains_key(
                (#[trigger] r@[i2])@,
            ) by {
                lemma_assoc_get(self.inner@, i2);
            }
            assert forall|k: Seq<u8>| self@.contains_key(k) implies exists|i2: int|
                0 <= i2 < r@.len() && (#[trigger] r@[i2])@ == k by {
                lemma_assoc_contains(self.inner@, k);
                let i2 = choose|i2: int| 0 <= i2 < self.inner@.len() && (#[trigger] self.inner@[i2]).0@
                    == k;
                assert((r@[i2])@ == k);
            }
        }
        r
    }

    /// Stores `preimage` under its digest and returns the digest.  Preimages
    /// are limited to 4096 bytes.
    pub fn add_preimage(&mut self, preimage: Vec<u8>) -> (r: Vec<u8>)
        requires
            old(self).wf(),
            preimage@.len() <= 4096,
        ensures
            final(self).wf(),
            r@ == digest_of(preimage@),
            r@.len() == 32,
            final(self).preimages() == old(self).preimages().insert(r@, preimage@),
            final(self)@ == old(self)@,
    {
        let hash = blake2b_digest_256(&preimage);
        let ghost s0 = self.preimages@;
        let found = assoc_lookup(&self.preimages, hash.as_slice());
        match found {
            Some(fi) => {
                proof {
                    lemma_assoc_remove(s0, fi as int);
                }
                let pair = self.preimages.remove(fi);
                self.preimages.push((pair.0, preimage));
                proof {
                    let s1 = s0.remove(fi as int);
                    assert(self.preimages@.drop_last() =~= s1);
                    assert(assoc_map(self.preimages@) =~= assoc_map(s0).insert(hash@, preimage@));
                    assert forall|a: int, b: int|
                        0 <= a < b < self.preimages@.len() implies (
                    #[trigger] self.preimages@[a]).0@ != (#[trigger] self.preimages@[b]).0@ by {
                        if b < self.preimages@.len() - 1 {
                            assert(self.preimages@[a] == s1[a] && self.preimages@[b] == s1[b]);
                        } else {
                            assert(self.preimages@[a] == s1[a]);
                            lemma_assoc_contains(s1, hash@);
                        }
                    }
                }
            },
            None => {
                let key = vstd::slice::slice_to_vec(hash.as_slice());
                self.preimages.push((key, preimage));
                proof {
                    assert(self.preimages@.drop_last() =~= s0);
                    assert(assoc_map(self.preimages@) =~= assoc_map(s0).insert(hash@, preimage@));
                    lemma_assoc_contains(s0, hash@);
                    assert forall|a: int, b: int|
                        0 <= a < b < self.preimages@.len() implies (
                    #[trigger] self.preimages@[a]).0@ != (#[trigger] self.preimages@[b]).0@ by {
                        if b < self.preimages@.len() - 1 {
                            assert(self.preimages@[a] == s0[a] && self.preimages@[b] == s0[b]);
                        } else {
                            assert(self.preimages@[a] == s0[a]);
                        }
                    }
                }
            },
        }
        hash
    }

    /// Whether a preimage is stored under `hash`.
    pub fn has_preimage(&self, hash: &[u8]) -> (r: bool)
        ensures
            r == self.preimages().contains_key(hash@),
    {
        assoc_lookup(&self.preimages, hash).is_some()
    }

    /// Returns the preimage previously stored under `hash`; asking for an
    /// unknown digest is a host-side inconsistency.
    pub fn retrieve_preimage(&self, hash: &[u8]) -> (r: Vec<u8>)
        requires
            self.wf(),
            self.preimages().contains_key(hash@),
        ensures
            r@ == self.preimages()[hash@],
    {
        proof {
            lemma_assoc_contains(self.preimages@, hash@);
        }
        let n = self.preimages.len();
        let mut i: usize = 0;
        while i < n
            invariant
                0 <= i <= n,
                n == self.preimages@.len(),
                self.wf(),
                self.preimages().contains_key(hash@),
                forall|j: int| 0 <= j < i ==> (#[trigger] self.preimages@[j]).0@ != hash@,
            decreases n - i,
        {
            if bytes_eq(self.preimages[i].0.as_slice(), hash) {
                proof {
                    lemma_assoc_get(self.preimages@, i as int);
                }
                return vstd::slice::slice_to_vec(self.preimages[i].1.as_slice());
            }
            i = i + 1;
        }
        proof {
            lemma_assoc_contains(self.preimages@, hash@);
            assert(false);
        }
        Vec::new()
    }
}

} // verus!
