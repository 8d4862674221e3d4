//! The native, owned map that archives are made from and rebuilt into.
//! It is a `hashbrown::HashMap`, whose contents are named for the proofs.
use vstd::prelude::*;

verus! {

/// A native hash map from string keys to `i32` values.
#[verifier::external_body]
pub struct SourceMap {
    pub inner: hashbrown::HashMap<String, i32>,
}

/// The key/value pairs that a source map holds.
pub uninterp spec fn source_entries(m: SourceMap) -> Map<Seq<char>, i32>;

/// A map with no keys.
pub open spec fn no_entries(m: Map<Seq<char>, i32>) -> bool {
    m == Map::<Seq<char>, i32>::empty()
}

/// A map with finitely many keys, `n` of them.
pub open spec fn finite_with_len(m: Map<Seq<char>, i32>, n: int) -> bool {
    m.dom().finite() && m.len() == n
}

impl View for SourceMap {
    type V = Map<Seq<char>, i32>;

    open spec fn view(&self) -> Map<Seq<char>, i32> {
        source_entries(*self)
    }
}

impl SourceMap {
    /// Relies on hashbrown::HashMap::with_capacity: a fresh map holds nothing.
    /// It panics when the table's layout would pass `isize::MAX` bytes, which
    /// at most 2^30 pairs of 32 bytes stay clear of on a 64-bit target.
    #[verifier::external_body]
    pub fn with_capacity(capacity: usize) -> (r: SourceMap)
        requires
            capacity <= 0x4000_0000,
        ensures
            no_entries(source_entries(r)),
    {
        SourceMap { inner: hashbrown::HashMap::with_capacity(capacity) }
    }

    /// An empty map.
    pub fn new() -> (r: SourceMap)
        ensures
            no_entries(r@),
    {
        SourceMap::with_capacity(0)
    }

    /// Relies on hashbrown::HashMap::insert: the key now maps to the value,
    /// and every other key is unchanged.
    #[verifier::external_body]
    pub fn insert(&mut self, k: String, v: i32)
        ensures
            source_entries(*final(self)) == source_entries(*old(self)).insert(k@, v),
    {
        self.inner.insert(k, v);
    }

    /// Relies on hashbrown::HashMap::len: the number of keys held, which are
    /// finitely many.
    #[verifier::external_body]
    pub fn len(&self) -> (r: usize)
        ensures
            finite_with_len(source_entries(*self), r as int),
    {
        self.inner.len()
    }

    /// Relies on hashbrown::HashMap::get: the value stored under the key.
    #[verifier::external_body]
    pub fn get(&self, k: &str) -> (r: Option<i32>)
        ensures
            r == (if source_entries(*self).contains_key(k@) {
                Some(source_entries(*self)[k@])
            } else {
                None
            }),
    {
        self.inner.get(k).copied()
    }

    /// Relies on hashbrown::HashMap::iter: every pair exactly once, in an
    /// order that the map's hasher decides.
    #[verifier::external_body]
    pub fn to_pairs(&self) -> (r: Vec<(String, i32)>)
        ensures
            finite_with_len(source_entries(*self), r@.len() as int),
            forall|i: int, j: int|
                0 <= i < j < r@.len() ==> r@[i].0@ != r@[j].0@,
            forall|i: int|
                0 <= i < r@.len() ==> #[trigger] source_entries(*self).contains_key(r@[i].0@)
                    && source_entries(*self)[r@[i].0@] == r@[i].1,
            forall|k: Seq<char>|
                #[trigger] source_entries(*self).contains_key(k) ==> exists|i: int|
                    0 <= i < r@.len() && r@[i].0@ == k,
    {
        self.inner.iter().map(|(k, v)| (k.clone(), *v)).collect()
    }
}

} // verus!
