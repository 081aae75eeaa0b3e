use vstd::prelude::*;

verus! {

/// The durable path → bytes mapping holding every committed file.
///
/// Relies on ic_stable_structures::StableBTreeMap over its default memory
/// implementation; the structure is opaque here and is reasoned about only
/// through [`blob_map`] and the method contracts below.
#[verifier::external_body]
pub struct BlobStore {
    inner: ic_stable_structures::StableBTreeMap<
        String,
        Vec<u8>,
        ic_stable_structures::DefaultMemoryImpl,
    >,
}

/// The contents of a [`BlobStore`] as a mathematical map.
pub type BlobMap = Map<Seq<char>, Seq<u8>>;

/// The mathematical contents of a [`BlobStore`]: which paths hold which bytes.
pub uninterp spec fn blob_map(store: BlobStore) -> BlobMap;

impl BlobStore {
    /// Relies on StableBTreeMap::new: a map over a fresh memory region holds
    /// no entries.
    #[verifier::external_body]
    pub fn new() -> (store: BlobStore)
        ensures
            blob_map(store) == BlobMap::empty(),
    {
        BlobStore {
            inner: ic_stable_structures::StableBTreeMap::new(
                ic_stable_structures::DefaultMemoryImpl::default(),
            ),
        }
    }

    /// Relies on StableBTreeMap::insert: the entry for the key is created or
    /// replaced, every other entry is untouched.
    #[verifier::external_body]
    pub fn insert(&mut self, path: String, data: Vec<u8>)
        ensures
            blob_map(*final(self)) == blob_map(*old(self)).insert(path@, data@),
    {
        self.inner.insert(path, data);
    }

    /// Relies on StableBTreeMap::get: the bytes stored under the key are
    /// returned, or nothing when the key is absent.
    #[verifier::external_body]
    pub fn get(&self, path: &String) -> (r: Option<Vec<u8>>)
        ensures
            match r {
                Some(data) => blob_map(*self).contains_key(path@) && data@ == blob_map(*self)[path@],
                None => !blob_map(*self).contains_key(path@),
            },
    {
        self.inner.get(path)
    }
}

} // verus!
