//! An in-memory object map keyed by digest.

use crate::digest::{digest_text, ContentHash};
use vstd::hash_map::StringHashMap;
use vstd::prelude::*;

verus! {

/// A volatile object map: payloads held in memory for the life of the value,
/// each under the text of its digest.
pub struct SimpleStore {
    objects: StringHashMap<Vec<u8>>,
}

impl View for SimpleStore {
    type V = Map<Seq<char>, Seq<u8>>;

    closed spec fn view(&self) -> Map<Seq<char>, Seq<u8>> {
        self.objects@.map_values(|payload: Vec<u8>| payload@)
    }
}

impl SimpleStore {
    /// Whether every payload is held under its own digest.
    pub open spec fn content_addressed(&self) -> bool {
        forall|key: Seq<char>| #[trigger]
            self@.contains_key(key) ==> key == digest_text(self@[key])
    }

    /// An empty store.
    pub fn new() -> (store: Self)
        ensures
            store@ == Map::<Seq<char>, Seq<u8>>::empty(),
            store.content_addressed(),
    {
        let store = SimpleStore { objects: StringHashMap::new() };
        assert(store@ =~= Map::<Seq<char>, Seq<u8>>::empty());
        store
    }

    /// Stores `data` under its digest and returns the digest. Whatever was
    /// held under that digest before is replaced; every other entry stays.
    pub fn put(&mut self, data: Vec<u8>) -> (hash: ContentHash)
        ensures
            hash@ == digest_text(data@),
            final(self)@ == old(self)@.insert(hash@, data@),
            old(self).content_addressed() ==> final(self).content_addressed(),
    {
        let hash = ContentHash::from_bytes(data.as_slice());
        let key = hash.as_str().to_owned();
        let ghost payload = data@;
        self.objects.insert(key, data);
        assert(self@ =~= old(self)@.insert(hash@, payload));
        hash
    }

    /// The payload held under `hash`, if there is one. The bytes are handed
    /// out as they are held; their digest is not computed again.
    pub fn get(&self, hash: &ContentHash) -> (found: Option<&Vec<u8>>)
        ensures
            match found {
                Some(payload) => self@.contains_key(hash@) && payload@ == self@[hash@],
                None => !self@.contains_key(hash@),
            },
    {
        self.objects.get(hash.as_str())
    }

    /// Whether a payload is held under `hash`.
    pub fn contains(&self, hash: &ContentHash) -> (present: bool)
        ensures
            present == self@.contains_key(hash@),
    {
        self.objects.contains_key(hash.as_str())
    }
}

/// Storing a payload and then asking for its digest finds exactly that
/// payload, whatever the map held before.
pub proof fn lemma_put_then_get(before: Map<Seq<char>, Seq<u8>>, data: Seq<u8>)
    ensures
        before.insert(digest_text(data), data).contains_key(digest_text(data)),
        before.insert(digest_text(data), data)[digest_text(data)] == data,
{
}

/// Storing the same payload a second time yields the same digest and leaves
/// the map as the first store left it.
pub proof fn lemma_put_twice(before: Map<Seq<char>, Seq<u8>>, data: Seq<u8>)
    ensures
        before.insert(digest_text(data), data).insert(digest_text(data), data)
            == before.insert(digest_text(data), data),
{
    assert(before.insert(digest_text(data), data).insert(digest_text(data), data)
        =~= before.insert(digest_text(data), data));
}

} // verus!
