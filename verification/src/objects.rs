//! The object store: contents kept under the identifier that their digest
//! gives them.

use crate::bytemap::ByteMap;
use crate::bytes::to_vec;
use crate::error::Error;
use crate::hash::{commit_hash_form, digest, sha1_hex};
use vstd::prelude::*;

verus! {

/// The store after `content` was put under `id`: an identifier that is in
/// use keeps what it has.
pub open spec fn stored(
    store: Map<Seq<u8>, Seq<u8>>,
    id: Seq<u8>,
    content: Seq<u8>,
) -> Map<Seq<u8>, Seq<u8>> {
    if store.contains_key(id) {
        store
    } else {
        store.insert(id, content)
    }
}

/// Contents by identifier.
pub struct ObjectStore {
    pub objects: ByteMap,
}

impl View for ObjectStore {
    type V = Map<Seq<u8>, Seq<u8>>;

    open spec fn view(&self) -> Map<Seq<u8>, Seq<u8>> {
        self.objects@
    }
}

impl ObjectStore {
    /// The empty store.
    pub fn new() -> (r: ObjectStore)
        ensures
            r@ == Map::<Seq<u8>, Seq<u8>>::empty(),
    {
        ObjectStore { objects: ByteMap::new() }
    }

    /// Whether an object stands under `id`.
    pub fn contains(&self, id: &[u8]) -> (r: bool)
        ensures
            r == self@.contains_key(id@),
    {
        self.objects.contains_key(id)
    }

    /// The content under `id`, or `NotFound`.
    pub fn get_object(&self, id: &[u8]) -> (r: Result<&Vec<u8>, Error>)
        ensures
            match r {
                Ok(content) => self@.contains_key(id@) && content@ == self@[id@],
                Err(e) => !self@.contains_key(id@) && e == Error::NotFound,
            },
    {
        match self.objects.get(id) {
            Some(content) => Ok(content),
            None => Err(Error::NotFound),
        }
    }

    /// Puts `content` under `id` unless `id` is in use. Returns whether the
    /// store changed.
    pub fn put(&mut self, id: &[u8], content: &[u8]) -> (written: bool)
        ensures
            final(self)@ == stored(old(self)@, id@, content@),
            written == !old(self)@.contains_key(id@),
    {
        if self.objects.contains_key(id) {
            false
        } else {
            self.objects.insert(to_vec(id), to_vec(content));
            true
        }
    }

    /// Stores `content` under its digest and returns the digest.
    pub fn put_object(&mut self, content: &[u8]) -> (id: Vec<u8>)
        ensures
            id@ == sha1_hex(content@),
            commit_hash_form(id@),
            final(self)@ == stored(old(self)@, sha1_hex(content@), content@),
    {
        let id: Vec<u8> = digest(content);
        self.put(id.as_slice(), content);
        id
    }

    /// A store with the same objects.
    pub fn duplicate(&self) -> (r: ObjectStore)
        ensures
            r@ == self@,
    {
        ObjectStore { objects: self.objects.duplicate() }
    }
}

/// Stores the content of a file as a blob and returns its identifier. The
/// identifier depends on the content alone, and a content that is stored
/// already is not written again.
pub fn write_blob(store: &mut ObjectStore, content: &[u8]) -> (id: Vec<u8>)
    ensures
        id@ == sha1_hex(content@),
        commit_hash_form(id@),
        final(store)@ == stored(old(store)@, sha1_hex(content@), content@),
{
    store.put_object(content)
}

/// Equal contents get equal identifiers, and storing a content a second time
/// leaves the store as it was after the first time: with one object under
/// that identifier, and one object more than before at most.
pub proof fn law_content_addressing(store: Map<Seq<u8>, Seq<u8>>, b1: Seq<u8>, b2: Seq<u8>)
    requires
        b1 == b2,
    ensures
        sha1_hex(b1) == sha1_hex(b2),
        stored(stored(store, sha1_hex(b1), b1), sha1_hex(b2), b2) == stored(
            store,
            sha1_hex(b1),
            b1,
        ),
        stored(store, sha1_hex(b1), b1).dom() == store.dom().insert(sha1_hex(b1)),
        stored(Map::empty(), sha1_hex(b1), b1).dom() == set![sha1_hex(b1)],
{
    assert(stored(store, sha1_hex(b1), b1).dom() =~= store.dom().insert(sha1_hex(b1)));
    assert(stored(Map::<Seq<u8>, Seq<u8>>::empty(), sha1_hex(b1), b1).dom() =~= set![sha1_hex(b1)]);
}

} // verus!
