use vstd::prelude::*;

use crate::crypto::MasterKey;
use crate::digest::content_hash;
use crate::error::ClipError;
use crate::models::{ClipboardContentType, ClipboardEntry};
use crate::store::{
    all_records, entry_views, holds_hash, id_key, is_listing, opens_to_verification, payload_key, salt_key,
};
use crate::watcher::LocalClipboardWatcher;

verus! {

/// The capabilities that the watcher and browsing clients use, whichever
/// store backs them. Contracts speak of the store's two maps: entries (id
/// bytes to record bytes) and metadata.
pub trait ClipboardBackend {
    spec fn entries(&self) -> Map<Seq<u8>, Seq<u8>>;

    spec fn meta(&self) -> Map<Seq<u8>, Seq<u8>>;

    /// The backend is ready for use.
    spec fn ready(&self) -> bool;

    /// Every entry, newest first.
    fn list_entries(&self) -> (r: Result<Vec<ClipboardEntry>, ClipError>)
        requires
            self.ready(),
        ensures
            r is Ok ==> is_listing(self.entries(), entry_views(r->Ok_0@)),
            all_records(self.entries()) ==> r is Ok || r->Err_0 == ClipError::Store,
    ;

    /// Deletes the entry stored under `id`; true iff there was one.
    fn delete_entry(&mut self, id: &str) -> (r: Result<bool, ClipError>)
        requires
            old(self).ready(),
        ensures
            final(self).ready(),
            final(self).meta() == old(self).meta(),
            r is Ok ==> final(self).entries() == old(self).entries().remove(id_key(id@)),
            r is Ok ==> r->Ok_0 == old(self).entries().contains_key(id_key(id@)),
            r is Err ==> r->Err_0 == ClipError::Store,
    ;

    /// Whether the store holds a salt.
    fn is_initialized(&self) -> (r: Result<bool, ClipError>)
        ensures
            r is Ok ==> r->Ok_0 == self.meta().contains_key(salt_key()),
    ;

    /// The stored salt.
    fn get_salt(&self) -> (r: Result<Vec<u8>, ClipError>)
        ensures
            r is Ok ==> self.meta().contains_key(salt_key()) && r->Ok_0@ == self.meta()[salt_key()],
            !self.meta().contains_key(salt_key()) ==> r is Err,
    ;

    /// Whether `key` opens the verification payload.
    fn verify_password(&self, key: &MasterKey) -> (r: Result<bool, ClipError>)
        ensures
            r is Ok ==> self.meta().contains_key(payload_key()) && r->Ok_0 == opens_to_verification(
                key@,
                self.meta()[payload_key()],
            ),
    ;

    /// Hashes `content` and stores it sealed, unless it is the content seen
    /// last or already stored. True iff a new entry was stored.
    fn hash_and_store(&mut self, content: &[u8], kind: ClipboardContentType) -> (r: Result<bool, ClipError>)
        requires
            old(self).ready(),
        ensures
            final(self).ready(),
            holds_hash(old(self).entries(), content_hash(content@)) ==> r != Ok::<bool, ClipError>(true)
                && final(self).entries() == old(self).entries(),
            r == Ok::<bool, ClipError>(false) ==> final(self).entries() == old(self).entries(),
            r == Ok::<bool, ClipError>(true) ==> !holds_hash(old(self).entries(), content_hash(content@)),
    ;
}

impl ClipboardBackend for LocalClipboardWatcher {
    open spec fn entries(&self) -> Map<Seq<u8>, Seq<u8>> {
        self.store().entries()
    }

    open spec fn meta(&self) -> Map<Seq<u8>, Seq<u8>> {
        self.store().meta()
    }

    open spec fn ready(&self) -> bool {
        self.store().wf()
    }

    fn list_entries(&self) -> (r: Result<Vec<ClipboardEntry>, ClipError>) {
        self.db().list_entries()
    }

    fn delete_entry(&mut self, id: &str) -> (r: Result<bool, ClipError>) {
        self.delete_stored(id)
    }

    fn is_initialized(&self) -> (r: Result<bool, ClipError>) {
        self.db().is_initialized()
    }

    fn get_salt(&self) -> (r: Result<Vec<u8>, ClipError>) {
        self.db().get_salt()
    }

    fn verify_password(&self, key: &MasterKey) -> (r: Result<bool, ClipError>) {
        self.db().verify_password(key)
    }

    fn hash_and_store(&mut self, content: &[u8], kind: ClipboardContentType) -> (r: Result<bool, ClipError>) {
        self.process_content(content, kind)
    }
}

} // verus!
