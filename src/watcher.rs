use vstd::prelude::*;
use vstd::string::*;
use vstd::utf8::*;

use crate::crypto::{encrypt, MasterKey, PLAINTEXT_LIMIT};
use crate::digest::{content_hash, hash_data};
use crate::error::ClipError;
use crate::models::{encode_entry, ClipboardContentType, ClipboardEntry, EntryView, ImageData, image_encoding};
use crate::store::{all_records, holds_hash, id_key, pruned, seals, ClipboardDatabase};

verus! {

/// The poll interval of the watch loop, in milliseconds.
pub const POLL_INTERVAL_MS: u64 = 500;

/// The watcher's state between polls: the store, the key, the hash of the
/// content seen last and the retention bound.
pub struct LocalClipboardWatcher {
    db: ClipboardDatabase,
    key: MasterKey,
    last_hash: Option<String>,
    max_entries: Option<usize>,
}

/// What one poll that saw `data` of kind `kind` did, from `before` to
/// `after`, returning `r`.
pub open spec fn tick_ensures(
    before: LocalClipboardWatcher,
    after: LocalClipboardWatcher,
    data: Seq<u8>,
    kind: ClipboardContentType,
    r: Result<bool, ClipError>,
) -> bool {
    let h = content_hash(data);
    let old_entries = before.store().entries();
    &&& after.store().wf()
    &&& after.store().meta() == before.store().meta()
    &&& after.key() == before.key()
    &&& after.limit() == before.limit()
    // the content seen last: nothing to do
    &&& before.last_seen() == Some(h) ==> r == Ok::<bool, ClipError>(false) && after.store().entries() == old_entries
        && after.last_seen() == before.last_seen()
    // content already in the store: remembered, not stored again
    &&& before.last_seen() != Some(h) && r == Ok::<bool, ClipError>(false) ==> holds_hash(old_entries, h)
        && after.store().entries() == old_entries && after.last_seen() == Some(h)
    &&& holds_hash(old_entries, h) ==> r != Ok::<bool, ClipError>(true) && after.store().entries() == old_entries
    // new content: sealed, stored, then pruned to the bound
    &&& r == Ok::<bool, ClipError>(true) ==> {
        &&& before.last_seen() != Some(h)
        &&& !holds_hash(old_entries, h)
        &&& after.last_seen() == Some(h)
        &&& exists|e: EntryView|
            {
                &&& e.hash == h
                &&& e.content_type == kind
                &&& #[trigger] seals(before.key(), e.payload, data)
                &&& match before.limit() {
                    None => after.store().entries() == old_entries.insert(id_key(e.id), encode_entry(e)),
                    Some(m) => pruned(
                        old_entries.insert(id_key(e.id), encode_entry(e)),
                        after.store().entries(),
                        m as nat,
                    ),
                }
            }
    }
    // only the store's I/O stands between new content and its storing
    &&& before.last_seen() != Some(h) && !holds_hash(old_entries, h) && all_records(old_entries) && data.len()
        < PLAINTEXT_LIMIT ==> r == Ok::<bool, ClipError>(true) || r == Err::<bool, ClipError>(ClipError::Store)
    // content already in the store, every record readable: remembered, or the store failed
    &&& before.last_seen() != Some(h) && holds_hash(old_entries, h) && all_records(old_entries) ==> (r == Ok::<
        bool,
        ClipError,
    >(false) && after.last_seen() == Some(h)) || r == Err::<bool, ClipError>(ClipError::Store)
    // new content too long for the cipher
    &&& before.last_seen() != Some(h) && !holds_hash(old_entries, h) && all_records(old_entries) && data.len()
        >= PLAINTEXT_LIMIT ==> r == Err::<bool, ClipError>(ClipError::Encryption) || r == Err::<bool, ClipError>(
        ClipError::Store,
    )
    // failures before anything is written change nothing
    &&& r is Err && r->Err_0 != ClipError::Store ==> after.store().entries() == old_entries && after.last_seen()
        == before.last_seen()
    // the hash is recorded on failure only when the entry was stored and pruning failed
    &&& r is Err && after.last_seen() != before.last_seen() ==> after.last_seen() == Some(h) && before.limit() is Some
        && r->Err_0 == ClipError::Store
}

impl LocalClipboardWatcher {
    /// The store the watcher writes to.
    pub closed spec fn store(&self) -> ClipboardDatabase {
        self.db
    }

    /// The key that new content is sealed with.
    pub closed spec fn key(&self) -> Seq<u8> {
        self.key@
    }

    /// The hash of the content seen last.
    pub closed spec fn last_seen(&self) -> Option<Seq<char>> {
        match self.last_hash {
            Some(h) => Some(h@),
            None => None,
        }
    }

    /// The retention bound.
    pub closed spec fn limit(&self) -> Option<usize> {
        self.max_entries
    }

    pub fn new(db: ClipboardDatabase, key: MasterKey, max_entries: Option<usize>) -> (r: Self)
        ensures
            r.store() == db,
            r.key() == key@,
            r.last_seen() is None,
            r.limit() == max_entries,
    {
        LocalClipboardWatcher { db, key, last_hash: None, max_entries }
    }

    /// The store the watcher writes to.
    pub fn db(&self) -> (r: &ClipboardDatabase)
        ensures
            *r == self.store(),
    {
        &self.db
    }

    /// Deletes the entry stored under `id`; true iff there was one.
    pub fn delete_stored(&mut self, id: &str) -> (r: Result<bool, ClipError>)
        requires
            old(self).store().wf(),
        ensures
            final(self).store().wf(),
            final(self).store().meta() == old(self).store().meta(),
            final(self).key() == old(self).key(),
            final(self).limit() == old(self).limit(),
            final(self).last_seen() == old(self).last_seen(),
            r is Ok ==> final(self).store().entries() == old(self).store().entries().remove(id_key(id@)),
            r is Ok ==> r->Ok_0 == old(self).store().entries().contains_key(id_key(id@)),
            r is Err ==> r->Err_0 == ClipError::Store,
    {
        self.db.delete_entry(id)
    }

    /// Gives the store back.
    pub fn into_db(self) -> (r: ClipboardDatabase)
        ensures
            r == self.store(),
    {
        self.db
    }

    /// Milliseconds to wait between polls.
    pub fn poll_interval_ms(&self) -> (r: u64)
        ensures
            r == POLL_INTERVAL_MS,
    {
        POLL_INTERVAL_MS
    }

    /// SHA-256 of `data`, as 64 lowercase hex characters.
    pub fn hash_data(data: &[u8]) -> (r: String)
        ensures
            r@ == content_hash(data@),
            r@.len() == 64,
    {
        hash_data(data)
    }

    fn is_last(&self, h: &String) -> (r: bool)
        ensures
            r == (self.last_seen() == Some(h@)),
    {
        match &self.last_hash {
            Some(l) => *l == *h,
            None => false,
        }
    }

    /// One poll that saw `data` of kind `kind`: skips the content seen last
    /// and content already stored, and otherwise seals and stores it, then
    /// prunes to the bound. True iff a new entry was stored.
    pub(crate) fn process_content(&mut self, data: &[u8], kind: ClipboardContentType) -> (r: Result<bool, ClipError>)
        requires
            old(self).store().wf(),
        ensures
            tick_ensures(*old(self), *final(self), data@, kind, r),
    {
        let hash = hash_data(data);
        if self.is_last(&hash) {
            return Ok(false);
        }
        let exists = self.db.hash_exists(hash.as_str());
        match exists {
            Ok(true) => {
                self.last_hash = Some(hash);
                return Ok(false);
            },
            Ok(false) => {},
            Err(e) => return Err(e),
        }
        let ghost old_entries = self.db.entries();
        let encrypted = encrypt(&self.key, data)?;
        let entry = ClipboardEntry::new(kind, encrypted, hash.clone());
        let ghost e = entry@;
        proof {
            assert(seals(self.key(), e.payload, data@));
        }
        self.db.insert_entry(&entry)?;
        self.last_hash = Some(hash);
        match self.max_entries {
            Some(max) => {
                self.db.prune_to_limit(max)?;
            },
            None => {},
        }
        Ok(true)
    }

    /// One poll that saw the text `text`.
    pub fn process_text(&mut self, text: &str) -> (r: Result<bool, ClipError>)
        requires
            old(self).store().wf(),
        ensures
            tick_ensures(*old(self), *final(self), text.spec_bytes(), ClipboardContentType::Text, r),
    {
        self.process_content(text.as_bytes(), ClipboardContentType::Text)
    }

    /// One poll that saw the image `image`; its hash and its plaintext are
    /// its canonical byte form.
    pub fn process_image(&mut self, image: &ImageData) -> (r: Result<bool, ClipError>)
        requires
            old(self).store().wf(),
        ensures
            tick_ensures(
                *old(self),
                *final(self),
                image_encoding(image.width, image.height, image.bytes@),
                ClipboardContentType::Image,
                r,
            ),
    {
        let bytes = image.to_bytes();
        self.process_content(bytes.as_slice(), ClipboardContentType::Image)
    }

    /// One poll of the clipboard, given what it held: non-empty text wins,
    /// then an image; with neither there is nothing to do.
    pub fn check_clipboard(&mut self, text: Option<String>, image: Option<ImageData>) -> (r: Result<
        bool,
        ClipError,
    >)
        requires
            old(self).store().wf(),
        ensures
            text is Some && text->Some_0@.len() > 0 ==> tick_ensures(
                *old(self),
                *final(self),
                encode_utf8(text->Some_0@),
                ClipboardContentType::Text,
                r,
            ),
            !(text is Some && text->Some_0@.len() > 0) && image is Some ==> tick_ensures(
                *old(self),
                *final(self),
                image_encoding(image->Some_0.width, image->Some_0.height, image->Some_0.bytes@),
                ClipboardContentType::Image,
                r,
            ),
            !(text is Some && text->Some_0@.len() > 0) && image is None ==> r == Ok::<bool, ClipError>(false)
                && *final(self) == *old(self),
    {
        if let Some(t) = &text {
            if !t.as_str().is_empty() {
                return self.process_text(t.as_str());
            }
        }
        match &image {
            Some(img) => self.process_image(img),
            None => Ok(false),
        }
    }
}

/// Seeing the same content on two polls in a row stores it at most once:
/// once the first poll has succeeded, the second stores nothing and leaves
/// the store as it was.
pub proof fn lemma_repeated_content_stored_once(
    w0: LocalClipboardWatcher,
    w1: LocalClipboardWatcher,
    w2: LocalClipboardWatcher,
    data: Seq<u8>,
    kind1: ClipboardContentType,
    kind2: ClipboardContentType,
    r1: Result<bool, ClipError>,
    r2: Result<bool, ClipError>,
)
    requires
        tick_ensures(w0, w1, data, kind1, r1),
        r1 is Ok,
        tick_ensures(w1, w2, data, kind2, r2),
    ensures
        w1.last_seen() == Some(content_hash(data)),
        r2 == Ok::<bool, ClipError>(false),
        w2.store().entries() == w1.store().entries(),
{
    if r1->Ok_0 {
        assert(r1 == Ok::<bool, ClipError>(true));
    } else {
        assert(r1 == Ok::<bool, ClipError>(false));
    }
}

/// Content that a poll stored is not stored again by a watcher that has not
/// seen it last (a fresh watcher on the same store, say): the hash scan of
/// the store finds it. Without a retention bound the stored entry is still
/// there to be found.
pub proof fn lemma_stored_content_found_in_history(
    w0: LocalClipboardWatcher,
    w1: LocalClipboardWatcher,
    w2: LocalClipboardWatcher,
    w3: LocalClipboardWatcher,
    data: Seq<u8>,
    kind1: ClipboardContentType,
    kind2: ClipboardContentType,
    r1: Result<bool, ClipError>,
    r2: Result<bool, ClipError>,
)
    requires
        tick_ensures(w0, w1, data, kind1, r1),
        r1 == Ok::<bool, ClipError>(true),
        w0.limit() is None,
        w2.store().entries() == w1.store().entries(),
        w2.last_seen() is None,
        tick_ensures(w2, w3, data, kind2, r2),
    ensures
        holds_hash(w2.store().entries(), content_hash(data)),
        r2 != Ok::<bool, ClipError>(true),
        w3.store().entries() == w2.store().entries(),
{
    let h = content_hash(data);
    let e = choose|e: EntryView|
        {
            &&& e.hash == h
            &&& e.content_type == kind1
            &&& #[trigger] seals(w0.key(), e.payload, data)
            &&& match w0.limit() {
                None => w1.store().entries() == w0.store().entries().insert(id_key(e.id), encode_entry(e)),
                Some(m) => pruned(
                    w0.store().entries().insert(id_key(e.id), encode_entry(e)),
                    w1.store().entries(),
                    m as nat,
                ),
            }
        };
    let m = w1.store().entries();
    assert(m.contains_key(id_key(e.id)) && encode_entry(e) == m[id_key(e.id)] && e.hash == h);
}

} // verus!
