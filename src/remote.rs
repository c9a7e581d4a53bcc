use vstd::prelude::*;
use vstd::string::*;

use crate::crypto::{encrypt, MasterKey, PLAINTEXT_LIMIT};
use crate::digest::{content_hash, hash_data};
use crate::error::ClipError;
use crate::models::{
    base64_decode, base64_encode, base64_standard, encode_entry, framed, push_framed, read_framed, utf8_string, ClipboardContentType,
    ClipboardEntry, EntryView,
};
use crate::store::entry_views;
use vstd::bytes::*;
use vstd::slice::*;
use vstd::utf8::*;
use crate::store::seals;
use crate::watcher::POLL_INTERVAL_MS;

verus! {

/// The text with leading and trailing whitespace removed, as `str::trim` does.
pub uninterp spec fn trim_of(s: Seq<char>) -> Seq<char>;

/// Relies on str::trim: removes leading and trailing Unicode whitespace.
#[verifier::external_body]
fn trim(s: &str) -> (r: &str)
    ensures
        r@ == trim_of(s@),
{
    s.trim()
}

/// Client of a peer that keeps the store: hashing and sealing happen here,
/// so only envelopes and non-secret metadata cross the wire. Requests are
/// made by the caller; this type builds them and reads the answers.
pub struct NetworkClipboardDatabase {
    base_url: String,
    key: MasterKey,
    max_entries: Option<usize>,
}

/// The peer's address for clipboard requests.
pub open spec fn default_base_url() -> Seq<char> {
    "http://localhost:2573/clipboard"@
}

/// What sealing `data` for the peer promises of the upload body `r`.
pub open spec fn upload_ensures(
    key: Seq<u8>,
    data: Seq<u8>,
    kind: ClipboardContentType,
    r: Result<String, ClipError>,
) -> bool {
    &&& r is Ok <==> data.len() < PLAINTEXT_LIMIT
    &&& r is Ok ==> exists|e: EntryView|
        {
            &&& e.hash == content_hash(data)
            &&& e.content_type == kind
            &&& #[trigger] seals(key, e.payload, data)
            &&& r->Ok_0@ == base64_standard(encode_entry(e))
        }
    &&& r is Err ==> r->Err_0 == ClipError::Encryption
}

impl NetworkClipboardDatabase {
    pub closed spec fn base(&self) -> Seq<char> {
        self.base_url@
    }

    pub closed spec fn key(&self) -> Seq<u8> {
        self.key@
    }

    pub closed spec fn limit(&self) -> Option<usize> {
        self.max_entries
    }

    pub fn new(key: MasterKey, max_entries: Option<usize>) -> (r: Self)
        ensures
            r.base() == default_base_url(),
            r.key() == key@,
            r.limit() == max_entries,
    {
        NetworkClipboardDatabase {
            base_url: String::from_str("http://localhost:2573/clipboard"),
            key,
            max_entries,
        }
    }

    /// Milliseconds to wait between polls.
    pub fn poll_interval_ms(&self) -> (r: u64)
        ensures
            r == POLL_INTERVAL_MS,
    {
        POLL_INTERVAL_MS
    }

    /// The retention bound that the peer is asked to keep.
    pub fn max_entries(&self) -> (r: Option<usize>)
        ensures
            r == self.limit(),
    {
        self.max_entries
    }

    /// SHA-256 of `data`, as 64 lowercase hex characters.
    pub fn hash_data(data: &[u8]) -> (r: String)
        ensures
            r@ == content_hash(data@),
    {
        hash_data(data)
    }

    fn url(&self, path: &str) -> (r: String)
        ensures
            r@ == self.base() + path@,
    {
        let mut u = self.base_url.clone();
        u.append(path);
        u
    }

    /// Address of the listing request.
    pub fn list_url(&self) -> (r: String)
        ensures
            r@ == self.base() + "/list"@,
    {
        self.url("/list")
    }

    /// Address of the salt request.
    pub fn salt_url(&self) -> (r: String)
        ensures
            r@ == self.base() + "/salt"@,
    {
        self.url("/salt")
    }

    /// Address of the upload request.
    pub fn insert_url(&self) -> (r: String)
        ensures
            r@ == self.base() + "/insert"@,
    {
        self.url("/insert")
    }

    /// Address of the request that deletes entry `id`.
    pub fn delete_url(&self, id: &str) -> (r: String)
        ensures
            r@ == self.base() + "/delete/"@ + id@,
    {
        let mut u = self.url("/delete/");
        u.append(id);
        u
    }

    /// Address of the request that asks whether `hash` is stored.
    pub fn check_hash_url(&self, hash: &str) -> (r: String)
        ensures
            r@ == self.base() + "/check_hash/"@ + hash@,
    {
        let mut u = self.url("/check_hash/");
        u.append(hash);
        u
    }

    /// Seals `data` and frames it as an entry for the upload request.
    pub fn prepare_upload(&self, data: &[u8], kind: ClipboardContentType) -> (r: Result<String, ClipError>)
        ensures
            upload_ensures(self.key(), data@, kind, r),
    {
        let hash = hash_data(data);
        let sealed = encrypt(&self.key, data)?;
        let entry = ClipboardEntry::new(kind, sealed, hash);
        let ghost e = entry@;
        proof {
            assert(seals(self.key(), e.payload, data@));
        }
        Ok(entry.to_compressed_string())
    }
}

/// The peer's answer to a hash check: `Ok(true)` iff the content is stored
/// already. A failure status is a transport error.
pub fn hash_check_result(status_ok: bool, body: &str) -> (r: Result<bool, ClipError>)
    ensures
        !status_ok ==> r == Err::<bool, ClipError>(ClipError::Transport),
        status_ok ==> r == Ok::<bool, ClipError>(trim_of(body@) == "1"@),
{
    if !status_ok {
        return Err(ClipError::Transport);
    }
    let t = trim(body);
    let one = String::from_str("1");
    let t_owned = String::from_str(t);
    Ok(t_owned == one)
}

/// The peer's answer to a delete: success means deleted, 404 means there
/// was no such entry, anything else is a transport error.
pub fn delete_result(status: u16) -> (r: Result<bool, ClipError>)
    ensures
        200 <= status < 300 ==> r == Ok::<bool, ClipError>(true),
        status == 404 ==> r == Ok::<bool, ClipError>(false),
        !(200 <= status < 300) && status != 404 ==> r == Err::<bool, ClipError>(ClipError::Transport),
{
    if 200 <= status && status < 300 {
        Ok(true)
    } else if status == 404 {
        Ok(false)
    } else {
        Err(ClipError::Transport)
    }
}

/// The peer's answer to an upload: stored iff the status is a success.
pub fn upload_result(status_ok: bool) -> (r: Result<bool, ClipError>)
    ensures
        status_ok ==> r == Ok::<bool, ClipError>(true),
        !status_ok ==> r == Err::<bool, ClipError>(ClipError::Transport),
{
    if status_ok {
        Ok(true)
    } else {
        Err(ClipError::Transport)
    }
}

/// The body of the peer's answer to a hash check.
pub fn hash_check_body(exists: bool) -> (r: String)
    ensures
        r@ == (if exists { "1"@ } else { "0"@ }),
{
    if exists {
        String::from_str("1")
    } else {
        String::from_str("0")
    }
}

/// Length-prefixed UTF-8 fields, one per text, in order.
pub open spec fn string_frames(items: Seq<Seq<char>>) -> Seq<u8>
    decreases items.len(),
{
    if items.len() == 0 {
        Seq::empty()
    } else {
        framed(encode_utf8(items[0])) + string_frames(items.skip(1))
    }
}

/// A list of texts on the wire: the count as 8 little-endian bytes, then the
/// texts as length-prefixed fields.
pub open spec fn listing_bytes(items: Seq<Seq<char>>) -> Seq<u8> {
    spec_u64_to_le_bytes(items.len() as u64) + string_frames(items)
}

/// The peer's answer to a listing: the list of the entries' wire texts, in
/// base64.
pub open spec fn listing_body(es: Seq<EntryView>) -> Seq<char> {
    base64_standard(listing_bytes(entry_texts(es)))
}

/// The wire texts of entries, in order.
pub open spec fn entry_texts(es: Seq<EntryView>) -> Seq<Seq<char>> {
    es.map_values(|e: EntryView| base64_standard(encode_entry(e)))
}

pub open spec fn string_views(v: Seq<String>) -> Seq<Seq<char>> {
    v.map_values(|s: String| s@)
}

proof fn lemma_string_frames_push(items: Seq<Seq<char>>, x: Seq<char>)
    ensures
        string_frames(items.push(x)) == string_frames(items) + framed(encode_utf8(x)),
    decreases items.len(),
{
    if items.len() == 0 {
        assert(items.push(x).skip(1) =~= Seq::<Seq<char>>::empty());
        assert(string_frames(items.push(x).skip(1)) =~= Seq::<u8>::empty());
        assert(string_frames(items) =~= Seq::<u8>::empty());
        assert(string_frames(items.push(x)) =~= framed(encode_utf8(x)));
    } else {
        assert(items.push(x).skip(1) =~= items.skip(1).push(x));
        lemma_string_frames_push(items.skip(1), x);
        assert(string_frames(items.push(x)) =~= string_frames(items) + framed(encode_utf8(x)));
    }
}

proof fn lemma_string_frames_split(items: Seq<Seq<char>>, i: int)
    requires
        0 <= i < items.len(),
    ensures
        string_frames(items) == string_frames(items.take(i)) + framed(encode_utf8(items[i])) + string_frames(
            items.skip(i + 1),
        ),
    decreases i,
{
    if i == 0 {
        assert(items.take(0) =~= Seq::<Seq<char>>::empty());
        assert(string_frames(items) =~= string_frames(items.take(i)) + framed(encode_utf8(items[i]))
            + string_frames(items.skip(i + 1)));
    } else {
        lemma_string_frames_split(items.skip(1), i - 1);
        assert(items.skip(1).take(i - 1) =~= items.take(i).skip(1));
        assert(items.skip(1).skip(i) =~= items.skip(i + 1));
        assert(items.take(i)[0] == items[0]);
        assert(string_frames(items) =~= string_frames(items.take(i)) + framed(encode_utf8(items[i]))
            + string_frames(items.skip(i + 1)));
    }
}

/// Frames a list of texts for the wire.
pub fn encode_string_list(items: &Vec<String>) -> (r: Vec<u8>)
    ensures
        r@ == listing_bytes(string_views(items@)),
{
    let mut out = u64_to_le_bytes(items.len() as u64);
    let mut i: usize = 0;
    while i < items.len()
        invariant
            i <= items@.len(),
            out@ == spec_u64_to_le_bytes(items@.len() as u64) + string_frames(string_views(items@.take(i as int))),
        decreases items@.len() - i,
    {
        proof {
            assert(string_views(items@.take(i + 1)) =~= string_views(items@.take(i as int)).push(items@[i as int]@));
            lemma_string_frames_push(string_views(items@.take(i as int)), items@[i as int]@);
        }
        push_framed(&mut out, items[i].as_str().as_bytes());
        i = i + 1;
        proof {
            assert(out@ =~= spec_u64_to_le_bytes(items@.len() as u64) + string_frames(string_views(items@.take(i as int))));
        }
    }
    assert(items@.take(items@.len() as int) =~= items@);
    out
}

/// Reads a list of texts from its wire framing.
#[verifier::rlimit(60)]
pub fn decode_string_list(b: &[u8]) -> (r: Option<Vec<String>>)
    ensures
        r is Some ==> listing_bytes(string_views(r->Some_0@)) == b@,
        forall|items: Seq<Seq<char>>| #[trigger] listing_bytes(items) == b@ ==> r is Some && string_views(r->Some_0@) == items,
{
    broadcast use encode_utf8_valid_utf8, encode_utf8_decode_utf8, decode_utf8_encode_utf8;

    proof {
        lemma_auto_spec_u64_to_from_le_bytes();
    }
    if b.len() < 8 {
        return None;
    }
    let n = u64_from_le_bytes(slice_subrange(b, 0, 8));
    proof {
        assert forall|items: Seq<Seq<char>>| #[trigger] listing_bytes(items) == b@ implies items.len() == n
            && b@.subrange(8, b@.len() as int) == string_frames(items) by {
            assert(listing_bytes(items).subrange(0, 8) =~= spec_u64_to_le_bytes(items.len() as u64));
            assert(listing_bytes(items).subrange(8, b@.len() as int) =~= string_frames(items));
            assert(items.len() < 0x1_0000_0000_0000_0000) by {
                lemma_string_frames_len(items);
            }
        }
    }
    let mut out: Vec<String> = Vec::new();
    let mut pos: usize = 8;
    let mut i: u64 = 0;
    while i < n
        invariant
            8 <= pos <= b@.len(),
            i <= n,
            out@.len() == i,
            n == spec_u64_from_le_bytes(b@.subrange(0, 8)),
            b@.subrange(8, pos as int) == string_frames(string_views(out@)),
            forall|items: Seq<Seq<char>>| #[trigger] listing_bytes(items) == b@ ==> items.len() == n && b@.subrange(
                8,
                b@.len() as int,
            ) == string_frames(items) && string_views(out@) == items.take(i as int),
        decreases n - i,
    {
        let (bytes, next) = match read_framed(b, pos) {
            Some(x) => x,
            None => {
                proof {
                    assert forall|items: Seq<Seq<char>>| !(#[trigger] listing_bytes(items) == b@) by {
                        if listing_bytes(items) == b@ {
                            lemma_frame_at(b@, items, i as int, pos as int);
                        }
                    }
                }
                return None;
            },
        };
        let s = match utf8_string(bytes.as_slice()) {
            Some(s) => s,
            None => {
                proof {
                    assert forall|items: Seq<Seq<char>>| !(#[trigger] listing_bytes(items) == b@) by {
                        if listing_bytes(items) == b@ {
                            lemma_frame_at(b@, items, i as int, pos as int);
                            encode_utf8_valid_utf8(items[i as int]);
                            assert(bytes@ == encode_utf8(items[i as int]));
                        }
                    }
                }
                return None;
            },
        };
        let ghost old_out = out@;
        proof {
            decode_utf8_encode_utf8(bytes@);
            assert(bytes@ == encode_utf8(s@));
        }
        out.push(s);
        proof {
            assert(string_views(out@) =~= string_views(old_out).push(s@));
            lemma_string_frames_push(string_views(old_out), s@);
            assert(b@.subrange(8, next as int) =~= b@.subrange(8, pos as int) + b@.subrange(pos as int, next as int));
            assert forall|items: Seq<Seq<char>>| #[trigger] listing_bytes(items) == b@ implies string_views(out@)
                == items.take(i + 1) by {
                lemma_frame_at(b@, items, i as int, pos as int);
                assert(bytes@ == encode_utf8(items[i as int]));
                encode_utf8_decode_utf8(items[i as int]);
                assert(s@ == items[i as int]);
                assert(items.take(i + 1) =~= items.take(i as int).push(items[i as int]));
            }
        }
        pos = next;
        i = i + 1;
    }
    if pos != b.len() {
        proof {
            assert forall|items: Seq<Seq<char>>| !(#[trigger] listing_bytes(items) == b@) by {
                if listing_bytes(items) == b@ {
                    assert(items.take(n as int) =~= items);
                }
            }
        }
        return None;
    }
    proof {
        assert(b@ =~= b@.subrange(0, 8) + b@.subrange(8, b@.len() as int));
        assert(listing_bytes(string_views(out@)) =~= b@);
        assert forall|items: Seq<Seq<char>>| #[trigger] listing_bytes(items) == b@ implies string_views(out@) == items by {
            assert(items.take(n as int) =~= items);
        }
    }
    Some(out)
}

proof fn lemma_string_frames_len(items: Seq<Seq<char>>)
    ensures
        string_frames(items).len() >= 8 * items.len(),
    decreases items.len(),
{
    lemma_auto_spec_u64_to_from_le_bytes();
    if items.len() > 0 {
        lemma_string_frames_len(items.skip(1));
    }
}

/// Where the `i`-th text of a list framed as `b` starts, once the first `i`
/// texts take up `b[8..pos]`: its field is the next one.
proof fn lemma_frame_at(b: Seq<u8>, items: Seq<Seq<char>>, i: int, pos: int)
    requires
        0 <= i < items.len(),
        8 <= pos <= b.len(),
        b.subrange(8, b.len() as int) == string_frames(items),
        b.subrange(8, pos) == string_frames(items.take(i)),
    ensures
        pos + 8 + encode_utf8(items[i]).len() <= b.len(),
        framed(encode_utf8(items[i])) == b.subrange(pos, pos + 8 + encode_utf8(items[i]).len()),
{
    lemma_auto_spec_u64_to_from_le_bytes();
    lemma_string_frames_split(items, i);
    let f = framed(encode_utf8(items[i]));
    let sf = string_frames(items);
    let pre = string_frames(items.take(i));
    assert(pre.len() == pos - 8);
    assert(sf.len() == b.len() - 8);
    assert(pos + f.len() <= b.len());
    assert(b.subrange(pos, pos + f.len() as int) =~= string_frames(items).subrange(pre.len() as int, pre.len() + f.len() as int));
    assert(string_frames(items).subrange(pre.len() as int, pre.len() + f.len() as int) =~= f);
}

/// The body of the peer's answer to a listing.
pub fn encode_listing(entries: &Vec<ClipboardEntry>) -> (r: String)
    ensures
        r@ == listing_body(entry_views(entries@)),
{
    let mut texts: Vec<String> = Vec::new();
    let mut i: usize = 0;
    while i < entries.len()
        invariant
            i <= entries@.len(),
            string_views(texts@) == entry_texts(entry_views(entries@)).take(i as int),
        decreases entries@.len() - i,
    {
        let t = entries[i].to_compressed_string();
        let ghost prev = texts@;
        let ghost tv = t@;
        texts.push(t);
        proof {
            assert(string_views(texts@) =~= string_views(prev).push(tv));
            assert(entry_texts(entry_views(entries@))[i as int] == tv);
        }
        i = i + 1;
        proof {
            assert(string_views(texts@) =~= entry_texts(entry_views(entries@)).take(i as int));
        }
    }
    proof {
        assert(entry_texts(entry_views(entries@)).take(i as int) =~= entry_texts(entry_views(entries@)));
    }
    let bytes = encode_string_list(&texts);
    base64_encode(bytes.as_slice())
}

/// Reads the entries from the body of the peer's answer to a listing.
pub fn decode_listing(body: &str) -> (r: Option<Vec<ClipboardEntry>>)
    ensures
        r is Some ==> listing_body(entry_views(r->Some_0@)) == body@,
        forall|es: Seq<EntryView>| #[trigger] listing_body(es) == body@ ==> r is Some && entry_views(r->Some_0@) == es,
{
    let bytes = match base64_decode(body) {
        Some(b) => b,
        None => return None,
    };
    let texts = match decode_string_list(bytes.as_slice()) {
        Some(t) => t,
        None => return None,
    };
    let mut out: Vec<ClipboardEntry> = Vec::new();
    let mut i: usize = 0;
    while i < texts.len()
        invariant
            i <= texts@.len(),
            out@.len() == i,
            forall|b: Seq<u8>| #[trigger] base64_standard(b) == body@ ==> b == bytes@,
            forall|j: int| 0 <= j < i ==> base64_standard(encode_entry(#[trigger] out@[j]@)) == texts@[j]@,
            forall|es: Seq<EntryView>| #[trigger] listing_bytes(entry_texts(es)) == bytes@ ==> string_views(texts@)
                == entry_texts(es) && entry_views(out@) == es.take(i as int),
        decreases texts@.len() - i,
    {
        let e = match ClipboardEntry::from_compressed_string(texts[i].as_str()) {
            Some(e) => e,
            None => {
                proof {
                    assert forall|es: Seq<EntryView>| !(#[trigger] listing_body(es) == body@) by {
                        if listing_body(es) == body@ {
                            assert(listing_bytes(entry_texts(es)) == bytes@);
                            assert(string_views(texts@)[i as int] == entry_texts(es)[i as int]);
                        }
                    }
                }
                return None;
            },
        };
        let ghost prev = out@;
        out.push(e);
        proof {
            assert forall|es: Seq<EntryView>| #[trigger] listing_bytes(entry_texts(es)) == bytes@ implies entry_views(out@)
                == es.take(i + 1) by {
                assert(string_views(texts@)[i as int] == entry_texts(es)[i as int]);
                assert(entry_views(out@) =~= es.take(i + 1));
            }
        }
        i = i + 1;
    }
    proof {
        assert(entry_texts(entry_views(out@)) =~= string_views(texts@));
        assert forall|es: Seq<EntryView>| #[trigger] listing_body(es) == body@ implies entry_views(out@) == es by {
            assert(listing_bytes(entry_texts(es)) == bytes@);
            assert(es.take(i as int) =~= es);
        }
    }
    Some(out)
}

} // verus!
