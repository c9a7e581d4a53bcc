use std::path::PathBuf;
use vstd::bytes::*;
use vstd::prelude::*;
use vstd::slice::*;
use vstd::string::*;
use vstd::utf8::*;

use crate::crypto::{
    decrypt, derive_key, derived_key, encrypt, envelope, xchacha_open, MasterKey,
    NONCE_LEN, PLAINTEXT_LIMIT,
};
use crate::error::ClipError;
use crate::models::{encode_entry, ClipboardContentType, ClipboardEntry, EntryView};

verus! {

#[verifier::external_type_specification]
#[verifier::external_body]
pub struct ExSledDb(sled::Db);

#[verifier::external_type_specification]
#[verifier::external_body]
pub struct ExSledTree(sled::Tree);

#[verifier::external_type_specification]
#[verifier::external_body]
pub struct ExSledError(sled::Error);

#[verifier::external_type_specification]
#[verifier::external_body]
pub struct ExPathBuf(PathBuf);

/// The key-value pairs that a sled tree holds.
pub uninterp spec fn tree_contents(t: sled::Tree) -> Map<Seq<u8>, Seq<u8>>;

/// Relies on sled::open: opens or creates the database at `path`,
/// creating missing directories.
#[verifier::external_body]
fn sled_open(path: &PathBuf) -> (r: Result<sled::Db, sled::Error>) {
    sled::open(path)
}

/// Relies on sled::Db::open_tree: opens or creates a named tree, which holds
/// finitely many pairs.
#[verifier::external_body]
fn sled_open_tree(db: &sled::Db, name: &str) -> (r: Result<sled::Tree, sled::Error>)
    ensures
        r is Ok ==> tree_contents(r->Ok_0).dom().finite(),
{
    db.open_tree(name)
}

/// Relies on sled::Tree::get: the value stored under `key`, if any.
#[verifier::external_body]
fn tree_get(t: &sled::Tree, key: &[u8]) -> (r: Result<Option<Vec<u8>>, sled::Error>)
    ensures
        r is Ok ==> (r->Ok_0 is Some <==> tree_contents(*t).contains_key(key@)),
        r is Ok && r->Ok_0 is Some ==> r->Ok_0->Some_0@ == tree_contents(*t)[key@],
{
    t.get(key).map(|o| o.map(|v| v.to_vec()))
}

/// Relies on sled::Tree::contains_key.
#[verifier::external_body]
fn tree_contains(t: &sled::Tree, key: &[u8]) -> (r: Result<bool, sled::Error>)
    ensures
        r is Ok ==> r->Ok_0 == tree_contents(*t).contains_key(key@),
{
    t.contains_key(key)
}

/// Relies on sled::Tree::insert: sets the value under `key`.
#[verifier::external_body]
fn tree_insert(t: &mut sled::Tree, key: &[u8], value: &[u8]) -> (r: Result<(), sled::Error>)
    ensures
        tree_contents(*final(t)).dom().finite(),
        r is Ok ==> tree_contents(*final(t)) == tree_contents(*old(t)).insert(key@, value@),
{
    t.insert(key, value).map(|_| ())
}

/// Relies on sled::Tree::remove: removes `key`, giving back its value.
#[verifier::external_body]
fn tree_remove(t: &mut sled::Tree, key: &[u8]) -> (r: Result<Option<Vec<u8>>, sled::Error>)
    ensures
        tree_contents(*final(t)).dom().finite(),
        r is Ok ==> tree_contents(*final(t)) == tree_contents(*old(t)).remove(key@),
        r is Ok ==> (r->Ok_0 is Some <==> tree_contents(*old(t)).contains_key(key@)),
{
    t.remove(key).map(|o| o.map(|v| v.to_vec()))
}

/// Relies on sled::Tree::iter: every pair of the tree once.
#[verifier::external_body]
fn tree_pairs(t: &sled::Tree) -> (r: Result<Vec<(Vec<u8>, Vec<u8>)>, sled::Error>)
    ensures
        r is Ok ==> {
            let s = r->Ok_0@;
            let m = tree_contents(*t);
            &&& s.len() == m.len()
            &&& forall|i: int|
                0 <= i < s.len() ==> #[trigger] m.contains_key(s[i].0@) && m[s[i].0@] == s[i].1@
            &&& forall|i: int, j: int| 0 <= i < j < s.len() ==> s[i].0@ != s[j].0@
            &&& forall|k: Seq<u8>| #[trigger] m.contains_key(k) ==> exists|i: int| 0 <= i < s.len() && s[i].0@ == k
        },
{
    t.iter().map(|item| item.map(|(k, v)| (k.to_vec(), v.to_vec()))).collect()
}

/// Relies on sled::Tree::len: the number of pairs in the tree.
#[verifier::external_body]
fn tree_len(t: &sled::Tree) -> (r: usize)
    ensures
        r == tree_contents(*t).len(),
{
    t.len()
}

/// Relies on sled::Tree::flush: writes the tree's pending changes to disk.
#[verifier::external_body]
fn tree_flush(t: &sled::Tree) -> (r: Result<(), sled::Error>) {
    t.flush().map(|_| ())
}

/// Relies on sled::Db::flush: writes all pending changes to disk.
#[verifier::external_body]
fn db_flush(db: &sled::Db) -> (r: Result<(), sled::Error>) {
    db.flush().map(|_| ())
}

/// Metadata key of the salt.
pub open spec fn salt_key() -> Seq<u8> {
    seq![109u8, 101, 116, 97, 58, 115, 97, 108, 116]
}

/// Metadata key of the format version.
pub open spec fn version_key() -> Seq<u8> {
    seq![109u8, 101, 116, 97, 58, 118, 101, 114, 115, 105, 111, 110]
}

/// Metadata key of the verification payload.
pub open spec fn payload_key() -> Seq<u8> {
    seq![109u8, 101, 116, 97, 58, 112, 97, 121, 108, 111, 97, 100]
}

/// The key under which an entry with this id is stored: its UTF-8 bytes.
pub open spec fn id_key(id: Seq<char>) -> Seq<u8> {
    encode_utf8(id)
}

/// The plaintext whose envelope checks a password.
pub open spec fn verification_text() -> Seq<u8> {
    seq![99u8, 108, 112, 100, 95, 116, 101, 115, 116]
}

/// The format version that `initialize` records.
pub const FORMAT_VERSION: u32 = 1;

fn salt_key_bytes() -> (r: Vec<u8>)
    ensures
        r@ == salt_key(),
{
    let r = vec![109u8, 101, 116, 97, 58, 115, 97, 108, 116];
    assert(r@ =~= salt_key());
    r
}

fn version_key_bytes() -> (r: Vec<u8>)
    ensures
        r@ == version_key(),
{
    let r = vec![109u8, 101, 116, 97, 58, 118, 101, 114, 115, 105, 111, 110];
    assert(r@ =~= version_key());
    r
}

fn payload_key_bytes() -> (r: Vec<u8>)
    ensures
        r@ == payload_key(),
{
    let r = vec![109u8, 101, 116, 97, 58, 112, 97, 121, 108, 111, 97, 100];
    assert(r@ =~= payload_key());
    r
}

/// The verification plaintext, `clpd_test`.
pub fn verification_plaintext() -> (r: Vec<u8>)
    ensures
        r@ == verification_text(),
{
    let r = vec![99u8, 108, 112, 100, 95, 116, 101, 115, 116];
    assert(r@ =~= verification_text());
    r
}

fn bytes_equal(a: &[u8], b: &[u8]) -> (r: bool)
    ensures
        r == (a@ == b@),
{
    if a.len() != b.len() {
        return false;
    }
    let mut i: usize = 0;
    while i < a.len()
        invariant
            a@.len() == b@.len(),
            forall|j: int| 0 <= j < i ==> a@[j] == b@[j],
        decreases a.len() - i,
    {
        if a[i] != b[i] {
            return false;
        }
        i = i + 1;
    }
    assert(a@ =~= b@);
    true
}

/// Whether `payload` is an envelope of `plaintext` under `key`.
pub open spec fn seals(key: Seq<u8>, payload: Seq<u8>, plaintext: Seq<u8>) -> bool {
    &&& payload.len() >= NONCE_LEN
    &&& plaintext.len() < PLAINTEXT_LIMIT
    &&& payload == envelope(key, payload.subrange(0, NONCE_LEN as int), plaintext)
}

/// Whether `key` opens the verification payload `payload` to `clpd_test`.
pub open spec fn opens_to_verification(key: Seq<u8>, payload: Seq<u8>) -> bool {
    &&& payload.len() >= NONCE_LEN
    &&& xchacha_open(
        key,
        payload.subrange(0, NONCE_LEN as int),
        payload.subrange(NONCE_LEN as int, payload.len() as int),
    ) == Some(verification_text())
}

/// Whether `record` is the record of `e`, and of no other entry.
pub open spec fn decodes_to(record: Seq<u8>, e: EntryView) -> bool {
    &&& encode_entry(e) == record
    &&& forall|e2: EntryView| #[trigger] encode_entry(e2) == record ==> e2 == e
}

/// Whether `record` is the record of some entry.
pub open spec fn is_record(record: Seq<u8>) -> bool {
    exists|e: EntryView| #[trigger] encode_entry(e) == record
}

/// Lexicographic order on byte strings (a proper prefix comes first).
pub open spec fn bytes_lt(a: Seq<u8>, b: Seq<u8>) -> bool
    decreases a.len(),
{
    if a.len() == 0 {
        b.len() > 0
    } else if b.len() == 0 {
        false
    } else if a[0] != b[0] {
        a[0] < b[0]
    } else {
        bytes_lt(a.skip(1), b.skip(1))
    }
}

proof fn lemma_bytes_lt_trans(a: Seq<u8>, b: Seq<u8>, c: Seq<u8>)
    requires
        bytes_lt(a, b),
        bytes_lt(b, c),
    ensures
        bytes_lt(a, c),
    decreases a.len(),
{
    if a.len() > 0 && b.len() > 0 && c.len() > 0 && a[0] == b[0] && b[0] == c[0] {
        lemma_bytes_lt_trans(a.skip(1), b.skip(1), c.skip(1));
    }
}

proof fn lemma_bytes_lt_total(a: Seq<u8>, b: Seq<u8>)
    requires
        a != b,
    ensures
        bytes_lt(a, b) || bytes_lt(b, a),
    decreases a.len(),
{
    if a.len() == 0 && b.len() == 0 {
        assert(a =~= b);
    } else if a.len() > 0 && b.len() > 0 && a[0] == b[0] {
        if a.skip(1) =~= b.skip(1) {
            assert(a =~= seq![a[0]] + a.skip(1));
            assert(b =~= seq![b[0]] + b.skip(1));
        } else {
            lemma_bytes_lt_total(a.skip(1), b.skip(1));
        }
    }
}

/// Whether `a` is listed before `b`: newer first, equal timestamps in
/// increasing key (id) order.
pub open spec fn listed_before(a: (Seq<u8>, EntryView), b: (Seq<u8>, EntryView)) -> bool {
    a.1.timestamp > b.1.timestamp || (a.1.timestamp == b.1.timestamp && bytes_lt(a.0, b.0))
}

proof fn lemma_listed_before_trans(a: (Seq<u8>, EntryView), b: (Seq<u8>, EntryView), c: (Seq<u8>, EntryView))
    requires
        listed_before(a, b),
        listed_before(b, c),
    ensures
        listed_before(a, c),
{
    if a.1.timestamp == b.1.timestamp && b.1.timestamp == c.1.timestamp {
        lemma_bytes_lt_trans(a.0, b.0, c.0);
    }
}

proof fn lemma_listed_before_total(a: (Seq<u8>, EntryView), b: (Seq<u8>, EntryView))
    requires
        a.0 != b.0,
    ensures
        listed_before(a, b) || listed_before(b, a),
{
    lemma_bytes_lt_total(a.0, b.0);
}

/// Whether `a` comes before `b` in lexicographic byte order.
fn key_less(a: &[u8], b: &[u8]) -> (r: bool)
    ensures
        r == bytes_lt(a@, b@),
    decreases a@.len(),
{
    if a.len() == 0 {
        return b.len() > 0;
    }
    if b.len() == 0 {
        return false;
    }
    if a[0] != b[0] {
        return a[0] < b[0];
    }
    let ra = slice_subrange(a, 1, a.len());
    let rb = slice_subrange(b, 1, b.len());
    assert(ra@ =~= a@.skip(1));
    assert(rb@ =~= b@.skip(1));
    key_less(ra, rb)
}

/// Newest first, equal timestamps in increasing key order.
pub open spec fn newest_first(s: Seq<(Seq<u8>, EntryView)>) -> bool {
    forall|i: int, j: int| 0 <= i < j < s.len() ==> #[trigger] listed_before(s[i], s[j])
}

/// `s` lists the pairs of `m` once each, every record decoded, newest first.
pub open spec fn keyed_listing(m: Map<Seq<u8>, Seq<u8>>, s: Seq<(Seq<u8>, EntryView)>) -> bool {
    &&& s.len() == m.len()
    &&& forall|i: int| 0 <= i < s.len() ==> #[trigger] m.contains_key(s[i].0) && decodes_to(m[s[i].0], s[i].1)
    &&& forall|i: int, j: int| 0 <= i < j < s.len() ==> s[i].0 != s[j].0
    &&& forall|k: Seq<u8>| #[trigger] m.contains_key(k) ==> exists|i: int| 0 <= i < s.len() && s[i].0 == k
    &&& newest_first(s)
}

/// `es` lists the entries of `m` once each, newest first.
pub open spec fn is_listing(m: Map<Seq<u8>, Seq<u8>>, es: Seq<EntryView>) -> bool {
    exists|s: Seq<(Seq<u8>, EntryView)>| #[trigger] keyed_listing(m, s) && es == listed_entries(s)
}

/// The entries of a keyed listing, in order.
pub open spec fn listed_entries(s: Seq<(Seq<u8>, EntryView)>) -> Seq<EntryView> {
    s.map_values(|p: (Seq<u8>, EntryView)| p.1)
}

/// After pruning `before` to `after`: every entry kept is newer than every
/// entry removed, or as new with a smaller key (id).
pub open spec fn keeps_newest(before: Map<Seq<u8>, Seq<u8>>, after: Map<Seq<u8>, Seq<u8>>) -> bool {
    forall|k1: Seq<u8>, k2: Seq<u8>, e1: EntryView, e2: EntryView|
        #![trigger after.contains_key(k1), after.contains_key(k2), encode_entry(e1), encode_entry(e2)]
        after.contains_key(k1) && before.contains_key(k2) && !after.contains_key(k2) && encode_entry(e1)
            == before[k1] && encode_entry(e2) == before[k2] ==> e1.timestamp > e2.timestamp || (e1.timestamp
            == e2.timestamp && bytes_lt(k1, k2))
}

pub open spec fn hits(perm: Seq<int>, j: int) -> bool {
    exists|i: int| 0 <= i < perm.len() && #[trigger] perm[i] == j
}

/// `out` holds the items of `src`, each once, in the order that `perm` gives.
pub open spec fn permutes(
    perm: Seq<int>,
    out: Seq<(Seq<u8>, EntryView)>,
    src: Seq<(Seq<u8>, EntryView)>,
) -> bool {
    &&& perm.len() == out.len()
    &&& forall|i: int| 0 <= i < out.len() ==> 0 <= #[trigger] perm[i] < src.len() && out[i] == src[perm[i]]
    &&& forall|i1: int, i2: int| 0 <= i1 < i2 < out.len() ==> perm[i1] != perm[i2]
    &&& forall|j: int| 0 <= j < src.len() ==> #[trigger] hits(perm, j)
}

pub open spec fn pair_view(p: (Vec<u8>, ClipboardEntry)) -> (Seq<u8>, EntryView) {
    (p.0@, p.1@)
}

pub open spec fn pair_views(v: Seq<(Vec<u8>, ClipboardEntry)>) -> Seq<(Seq<u8>, EntryView)> {
    v.map_values(|p: (Vec<u8>, ClipboardEntry)| pair_view(p))
}

/// Sorts keyed entries newest first, equal timestamps in increasing key order.
fn sort_newest_first(items: Vec<(Vec<u8>, ClipboardEntry)>) -> (r: Vec<(Vec<u8>, ClipboardEntry)>)
    requires
        forall|i: int, j: int| 0 <= i < j < items@.len() ==> items@[i].0@ != items@[j].0@,
    ensures
        r@.len() == items@.len(),
        newest_first(pair_views(r@)),
        exists|perm: Seq<int>|
            #[trigger] permutes(
                perm,
                pair_views(r@),
                pair_views(items@),
            ),
{
    let ghost orig = items@;
    let mut items = items;
    let mut out: Vec<(Vec<u8>, ClipboardEntry)> = Vec::new();
    let ghost mut perm: Seq<int> = Seq::empty();
    while items.len() > 0
        invariant
            items@.len() + out@.len() == orig.len(),
            forall|i: int, j: int| 0 <= i < j < orig.len() ==> orig[i].0@ != orig[j].0@,
            forall|j: int| 0 <= j < items@.len() ==> items@[j] == orig[j],
            perm.len() == out@.len(),
            forall|i: int| 0 <= i < out@.len() ==> items@.len() <= #[trigger] perm[i] < orig.len() && pair_view(out@[i]) == pair_view(orig[perm[i]]),
            forall|i1: int, i2: int| 0 <= i1 < i2 < out@.len() ==> perm[i1] != perm[i2],
            forall|j: int| items@.len() <= j < orig.len() ==> #[trigger] hits(perm, j),
            forall|i: int, j: int| 0 <= i < j < out@.len() ==> #[trigger] listed_before(pair_view(out@[i]), pair_view(out@[j])),
        decreases items@.len(),
    {
        let x = items.pop().unwrap();
        let ghost xi = items@.len() as int;
        let mut p: usize = 0;
        while p < out.len() && (out[p].1.timestamp > x.1.timestamp || (out[p].1.timestamp == x.1.timestamp
            && key_less(out[p].0.as_slice(), x.0.as_slice())))
            invariant
                p <= out@.len(),
                forall|q: int| 0 <= q < p ==> #[trigger] listed_before(pair_view(out@[q]), pair_view(x)),
            decreases out@.len() - p,
        {
            p = p + 1;
        }
        let ghost old_out = out@;
        let ghost old_perm = perm;
        proof {
            if p < old_out.len() {
                assert(pair_view(old_out[p as int]) == pair_view(orig[old_perm[p as int]]));
                assert(pair_view(x) == pair_view(orig[xi]));
                lemma_listed_before_total(pair_view(old_out[p as int]), pair_view(x));
            }
        }
        out.insert(p, x);
        proof {
            perm = old_perm.insert(p as int, xi);
            assert forall|i: int, j: int| 0 <= i < j < out@.len() implies #[trigger] listed_before(pair_view(out@[i]), pair_view(out@[j])) by {
                if i < p && j == p {
                } else if i == p && j > p {
                    assert(out@[j] == old_out[j - 1]);
                    if j - 1 > p {
                        lemma_listed_before_trans(pair_view(x), pair_view(old_out[p as int]), pair_view(old_out[j - 1]));
                    }
                } else if i < p && j < p {
                } else if i < p && j > p {
                    assert(out@[j] == old_out[j - 1]);
                } else {
                    assert(out@[j] == old_out[j - 1]);
                    assert(out@[i] == old_out[i - 1]);
                }
            }
            assert forall|j: int| items@.len() <= j < orig.len() implies #[trigger] hits(perm, j) by {
                if j == xi {
                    assert(perm[p as int] == j);
                } else {
                    assert(hits(old_perm, j));
                    let i0 = choose|i: int| 0 <= i < old_perm.len() && #[trigger] old_perm[i] == j;
                    if i0 < p {
                        assert(perm[i0] == j);
                    } else {
                        assert(perm[i0 + 1] == j);
                    }
                }
            }
        }
    }
    proof {
        let rv = pair_views(out@);
        assert forall|i: int, j: int| 0 <= i < j < rv.len() implies #[trigger] listed_before(rv[i], rv[j]) by {
            assert(listed_before(pair_view(out@[i]), pair_view(out@[j])));
        }
        let iv = pair_views(orig);
        assert(permutes(perm, rv, iv));
    }
    out
}

/// Whether every value of `m` is the record of some entry.
pub open spec fn all_records(m: Map<Seq<u8>, Seq<u8>>) -> bool {
    forall|k: Seq<u8>| #[trigger] m.contains_key(k) ==> is_record(m[k])
}

/// Whether some record of `m` has content hash `h`.
pub open spec fn holds_hash(m: Map<Seq<u8>, Seq<u8>>, h: Seq<char>) -> bool {
    exists|k: Seq<u8>, e: EntryView| #[trigger] m.contains_key(k) && #[trigger] encode_entry(e) == m[k] && e.hash == h
}

pub open spec fn entry_views(v: Seq<ClipboardEntry>) -> Seq<EntryView> {
    v.map_values(|e: ClipboardEntry| e@)
}

/// What pruning `before` to at most `max` entries leaves as `after`.
pub open spec fn pruned(before: Map<Seq<u8>, Seq<u8>>, after: Map<Seq<u8>, Seq<u8>>, max: nat) -> bool {
    &&& forall|k: Seq<u8>| #[trigger] after.contains_key(k) ==> before.contains_key(k) && after[k] == before[k]
    &&& after.len() == if before.len() <= max { before.len() } else { max }
    &&& keeps_newest(before, after)
}

/// An encrypted store of clipboard entries, with a metadata tree (salt,
/// format version, verification payload) and an entry tree (id to record).
pub struct ClipboardDatabase {
    pub db: sled::Db,
    meta_tree: sled::Tree,
    clips_tree: sled::Tree,
}

impl ClipboardDatabase {
    /// The entry tree: id bytes to record bytes.
    pub closed spec fn entries(&self) -> Map<Seq<u8>, Seq<u8>> {
        tree_contents(self.clips_tree)
    }

    /// The metadata tree.
    pub closed spec fn meta(&self) -> Map<Seq<u8>, Seq<u8>> {
        tree_contents(self.meta_tree)
    }

    pub open spec fn wf(&self) -> bool {
        &&& self.entries().dom().finite()
        &&& self.meta().dom().finite()
    }

    /// Opens or creates a store at `path`.
    pub fn open(path: PathBuf) -> (r: Result<Self, ClipError>)
        ensures
            r is Ok ==> r->Ok_0.wf(),
            r is Err ==> r->Err_0 == ClipError::Store,
    {
        let db = match sled_open(&path) {
            Ok(d) => d,
            Err(_) => return Err(ClipError::Store),
        };
        let meta_tree = match sled_open_tree(&db, "meta") {
            Ok(t) => t,
            Err(_) => return Err(ClipError::Store),
        };
        let clips_tree = match sled_open_tree(&db, "clips") {
            Ok(t) => t,
            Err(_) => return Err(ClipError::Store),
        };
        Ok(ClipboardDatabase { db, meta_tree, clips_tree })
    }

    /// Whether the store holds a salt.
    pub fn is_initialized(&self) -> (r: Result<bool, ClipError>)
        ensures
            r is Ok ==> r->Ok_0 == self.meta().contains_key(salt_key()),
            r is Err ==> r->Err_0 == ClipError::Store,
    {
        let k = salt_key_bytes();
        match tree_contains(&self.meta_tree, k.as_slice()) {
            Ok(b) => Ok(b),
            Err(_) => Err(ClipError::Store),
        }
    }

    /// Records the salt, the format version and the verification payload.
    /// Entries are left as they are, still sealed under the keys they were
    /// made with.
    pub fn initialize(&mut self, salt: &[u8], payload: &[u8]) -> (r: Result<(), ClipError>)
        requires
            old(self).wf(),
        ensures
            final(self).wf(),
            final(self).entries() == old(self).entries(),
            r is Ok ==> final(self).meta() == old(self).meta().insert(salt_key(), salt@).insert(
                version_key(),
                spec_u32_to_le_bytes(FORMAT_VERSION),
            ).insert(payload_key(), payload@),
            r is Err ==> r->Err_0 == ClipError::Store,
    {
        let sk = salt_key_bytes();
        let vk = version_key_bytes();
        let pk = payload_key_bytes();
        let version = u32_to_le_bytes(FORMAT_VERSION);
        if tree_insert(&mut self.meta_tree, sk.as_slice(), salt).is_err() {
            return Err(ClipError::Store);
        }
        if tree_insert(&mut self.meta_tree, vk.as_slice(), version.as_slice()).is_err() {
            return Err(ClipError::Store);
        }
        if tree_insert(&mut self.meta_tree, pk.as_slice(), payload).is_err() {
            return Err(ClipError::Store);
        }
        if tree_flush(&self.meta_tree).is_err() {
            return Err(ClipError::Store);
        }
        Ok(())
    }

    /// The stored salt.
    pub fn get_salt(&self) -> (r: Result<Vec<u8>, ClipError>)
        ensures
            r is Ok ==> self.meta().contains_key(salt_key()) && r->Ok_0@ == self.meta()[salt_key()],
            r is Err ==> r->Err_0 == ClipError::Store || r->Err_0 == ClipError::NotInitialized,
            r is Err && r->Err_0 == ClipError::NotInitialized ==> !self.meta().contains_key(salt_key()),
            !self.meta().contains_key(salt_key()) ==> r is Err,
    {
        let k = salt_key_bytes();
        match tree_get(&self.meta_tree, k.as_slice()) {
            Ok(Some(v)) => Ok(v),
            Ok(None) => Err(ClipError::NotInitialized),
            Err(_) => Err(ClipError::Store),
        }
    }

    /// The stored verification payload.
    pub fn get_payload(&self) -> (r: Result<Vec<u8>, ClipError>)
        ensures
            r is Ok ==> self.meta().contains_key(payload_key()) && r->Ok_0@ == self.meta()[payload_key()],
            r is Err ==> r->Err_0 == ClipError::Store || r->Err_0 == ClipError::NotFound,
            r is Err && r->Err_0 == ClipError::NotFound ==> !self.meta().contains_key(payload_key()),
            !self.meta().contains_key(payload_key()) ==> r is Err,
    {
        let k = payload_key_bytes();
        match tree_get(&self.meta_tree, k.as_slice()) {
            Ok(Some(v)) => Ok(v),
            Ok(None) => Err(ClipError::NotFound),
            Err(_) => Err(ClipError::Store),
        }
    }

    /// Whether `key` opens the stored verification payload to `clpd_test`.
    pub fn verify_password(&self, key: &MasterKey) -> (r: Result<bool, ClipError>)
        ensures
            r is Ok ==> self.meta().contains_key(payload_key()) && r->Ok_0 == opens_to_verification(
                key@,
                self.meta()[payload_key()],
            ),
            r is Ok && seals(key@, self.meta()[payload_key()], verification_text()) ==> r->Ok_0,
            r is Err ==> r->Err_0 == ClipError::Store || r->Err_0 == ClipError::NotFound,
            r is Err && r->Err_0 == ClipError::NotFound ==> !self.meta().contains_key(payload_key()),
            !self.meta().contains_key(payload_key()) ==> r is Err,
    {
        let payload = self.get_payload()?;
        let expected = verification_plaintext();
        let r = match decrypt(key, payload.as_slice()) {
            Ok(p) => Ok(bytes_equal(p.as_slice(), expected.as_slice())),
            Err(_) => Ok(false),
        };
        proof {
            let pl = payload@;
            if seals(key@, pl, verification_text()) {
                assert(envelope(key@, pl.subrange(0, NONCE_LEN as int), verification_text()) == pl);
            }
        }
        r
    }

    /// Stores `entry` under its id and flushes.
    pub fn insert_entry(&mut self, entry: &ClipboardEntry) -> (r: Result<(), ClipError>)
        requires
            old(self).wf(),
        ensures
            final(self).wf(),
            final(self).meta() == old(self).meta(),
            r is Ok ==> final(self).entries() == old(self).entries().insert(
                id_key(entry.id@),
                encode_entry(entry@),
            ),
            r is Err ==> r->Err_0 == ClipError::Store,
    {
        let record = entry.to_bytes();
        if tree_insert(&mut self.clips_tree, entry.id.as_str().as_bytes(), record.as_slice()).is_err() {
            return Err(ClipError::Store);
        }
        if tree_flush(&self.clips_tree).is_err() {
            return Err(ClipError::Store);
        }
        Ok(())
    }

    /// The entry stored under `id`, if any.
    pub fn get_entry(&self, id: &str) -> (r: Result<Option<ClipboardEntry>, ClipError>)
        ensures
            r is Ok && r->Ok_0 is None ==> !self.entries().contains_key(id_key(id@)),
            r is Ok && r->Ok_0 is Some ==> self.entries().contains_key(id_key(id@)) && decodes_to(
                self.entries()[id_key(id@)],
                r->Ok_0->Some_0@,
            ),
            r is Err ==> r->Err_0 == ClipError::Store || r->Err_0 == ClipError::Corrupt,
            r is Err && r->Err_0 == ClipError::Corrupt ==> self.entries().contains_key(id_key(id@))
                && !is_record(self.entries()[id_key(id@)]),
            self.entries().contains_key(id_key(id@)) && is_record(self.entries()[id_key(id@)]) ==> r is Ok
                || r == Err::<Option<ClipboardEntry>, ClipError>(ClipError::Store),
    {
        match tree_get(&self.clips_tree, id.as_bytes()) {
            Ok(Some(v)) => match ClipboardEntry::from_bytes(v.as_slice()) {
                Some(e) => Ok(Some(e)),
                None => Err(ClipError::Corrupt),
            },
            Ok(None) => Ok(None),
            Err(_) => Err(ClipError::Store),
        }
    }

    /// Removes the entry stored under `id`; true iff there was one.
    pub fn delete_entry(&mut self, id: &str) -> (r: Result<bool, ClipError>)
        requires
            old(self).wf(),
        ensures
            final(self).wf(),
            final(self).meta() == old(self).meta(),
            r is Ok ==> final(self).entries() == old(self).entries().remove(id_key(id@)),
            r is Ok ==> r->Ok_0 == old(self).entries().contains_key(id_key(id@)),
            r is Err ==> r->Err_0 == ClipError::Store,
    {
        match tree_remove(&mut self.clips_tree, id.as_bytes()) {
            Ok(Some(_)) => {
                if tree_flush(&self.clips_tree).is_err() {
                    return Err(ClipError::Store);
                }
                Ok(true)
            },
            Ok(None) => Ok(false),
            Err(_) => Err(ClipError::Store),
        }
    }

    /// The number of stored entries.
    pub fn count_entries(&self) -> (r: usize)
        ensures
            r == self.entries().len(),
    {
        tree_len(&self.clips_tree)
    }

    /// Every stored entry with its key, decoded, newest first.
    #[verifier::spinoff_prover]
    fn list_keyed(&self) -> (r: Result<Vec<(Vec<u8>, ClipboardEntry)>, ClipError>)
        requires
            self.wf(),
        ensures
            r is Ok ==> keyed_listing(
                self.entries(),
                pair_views(r->Ok_0@),
            ),
            r is Err ==> r->Err_0 == ClipError::Store || r->Err_0 == ClipError::Corrupt,
            r is Err && r->Err_0 == ClipError::Corrupt ==> exists|k: Seq<u8>|
                #[trigger] self.entries().contains_key(k) && !is_record(self.entries()[k]),
            (forall|k: Seq<u8>| #[trigger] self.entries().contains_key(k) ==> is_record(self.entries()[k]))
                ==> r is Ok || r->Err_0 == ClipError::Store,
    {
        let pairs = match tree_pairs(&self.clips_tree) {
            Ok(p) => p,
            Err(_) => return Err(ClipError::Store),
        };
        let ghost m = self.entries();
        let mut decoded: Vec<(Vec<u8>, ClipboardEntry)> = Vec::new();
        let mut i: usize = 0;
        while i < pairs.len()
            invariant
                m == self.entries(),
                pairs@.len() == m.len(),
                forall|j: int| 0 <= j < pairs@.len() ==> #[trigger] m.contains_key(pairs@[j].0@) && m[pairs@[j].0@] == pairs@[j].1@,
                forall|a: int, b: int| 0 <= a < b < pairs@.len() ==> pairs@[a].0@ != pairs@[b].0@,
                forall|k: Seq<u8>| #[trigger] m.contains_key(k) ==> exists|j: int| 0 <= j < pairs@.len() && pairs@[j].0@ == k,
                i <= pairs@.len(),
                decoded@.len() == i,
                forall|j: int| 0 <= j < i ==> (#[trigger] decoded@[j]).0@ == pairs@[j].0@ && decodes_to(pairs@[j].1@, decoded@[j].1@),
            decreases pairs@.len() - i,
        {
            let entry = match ClipboardEntry::from_bytes(pairs[i].1.as_slice()) {
                Some(e) => e,
                None => {
                    proof {
                        assert(m.contains_key(pairs@[i as int].0@));
                    }
                    return Err(ClipError::Corrupt);
                },
            };
            let key = slice_to_vec(pairs[i].0.as_slice());
            decoded.push((key, entry));
            i = i + 1;
        }
        let sorted = sort_newest_first(decoded);
        proof {
            let dv = pair_views(decoded@);
            let sv = pair_views(sorted@);
            let perm = choose|perm: Seq<int>| permutes(perm, sv, dv);
            assert forall|a: int| 0 <= a < sv.len() implies #[trigger] m.contains_key(sv[a].0) && decodes_to(m[sv[a].0], sv[a].1) by {
                let j = perm[a];
                assert(sv[a] == dv[j]);
                assert(dv[j] == pair_view(decoded@[j]));
                assert(decoded@[j].0@ == pairs@[j].0@);
                assert(m.contains_key(pairs@[j].0@));
            }
            assert forall|a: int, b: int| 0 <= a < b < sv.len() implies sv[a].0 != sv[b].0 by {
                assert(sv[a] == dv[perm[a]]);
                assert(sv[b] == dv[perm[b]]);
                assert(decoded@[perm[a]].0@ == pairs@[perm[a]].0@);
                assert(decoded@[perm[b]].0@ == pairs@[perm[b]].0@);
            }
            assert forall|k: Seq<u8>| #[trigger] m.contains_key(k) implies exists|a: int| 0 <= a < sv.len() && sv[a].0 == k by {
                let j = choose|j: int| 0 <= j < pairs@.len() && pairs@[j].0@ == k;
                assert(decoded@[j].0@ == k);
                assert(hits(perm, j));
                let a = choose|a: int| 0 <= a < perm.len() && #[trigger] perm[a] == j;
                assert(sv[a] == dv[j]);
                assert(sv[a].0 == k);
            }
        }
        Ok(sorted)
    }

    /// Every stored entry, newest first.
    pub fn list_entries(&self) -> (r: Result<Vec<ClipboardEntry>, ClipError>)
        requires
            self.wf(),
        ensures
            r is Ok ==> is_listing(self.entries(), entry_views(r->Ok_0@)),
            r is Err ==> r->Err_0 == ClipError::Store || r->Err_0 == ClipError::Corrupt,
            r is Err && r->Err_0 == ClipError::Corrupt ==> !all_records(self.entries()),
            all_records(self.entries()) ==> r is Ok || r->Err_0 == ClipError::Store,
    {
        let mut keyed = self.list_keyed()?;
        let ghost s = pair_views(keyed@);
        let mut out: Vec<ClipboardEntry> = Vec::new();
        while keyed.len() > 0
            invariant
                out@.len() + keyed@.len() == s.len(),
                forall|i: int| 0 <= i < out@.len() ==> #[trigger] out@[i]@ == s[i].1,
                forall|i: int| 0 <= i < keyed@.len() ==> #[trigger] pair_view(keyed@[i]) == s[out@.len() + i],
            decreases keyed@.len(),
        {
            let ghost prev = keyed@;
            let (_, e) = keyed.remove(0);
            out.push(e);
            proof {
                assert(pair_view(prev[0]) == s[out@.len() - 1]);
                assert forall|i: int| 0 <= i < keyed@.len() implies #[trigger] pair_view(keyed@[i]) == s[out@.len() + i] by {
                    assert(keyed@[i] == prev[i + 1]);
                    assert(pair_view(prev[i + 1]) == s[out@.len() - 1 + i + 1]);
                }
            }
        }
        proof {
            assert(entry_views(out@) =~= listed_entries(s));
            assert(keyed_listing(self.entries(), s));
        }
        Ok(out)
    }

    /// Whether a stored entry has content hash `hash`. Every record is read.
    pub fn hash_exists(&self, hash: &str) -> (r: Result<bool, ClipError>)
        ensures
            r is Ok && r->Ok_0 ==> holds_hash(self.entries(), hash@),
            r is Ok && !r->Ok_0 ==> all_records(self.entries()) && !holds_hash(self.entries(), hash@),
            r is Err ==> r->Err_0 == ClipError::Store || r->Err_0 == ClipError::Corrupt,
            r is Err && r->Err_0 == ClipError::Corrupt ==> !all_records(self.entries()),
            all_records(self.entries()) ==> r is Ok || r->Err_0 == ClipError::Store,
    {
        let pairs = match tree_pairs(&self.clips_tree) {
            Ok(p) => p,
            Err(_) => return Err(ClipError::Store),
        };
        let target = String::from_str(hash);
        let ghost m = self.entries();
        let mut i: usize = 0;
        while i < pairs.len()
            invariant
                m == self.entries(),
                target@ == hash@,
                forall|j: int| 0 <= j < pairs@.len() ==> #[trigger] m.contains_key(pairs@[j].0@) && m[pairs@[j].0@] == pairs@[j].1@,
                forall|k: Seq<u8>| #[trigger] m.contains_key(k) ==> exists|j: int| 0 <= j < pairs@.len() && pairs@[j].0@ == k,
                i <= pairs@.len(),
                forall|j: int| 0 <= j < i ==> is_record(#[trigger] pairs@[j].1@) && forall|e: EntryView| #[trigger] encode_entry(e) == pairs@[j].1@ ==> e.hash != hash@,
            decreases pairs@.len() - i,
        {
            let entry = match ClipboardEntry::from_bytes(pairs[i].1.as_slice()) {
                Some(e) => e,
                None => {
                    proof {
                        assert(m.contains_key(pairs@[i as int].0@));
                    }
                    return Err(ClipError::Corrupt);
                },
            };
            if entry.hash == target {
                proof {
                    assert(m.contains_key(pairs@[i as int].0@));
                    assert(encode_entry(entry@) == m[pairs@[i as int].0@]);
                }
                return Ok(true);
            }
            i = i + 1;
        }
        proof {
            assert forall|k: Seq<u8>| #[trigger] m.contains_key(k) implies is_record(m[k]) by {
                let j = choose|j: int| 0 <= j < pairs@.len() && pairs@[j].0@ == k;
                assert(is_record(pairs@[j].1@));
            }
            assert forall|k: Seq<u8>, e: EntryView| #[trigger] m.contains_key(k) && #[trigger] encode_entry(e) == m[k] implies e.hash != hash@ by {
                let j = choose|j: int| 0 <= j < pairs@.len() && pairs@[j].0@ == k;
                assert(is_record(pairs@[j].1@));
            }
        }
        Ok(false)
    }

    /// Deletes the oldest entries until at most `max_entries` remain, and
    /// returns how many it deleted.
    pub fn prune_to_limit(&mut self, max_entries: usize) -> (r: Result<usize, ClipError>)
        requires
            old(self).wf(),
        ensures
            final(self).wf(),
            final(self).meta() == old(self).meta(),
            r is Ok ==> pruned(old(self).entries(), final(self).entries(), max_entries as nat),
            r is Ok ==> r->Ok_0 == old(self).entries().len() - final(self).entries().len(),
            r is Ok && old(self).entries().len() <= max_entries ==> final(self).entries() == old(self).entries(),
            r is Err ==> r->Err_0 == ClipError::Store || r->Err_0 == ClipError::Corrupt,
            r is Err && r->Err_0 == ClipError::Corrupt ==> !all_records(old(self).entries())
                && final(self).entries() == old(self).entries(),
            all_records(old(self).entries()) ==> r is Ok || r->Err_0 == ClipError::Store,
    {
        let keyed = self.list_keyed()?;
        let ghost s = pair_views(keyed@);
        let ghost before = self.entries();
        let n = keyed.len();
        if n <= max_entries {
            proof {
                assert forall|k1: Seq<u8>, k2: Seq<u8>, e1: EntryView, e2: EntryView|
                    #![trigger before.contains_key(k1), before.contains_key(k2), encode_entry(e1), encode_entry(e2)]
                    before.contains_key(k1) && before.contains_key(k2) && !before.contains_key(k2) && encode_entry(e1)
                        == before[k1] && encode_entry(e2) == before[k2] implies e1.timestamp > e2.timestamp || (
                    e1.timestamp == e2.timestamp && bytes_lt(k1, k2)) by {}
            }
            return Ok(0);
        }
        let mut deleted: usize = 0;
        let mut i: usize = max_entries;
        while i < n
            invariant
                self.wf(),
                self.meta() == old(self).meta(),
                before == old(self).entries(),
                keyed_listing(before, s),
                s == pair_views(keyed@),
                n == keyed@.len(),
                max_entries <= i <= n,
                deleted == i - max_entries,
                forall|k: Seq<u8>| #[trigger] self.entries().contains_key(k) <==> (before.contains_key(k) && !(exists|j: int| max_entries <= j < i && s[j].0 == k)),
                forall|k: Seq<u8>| #[trigger] self.entries().contains_key(k) ==> self.entries()[k] == before[k],
                self.entries().len() == before.len() - (i - max_entries),
            decreases n - i,
        {
            let ghost cur = self.entries();
            proof {
                assert(pair_view(keyed@[i as int]) == s[i as int]);
                assert(before.contains_key(s[i as int].0));
                assert(cur.contains_key(s[i as int].0));
                cur.lemma_remove_key_len(s[i as int].0);
            }
            match tree_remove(&mut self.clips_tree, keyed[i].0.as_slice()) {
                Ok(_) => {},
                Err(_) => return Err(ClipError::Store),
            }
            if tree_flush(&self.clips_tree).is_err() {
                return Err(ClipError::Store);
            }
            deleted = deleted + 1;
            i = i + 1;
            proof {
                assert forall|k: Seq<u8>| #[trigger] self.entries().contains_key(k) <==> (before.contains_key(k) && !(exists|j: int| max_entries <= j < i && s[j].0 == k)) by {
                    if k == s[i - 1].0 {
                    } else {
                        if exists|j: int| max_entries <= j < i && s[j].0 == k {
                            let j = choose|j: int| max_entries <= j < i && s[j].0 == k;
                            assert(j != i - 1);
                        }
                    }
                }
            }
        }
        proof {
            let after = self.entries();
            assert forall|k1: Seq<u8>, k2: Seq<u8>, e1: EntryView, e2: EntryView|
                #![trigger after.contains_key(k1), after.contains_key(k2), encode_entry(e1), encode_entry(e2)]
                after.contains_key(k1) && before.contains_key(k2) && !after.contains_key(k2) && encode_entry(e1)
                    == before[k1] && encode_entry(e2) == before[k2] implies e1.timestamp > e2.timestamp || (
                    e1.timestamp == e2.timestamp && bytes_lt(k1, k2)) by {
                let a = choose|a: int| 0 <= a < s.len() && s[a].0 == k1;
                let b = choose|b: int| max_entries <= b < n && s[b].0 == k2;
                assert(decodes_to(before[s[a].0], s[a].1));
                assert(decodes_to(before[s[b].0], s[b].1));
                if a >= max_entries {
                    assert(!after.contains_key(k1));
                }
                assert(listed_before(s[a], s[b]));
            }
        }
        Ok(deleted)
    }

    /// Writes every pending change to disk.
    pub fn flush(&self) -> (r: Result<(), ClipError>)
        ensures
            r is Err ==> r->Err_0 == ClipError::Store,
    {
        if tree_flush(&self.meta_tree).is_err() {
            return Err(ClipError::Store);
        }
        if tree_flush(&self.clips_tree).is_err() {
            return Err(ClipError::Store);
        }
        if db_flush(&self.db).is_err() {
            return Err(ClipError::Store);
        }
        Ok(())
    }

    /// Sets the store up for `password`: records `salt`, the format version
    /// and the envelope of `clpd_test` under the key that the password and
    /// salt derive, and returns that key.
    pub fn init_with_password(&mut self, password: &str, salt: &[u8]) -> (r: Result<MasterKey, ClipError>)
        requires
            old(self).wf(),
        ensures
            final(self).wf(),
            final(self).entries() == old(self).entries(),
            r is Ok ==> derived_key(password.spec_bytes(), salt@) == Some(r->Ok_0@),
            r is Ok ==> final(self).meta().contains_key(salt_key()) && final(self).meta()[salt_key()] == salt@,
            r is Ok ==> final(self).meta().contains_key(payload_key()) && seals(
                r->Ok_0@,
                final(self).meta()[payload_key()],
                verification_text(),
            ),
            r is Err ==> r->Err_0 == ClipError::KeyDerivation || r->Err_0 == ClipError::Store,
            r is Err && r->Err_0 == ClipError::KeyDerivation ==> derived_key(password.spec_bytes(), salt@) is None,
            derived_key(password.spec_bytes(), salt@) is Some ==> r is Ok || r->Err_0 == ClipError::Store,
    {
        let key = derive_key(password, salt)?;
        let text = verification_plaintext();
        let payload = match encrypt(&key, text.as_slice()) {
            Ok(p) => p,
            Err(_) => {
                proof {
                    reveal_plaintext_limit();
                }
                return Err(ClipError::Store);
            },
        };
        self.initialize(salt, payload.as_slice())?;
        proof {
            reveal_plaintext_limit();
            assert(salt_key() != version_key());
            assert(salt_key() != payload_key());
            assert(version_key()[5] != payload_key()[5]);
        }
        Ok(key)
    }

    /// Unlocks the store with `password`: derives the key from the stored
    /// salt and checks it against the verification payload.
    pub fn unlock(&self, password: &str) -> (r: Result<MasterKey, ClipError>)
        ensures
            r is Ok ==> self.meta().contains_key(salt_key()) && derived_key(
                password.spec_bytes(),
                self.meta()[salt_key()],
            ) == Some(r->Ok_0@),
            r is Ok ==> self.meta().contains_key(payload_key()) && opens_to_verification(
                r->Ok_0@,
                self.meta()[payload_key()],
            ),
            r is Err ==> r->Err_0 == ClipError::Store || r->Err_0 == ClipError::NotInitialized || r->Err_0
                == ClipError::KeyDerivation || r->Err_0 == ClipError::Decryption || r->Err_0 == ClipError::NotFound,
            r is Err && r->Err_0 == ClipError::NotInitialized ==> !self.meta().contains_key(salt_key()),
            r is Err && r->Err_0 == ClipError::NotFound ==> !self.meta().contains_key(payload_key()),
            r is Err && r->Err_0 == ClipError::KeyDerivation ==> self.meta().contains_key(salt_key()) && derived_key(
                password.spec_bytes(),
                self.meta()[salt_key()],
            ) is None,
            self.meta().contains_key(salt_key()) && self.meta().contains_key(payload_key()) && derived_key(
                password.spec_bytes(),
                self.meta()[salt_key()],
            ) is Some && opens_to_verification(
                derived_key(password.spec_bytes(), self.meta()[salt_key()])->Some_0,
                self.meta()[payload_key()],
            ) ==> r is Ok || r == Err::<MasterKey, ClipError>(ClipError::Store),
            r is Err && r->Err_0 == ClipError::Decryption ==> self.meta().contains_key(salt_key())
                && self.meta().contains_key(payload_key()) && derived_key(
                password.spec_bytes(),
                self.meta()[salt_key()],
            ) is Some && !opens_to_verification(
                derived_key(password.spec_bytes(), self.meta()[salt_key()])->Some_0,
                self.meta()[payload_key()],
            ),
    {
        let salt = self.get_salt()?;
        let key = derive_key(password, salt.as_slice())?;
        if self.verify_password(&key)? {
            Ok(key)
        } else {
            Err(ClipError::Decryption)
        }
    }
}

proof fn reveal_plaintext_limit()
    ensures
        verification_text().len() < PLAINTEXT_LIMIT,
{
}

/// How many entries of `s` have content type `kind`.
pub open spec fn count_of(s: Seq<EntryView>, kind: ClipboardContentType) -> nat
    decreases s.len(),
{
    if s.len() == 0 {
        0
    } else {
        count_of(s.drop_last(), kind) + if s.last().content_type == kind { 1nat } else { 0nat }
    }
}

/// The summed payload lengths of `s`.
pub open spec fn payload_total(s: Seq<EntryView>) -> nat
    decreases s.len(),
{
    if s.len() == 0 {
        0
    } else {
        payload_total(s.drop_last()) + s.last().payload.len()
    }
}

/// Counts over a list of entries.
pub struct EntryStats {
    pub total: usize,
    pub text: usize,
    pub image: usize,
    /// Summed length of the encrypted payloads, in bytes.
    pub payload_bytes: u128,
}

/// The number of entries, of text and image entries, and the summed payload
/// length of `entries`.
pub fn entry_stats(entries: &Vec<ClipboardEntry>) -> (r: EntryStats)
    ensures
        r.total == entries@.len(),
        r.text == count_of(entry_views(entries@), ClipboardContentType::Text),
        r.image == count_of(entry_views(entries@), ClipboardContentType::Image),
        r.payload_bytes == payload_total(entry_views(entries@)),
{
    let ghost v = entry_views(entries@);
    let mut text: usize = 0;
    let mut image: usize = 0;
    let mut bytes: u128 = 0;
    let mut i: usize = 0;
    while i < entries.len()
        invariant
            v == entry_views(entries@),
            i <= entries@.len(),
            text == count_of(v.subrange(0, i as int), ClipboardContentType::Text),
            image == count_of(v.subrange(0, i as int), ClipboardContentType::Image),
            text + image == i,
            bytes == payload_total(v.subrange(0, i as int)),
            bytes <= i * (usize::MAX as int),
        decreases entries@.len() - i,
    {
        let n = entries[i].payload.len();
        proof {
            assert(v.subrange(0, i + 1).drop_last() =~= v.subrange(0, i as int));
            assert(bytes + n <= (i + 1) * (usize::MAX as int)) by (nonlinear_arith)
                requires
                    bytes <= i * (usize::MAX as int),
                    n <= usize::MAX,
            ;
            assert((i + 1) * (usize::MAX as int) <= usize::MAX as int * usize::MAX as int) by (nonlinear_arith)
                requires
                    i < usize::MAX,
            ;
            assert(usize::MAX as int * usize::MAX as int <= u128::MAX) by (nonlinear_arith)
                requires
                    usize::MAX <= u64::MAX,
            ;
        }
        match entries[i].content_type {
            ClipboardContentType::Text => text = text + 1,
            ClipboardContentType::Image => image = image + 1,
        }
        bytes = bytes + n as u128;
        i = i + 1;
    }
    proof {
        assert(v.subrange(0, entries@.len() as int) =~= v);
    }
    EntryStats { total: entries.len(), text, image, payload_bytes: bytes }
}

/// After pruning to `max`, at most `max` entries remain, each taken
/// unchanged from before, and none of them older than any entry removed.
pub proof fn lemma_prune_bound(
    before: ClipboardDatabase,
    after: ClipboardDatabase,
    max: usize,
    count: usize,
)
    requires
        pruned(before.entries(), after.entries(), max as nat),
        count == after.entries().len(),
    ensures
        count <= max,
        count == if before.entries().len() <= max { before.entries().len() } else { max as nat },
        forall|k: Seq<u8>| #[trigger] after.entries().contains_key(k) ==> before.entries().contains_key(k)
            && after.entries()[k] == before.entries()[k],
        keeps_newest(before.entries(), after.entries()),
{
}

proof fn lemma_id_key_injective(a: Seq<char>, b: Seq<char>)
    requires
        id_key(a) == id_key(b),
    ensures
        a == b,
{
    vstd::utf8::encode_utf8_decode_utf8(a);
    vstd::utf8::encode_utf8_decode_utf8(b);
}

/// Three entries with distinct ids and increasing timestamps, and nothing
/// else, are listed newest first: the third, the second, the first.
pub proof fn lemma_three_entries_listed_newest_first(
    m: Map<Seq<u8>, Seq<u8>>,
    e1: EntryView,
    e2: EntryView,
    e3: EntryView,
    es: Seq<EntryView>,
)
    requires
        m == Map::<Seq<u8>, Seq<u8>>::empty().insert(id_key(e1.id), encode_entry(e1)).insert(
            id_key(e2.id),
            encode_entry(e2),
        ).insert(id_key(e3.id), encode_entry(e3)),
        e1.id != e2.id,
        e2.id != e3.id,
        e1.id != e3.id,
        e1.timestamp < e2.timestamp < e3.timestamp,
        is_listing(m, es),
    ensures
        es == seq![e3, e2, e1],
{
    let (k1, k2, k3) = (id_key(e1.id), id_key(e2.id), id_key(e3.id));
    if k1 == k2 {
        lemma_id_key_injective(e1.id, e2.id);
    }
    if k2 == k3 {
        lemma_id_key_injective(e2.id, e3.id);
    }
    if k1 == k3 {
        lemma_id_key_injective(e1.id, e3.id);
    }
    assert(m.dom() =~= set![k1, k2, k3]);
    assert(m.len() == 3);
    let s = choose|s: Seq<(Seq<u8>, EntryView)>|
        #[trigger] keyed_listing(m, s) && es == listed_entries(s);
    assert(keyed_listing(m, s));
    assert(s.len() == 3);
    assert forall|i: int| 0 <= i < 3 implies (s[i].0 == k1 && s[i].1 == e1) || (s[i].0 == k2 && s[i].1 == e2) || (
    s[i].0 == k3 && s[i].1 == e3) by {
        assert(0 <= i < s.len());
        assert(m.contains_key(s[i].0));
        assert(decodes_to(m[s[i].0], s[i].1));
        if s[i].0 == k1 {
            assert(encode_entry(e1) == m[s[i].0]);
        } else if s[i].0 == k2 {
            assert(encode_entry(e2) == m[s[i].0]);
        } else {
            assert(encode_entry(e3) == m[s[i].0]);
        }
    }
    assert(listed_before(s[0], s[1]));
    assert(listed_before(s[1], s[2]));
    assert(listed_before(s[0], s[2]));
    assert(s[0].0 != s[1].0 && s[1].0 != s[2].0 && s[0].0 != s[2].0);
    assert(es[0] == s[0].1 && es[1] == s[1].1 && es[2] == s[2].1);
    assert(es =~= seq![e3, e2, e1]);
}

/// Pruning five entries with distinct ids and increasing timestamps to
/// three keeps exactly the three newest, unchanged.
pub proof fn lemma_prune_five_keeps_three_newest(
    before: Map<Seq<u8>, Seq<u8>>,
    after: Map<Seq<u8>, Seq<u8>>,
    e: Seq<EntryView>,
)
    requires
        e.len() == 5,
        forall|i: int, j: int| 0 <= i < j < 5 ==> e[i].id != e[j].id && e[i].timestamp < e[j].timestamp,
        before.dom() =~= Set::new(|k: Seq<u8>| exists|i: int| 0 <= i < 5 && k == id_key(e[i].id)),
        forall|i: int| 0 <= i < 5 ==> before[id_key(#[trigger] e[i].id)] == encode_entry(e[i]),
        before.dom().finite(),
        pruned(before, after, 3),
    ensures
        after.dom() =~= set![id_key(e[2].id), id_key(e[3].id), id_key(e[4].id)],
        forall|k: Seq<u8>| #[trigger] after.contains_key(k) ==> after[k] == before[k],
{
    let k = Seq::new(5, |i: int| id_key(e[i].id));
    assert forall|i: int, j: int| 0 <= i < j < 5 implies k[i] != k[j] by {
        if k[i] == k[j] {
            lemma_id_key_injective(e[i].id, e[j].id);
        }
    }
    assert(before.dom() =~= set![k[0], k[1], k[2], k[3], k[4]]) by {
        assert forall|x: Seq<u8>| before.dom().contains(x) implies set![k[0], k[1], k[2], k[3], k[4]].contains(x) by {
            let i = choose|i: int| 0 <= i < 5 && x == id_key(e[i].id);
        }
        assert forall|x: Seq<u8>| set![k[0], k[1], k[2], k[3], k[4]].contains(x) implies before.dom().contains(x) by {
            if x == k[0] { assert(x == id_key(e[0].id)); }
            if x == k[1] { assert(x == id_key(e[1].id)); }
            if x == k[2] { assert(x == id_key(e[2].id)); }
            if x == k[3] { assert(x == id_key(e[3].id)); }
            if x == k[4] { assert(x == id_key(e[4].id)); }
        }
    }
    assert(before.len() == 5);
    assert(after.len() == 3);
    assert(after.dom().subset_of(before.dom()));
    vstd::set_lib::lemma_len_subset(after.dom(), before.dom());
    // an old entry kept would push one of the three newest out
    assert forall|i: int| 0 <= i < 2 implies !after.contains_key(#[trigger] k[i]) by {
        if after.contains_key(k[i]) {
            if after.contains_key(k[2]) && after.contains_key(k[3]) && after.contains_key(k[4]) {
                vstd::set_lib::lemma_len_subset(set![k[i], k[2], k[3], k[4]], after.dom());
            } else {
                let j: int = if !after.contains_key(k[2]) { 2 } else if !after.contains_key(k[3]) { 3 } else { 4 };
                assert(before[k[i]] == encode_entry(e[i]));
                assert(before[k[j]] == encode_entry(e[j]));
                assert(after.contains_key(k[i]) && after.contains_key(k[j]));
            }
        }
    }
    assert forall|i: int| 2 <= i < 5 implies after.contains_key(#[trigger] k[i]) by {
        if !after.contains_key(k[i]) {
            let others = set![k[0], k[1], k[2], k[3], k[4]].remove(k[i]).remove(k[0]).remove(k[1]);
            assert(after.dom().subset_of(others));
            vstd::set_lib::lemma_len_subset(after.dom(), others);
        }
    }
}

} // verus!
