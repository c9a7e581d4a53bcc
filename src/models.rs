use base64::engine::general_purpose;
use base64::Engine;
use vstd::bytes::*;
use vstd::prelude::*;
use vstd::slice::*;
use vstd::string::*;
use vstd::utf8::*;

verus! {


/// Kind of clipboard content that an entry holds.
#[derive(Debug, Clone, Copy, PartialEq, Eq, Structural)]
pub enum ClipboardContentType {
    Text,
    Image,
}

/// The discriminant that records a content type.
pub open spec fn content_tag(t: ClipboardContentType) -> u32 {
    match t {
        ClipboardContentType::Text => 0,
        ClipboardContentType::Image => 1,
    }
}

/// A length-prefixed byte field: the length as 8 little-endian bytes, then the bytes.
pub open spec fn framed(b: Seq<u8>) -> Seq<u8> {
    spec_u64_to_le_bytes(b.len() as u64) + b
}

/// An RGBA image as taken from the clipboard.
#[derive(Debug, Clone)]
pub struct ImageData {
    pub width: usize,
    pub height: usize,
    pub bytes: Vec<u8>,
}

/// The canonical byte form of an image: width and height as 8 little-endian
/// bytes each, then the pixel bytes as a length-prefixed field.
pub open spec fn image_encoding(width: usize, height: usize, bytes: Seq<u8>) -> Seq<u8> {
    spec_u64_to_le_bytes(width as u64) + spec_u64_to_le_bytes(height as u64) + framed(bytes)
}

/// Appends a length-prefixed field to `out`.
pub(crate) fn push_framed(out: &mut Vec<u8>, b: &[u8])
    ensures
        final(out)@ == old(out)@ + framed(b@),
{
    let len = u64_to_le_bytes(b.len() as u64);
    out.extend_from_slice(len.as_slice());
    out.extend_from_slice(b);
    assert(final(out)@ =~= old(out)@ + framed(b@));
}

/// Reads a length-prefixed field that starts at `pos`: its bytes and the
/// position after it.
pub(crate) fn read_framed(b: &[u8], pos: usize) -> (r: Option<(Vec<u8>, usize)>)
    requires
        pos <= b@.len(),
    ensures
        r is Some ==> {
            let (v, next) = r->Some_0;
            &&& pos <= next <= b@.len()
            &&& b@.subrange(pos as int, next as int) == framed(v@)
        },
        forall|s: Seq<u8>|
            pos + 8 + s.len() <= b@.len() && #[trigger] framed(s) == b@.subrange(
                pos as int,
                pos + 8 + s.len() as int,
            ) ==> r is Some && r->Some_0.0@ == s && r->Some_0.1 == pos + 8 + s.len() as int,
{
    proof {
        lemma_auto_spec_u64_to_from_le_bytes();
    }
    if b.len() - pos < 8 {
        proof {
            assert forall|s: Seq<u8>|
                !(pos + 8 + s.len() <= b@.len() && #[trigger] framed(s) == b@.subrange(
                    pos as int,
                    pos + 8 + s.len() as int,
                )) by {}
        }
        return None;
    }
    let head = slice_subrange(b, pos, pos + 8);
    let n = u64_from_le_bytes(head);
    let start = pos + 8;
    if n > (b.len() - start) as u64 {
        proof {
            assert forall|s: Seq<u8>|
                !(pos + 8 + s.len() <= b@.len() && #[trigger] framed(s) == b@.subrange(
                    pos as int,
                    pos + 8 + s.len() as int,
                )) by {
                if pos + 8 + s.len() <= b@.len() && framed(s) == b@.subrange(pos as int, pos + 8 + s.len() as int) {
                    assert(framed(s).subrange(0, 8) =~= spec_u64_to_le_bytes(s.len() as u64));
                    assert(head@ =~= b@.subrange(pos as int, pos + 8));
                    assert(head@ =~= framed(s).subrange(0, 8));
                }
            }
        }
        return None;
    }
    let end = start + n as usize;
    let v = slice_to_vec(slice_subrange(b, start, end));
    proof {
        assert(spec_u64_to_le_bytes(v@.len() as u64) == head@);
        assert(b@.subrange(pos as int, end as int) =~= framed(v@));
        assert forall|s: Seq<u8>|
            pos + 8 + s.len() <= b@.len() && #[trigger] framed(s) == b@.subrange(
                pos as int,
                pos + 8 + s.len() as int,
            ) implies v@ == s && end == pos + 8 + s.len() by {
            assert(framed(s).subrange(0, 8) =~= spec_u64_to_le_bytes(s.len() as u64));
            assert(head@ =~= framed(s).subrange(0, 8));
            assert(s =~= framed(s).subrange(8, 8 + s.len() as int));
            assert(v@ =~= b@.subrange(pos + 8, pos + 8 + s.len() as int));
        }
    }
    Some((v, end))
}

impl ImageData {
    pub fn new(width: usize, height: usize, bytes: Vec<u8>) -> (r: Self)
        ensures
            r.width == width,
            r.height == height,
            r.bytes@ == bytes@,
    {
        ImageData { width, height, bytes }
    }

    /// The canonical byte form, over which an image's hash is taken.
    pub fn to_bytes(&self) -> (r: Vec<u8>)
        ensures
            r@ == image_encoding(self.width, self.height, self.bytes@),
    {
        let mut out = u64_to_le_bytes(self.width as u64);
        let h = u64_to_le_bytes(self.height as u64);
        out.extend_from_slice(h.as_slice());
        push_framed(&mut out, self.bytes.as_slice());
        assert(out@ =~= image_encoding(self.width, self.height, self.bytes@));
        out
    }

    /// Reads an image back from its canonical byte form.
    pub fn from_bytes(b: &[u8]) -> (r: Option<ImageData>)
        ensures
            r is Some ==> image_encoding(r->Some_0.width, r->Some_0.height, r->Some_0.bytes@) == b@,
            forall|w: usize, h: usize, px: Seq<u8>|
                #[trigger] image_encoding(w, h, px) == b@ ==> r is Some && r->Some_0.width == w
                    && r->Some_0.height == h && r->Some_0.bytes@ == px,
    {
        proof {
            lemma_auto_spec_u64_to_from_le_bytes();
        }
        if b.len() < 16 {
            return None;
        }
        let w = u64_from_le_bytes(slice_subrange(b, 0, 8));
        let h = u64_from_le_bytes(slice_subrange(b, 8, 16));
        if w > usize::MAX as u64 || h > usize::MAX as u64 {
            proof {
                assert forall|w2: usize, h2: usize, px2: Seq<u8>|
                    !(#[trigger] image_encoding(w2, h2, px2) == b@) by {
                    if image_encoding(w2, h2, px2) == b@ {
                        let e = image_encoding(w2, h2, px2);
                        assert(e.subrange(0, 8) =~= spec_u64_to_le_bytes(w2 as u64));
                        assert(e.subrange(8, 16) =~= spec_u64_to_le_bytes(h2 as u64));
                    }
                }
            }
            return None;
        }
        let (px, next) = match read_framed(b, 16) {
            Some(x) => x,
            None => {
                proof {
                    assert forall|w: usize, h: usize, px: Seq<u8>|
                        !(#[trigger] image_encoding(w, h, px) == b@) by {
                        if image_encoding(w, h, px) == b@ {
                            assert(framed(px) =~= b@.subrange(16, 16 + 8 + px.len() as int));
                        }
                    }
                }
                return None;
            }
        };
        if next != b.len() {
            proof {
                assert forall|w: usize, h: usize, px2: Seq<u8>|
                    !(#[trigger] image_encoding(w, h, px2) == b@) by {
                    if image_encoding(w, h, px2) == b@ {
                        assert(framed(px2) =~= b@.subrange(16, 16 + 8 + px2.len() as int));
                    }
                }
            }
            return None;
        }
        let img = ImageData { width: w as usize, height: h as usize, bytes: px };
        proof {
            assert(b@.subrange(0, 8) == spec_u64_to_le_bytes(w));
            assert(b@.subrange(8, 16) == spec_u64_to_le_bytes(h));
            assert(b@ =~= b@.subrange(0, 8) + b@.subrange(8, 16) + b@.subrange(16, b@.len() as int));
            assert forall|w2: usize, h2: usize, px2: Seq<u8>|
                #[trigger] image_encoding(w2, h2, px2) == b@ implies w as usize == w2 && h as usize == h2
                    && px@ == px2 by {
                let e = image_encoding(w2, h2, px2);
                assert(e.subrange(0, 8) =~= spec_u64_to_le_bytes(w2 as u64));
                assert(e.subrange(8, 16) =~= spec_u64_to_le_bytes(h2 as u64));
                assert(framed(px2) =~= b@.subrange(16, 16 + 8 + px2.len() as int));
            }
        }
        Some(img)
    }
}


/// The character of a decimal digit.
pub open spec fn digit_char(d: nat) -> char {
    ((d + 48) as u8) as char
}

/// The decimal numeral of a natural number, without leading zeros.
pub open spec fn decimal(n: nat) -> Seq<char>
    decreases n,
{
    if n < 10 {
        seq![digit_char(n)]
    } else {
        decimal(n / 10) + seq![digit_char(n % 10)]
    }
}

/// The decimal numeral of an integer, with a leading '-' when negative.
pub open spec fn signed_decimal(n: int) -> Seq<char> {
    if n < 0 {
        seq!['-'] + decimal((-n) as nat)
    } else {
        decimal(n as nat)
    }
}

/// The identifier of an entry made at `millis` with random suffix `nonce`:
/// `{millis}-{nonce}`.
pub open spec fn entry_id(millis: i64, nonce: u32) -> Seq<char> {
    signed_decimal(millis as int) + seq!['-'] + decimal(nonce as nat)
}

pub open spec fn ascii_bytes(c: Seq<char>) -> Seq<u8> {
    c.map_values(|ch: char| ch as u8)
}

proof fn lemma_decimal_ascii(n: nat)
    ensures
        is_ascii_chars(decimal(n)),
    decreases n,
{
    if n >= 10 {
        lemma_decimal_ascii(n / 10);
        assert(is_ascii_chars(decimal(n)));
    }
}

/// Relies on String::from_utf8: the string that valid UTF-8 bytes spell,
/// and `None` for invalid ones.
#[verifier::external_body]
pub(crate) fn utf8_string(b: &[u8]) -> (r: Option<String>)
    ensures
        r is Some <==> valid_utf8(b@),
        r is Some ==> r->Some_0@ == decode_utf8(b@),
{
    String::from_utf8(b.to_vec()).ok()
}

/// Appends the decimal digits of `n` to `out`.
fn push_decimal(out: &mut Vec<u8>, n: u64)
    ensures
        final(out)@ == old(out)@ + ascii_bytes(decimal(n as nat)),
    decreases n,
{
    if n >= 10 {
        push_decimal(out, n / 10);
    }
    let d = (n % 10) as u8;
    out.push(d + 48);
    proof {
        if n >= 10 {
            assert(ascii_bytes(decimal(n as nat)) =~= ascii_bytes(decimal((n / 10) as nat)) + seq![(d + 48) as u8]);
        } else {
            assert(ascii_bytes(decimal(n as nat)) =~= seq![(d + 48) as u8]);
        }
        assert(final(out)@ =~= old(out)@ + ascii_bytes(decimal(n as nat)));
    }
}

/// Turns ASCII bytes, known to spell `chars`, into a string.
fn ascii_string(b: &Vec<u8>, Ghost(chars): Ghost<Seq<char>>) -> (r: String)
    requires
        is_ascii_chars(chars),
        b@ == ascii_bytes(chars),
    ensures
        r@ == chars,
{
    broadcast use is_ascii_chars_encode_utf8, encode_utf8_decode_utf8, encode_utf8_valid_utf8;

    proof {
        assert(encode_utf8(chars) =~= b@);
    }
    match utf8_string(b.as_slice()) {
        Some(s) => s,
        None => {
            proof {
                assert(false);
            }
            String::new()
        }
    }
}

/// The decimal numeral of `n`.
pub fn signed_decimal_string(n: i64) -> (r: String)
    ensures
        r@ == signed_decimal(n as int),
{
    let mut out: Vec<u8> = Vec::new();
    if n < 0 {
        out.push(45u8);
        let mag = (0i128 - n as i128) as u64;
        push_decimal(&mut out, mag);
    } else {
        push_decimal(&mut out, n as u64);
    }
    proof {
        lemma_decimal_ascii((if n < 0 { -n } else { n as int }) as nat);
        assert(out@ =~= ascii_bytes(signed_decimal(n as int)));
    }
    ascii_string(&out, Ghost(signed_decimal(n as int)))
}

/// The identifier `{millis}-{nonce}`.
pub fn make_entry_id(millis: i64, nonce: u32) -> (r: String)
    ensures
        r@ == entry_id(millis, nonce),
{
    let mut out: Vec<u8> = Vec::new();
    if millis < 0 {
        out.push(45u8);
        let mag = (0i128 - millis as i128) as u64;
        push_decimal(&mut out, mag);
    } else {
        push_decimal(&mut out, millis as u64);
    }
    out.push(45u8);
    push_decimal(&mut out, nonce as u64);
    proof {
        lemma_decimal_ascii((if millis < 0 { -millis } else { millis as int }) as nat);
        lemma_decimal_ascii(nonce as nat);
        assert(out@ =~= ascii_bytes(entry_id(millis, nonce)));
    }
    ascii_string(&out, Ghost(entry_id(millis, nonce)))
}


/// A stored clipboard capture. `payload` is the envelope (nonce, then sealed
/// text) of the plaintext, and `hash` the hex SHA-256 of the plaintext.
#[derive(Debug, Clone)]
pub struct ClipboardEntry {
    pub id: String,
    /// Milliseconds since the Unix epoch, UTC.
    pub timestamp: i64,
    pub content_type: ClipboardContentType,
    pub payload: Vec<u8>,
    pub hash: String,
}

/// The value of an entry.
pub struct EntryView {
    pub id: Seq<char>,
    pub timestamp: i64,
    pub content_type: ClipboardContentType,
    pub payload: Seq<u8>,
    pub hash: Seq<char>,
}

impl View for ClipboardEntry {
    type V = EntryView;

    open spec fn view(&self) -> EntryView {
        EntryView {
            id: self.id@,
            timestamp: self.timestamp,
            content_type: self.content_type,
            payload: self.payload@,
            hash: self.hash@,
        }
    }
}

/// The record layout of an entry: the id as a length-prefixed UTF-8 field,
/// the timestamp as 8 little-endian bytes (two's complement), the content
/// type as 4 little-endian bytes, then the payload and the hash as
/// length-prefixed fields.
pub open spec fn encode_entry(e: EntryView) -> Seq<u8> {
    framed(encode_utf8(e.id)) + spec_u64_to_le_bytes(e.timestamp as u64) + spec_u32_to_le_bytes(
        content_tag(e.content_type),
    ) + framed(e.payload) + framed(encode_utf8(e.hash))
}

/// How the record `b` of `e` splits into its fields.
pub open spec fn entry_layout(e: EntryView, b: Seq<u8>) -> bool {
    let i = encode_utf8(e.id);
    let p1 = 8 + i.len() as int;
    let p2 = p1 + 12 + 8 + e.payload.len() as int;
    &&& b.subrange(0, p1) == framed(i)
    &&& b.subrange(p1, p1 + 8) == spec_u64_to_le_bytes(e.timestamp as u64)
    &&& b.subrange(p1 + 8, p1 + 12) == spec_u32_to_le_bytes(content_tag(e.content_type))
    &&& b.subrange(p1 + 12, p2) == framed(e.payload)
    &&& b.subrange(p2, b.len() as int) == framed(encode_utf8(e.hash))
    &&& b.len() == p2 + 8 + encode_utf8(e.hash).len()
}

proof fn lemma_entry_layout(e: EntryView)
    ensures
        entry_layout(e, encode_entry(e)),
{
    lemma_auto_spec_u64_to_from_le_bytes();
    lemma_auto_spec_u32_to_from_le_bytes();
    let b = encode_entry(e);
    let i = encode_utf8(e.id);
    let p1 = 8 + i.len() as int;
    let p2 = p1 + 12 + 8 + e.payload.len() as int;
    assert(b.subrange(0, p1) =~= framed(i));
    assert(b.subrange(p1, p1 + 8) =~= spec_u64_to_le_bytes(e.timestamp as u64));
    assert(b.subrange(p1 + 8, p1 + 12) =~= spec_u32_to_le_bytes(content_tag(e.content_type)));
    assert(b.subrange(p1 + 12, p2) =~= framed(e.payload));
    assert(b.subrange(p2, b.len() as int) =~= framed(encode_utf8(e.hash)));
}

proof fn lemma_i64_u64_round_trip(t: i64, x: u64)
    ensures
        ((t as u64) as i64) == t,
        ((x as i64) as u64) == x,
{
    assert(((t as u64) as i64) == t) by (bit_vector);
    assert(((x as i64) as u64) == x) by (bit_vector);
}

/// Relies on chrono: DateTime::from_timestamp_millis, then format with
/// "%Y-%m-%d %H:%M:%S"; `None` outside chrono's range of dates.
#[verifier::external_body]
fn utc_text(millis: i64) -> (r: Option<String>)
    ensures
        r is Some <==> utc_seconds_text(millis) is Some,
        r is Some ==> r->Some_0@ == utc_seconds_text(millis)->Some_0,
{
    chrono::DateTime::from_timestamp_millis(millis).map(|d| d.format("%Y-%m-%d %H:%M:%S").to_string())
}

/// The UTC date and time of a millisecond timestamp as
/// `YYYY-MM-DD HH:MM:SS`, if the date is in range.
pub uninterp spec fn utc_seconds_text(millis: i64) -> Option<Seq<char>>;

/// Relies on chrono's Utc::now().timestamp_millis(): the current time.
#[verifier::external_body]
fn now_millis() -> (r: i64) {
    chrono::Utc::now().timestamp_millis()
}

/// Relies on rand::random::<u32>(): a random number.
#[verifier::external_body]
fn random_u32() -> (r: u32) {
    rand::random::<u32>()
}

/// The standard base64 text (with padding) of a byte sequence.
pub uninterp spec fn base64_standard(b: Seq<u8>) -> Seq<char>;

/// Relies on base64's STANDARD engine, encode.
#[verifier::external_body]
pub(crate) fn base64_encode(b: &[u8]) -> (r: String)
    ensures
        r@ == base64_standard(b@),
{
    general_purpose::STANDARD.encode(b)
}

/// Relies on base64's STANDARD engine, decode: it requires canonical padding
/// and no trailing bits, so it accepts exactly the texts that encode gives,
/// and returns the bytes they encode.
#[verifier::external_body]
pub(crate) fn base64_decode(s: &str) -> (r: Option<Vec<u8>>)
    ensures
        r is Some ==> base64_standard(r->Some_0@) == s@,
        forall|b: Seq<u8>| #[trigger] base64_standard(b) == s@ ==> r is Some && r->Some_0@ == b,
{
    general_purpose::STANDARD.decode(s).ok()
}

/// The display name of a content type.
pub open spec fn content_label(t: ClipboardContentType) -> Seq<char> {
    match t {
        ClipboardContentType::Text => "Text"@,
        ClipboardContentType::Image => "Image"@,
    }
}

/// The one-line summary of an entry: `[{time}] {id} - {type}`.
pub open spec fn preview_text(e: EntryView) -> Seq<char> {
    let time = match utc_seconds_text(e.timestamp) {
        Some(t) => t,
        None => signed_decimal(e.timestamp as int),
    };
    "["@ + time + "] "@ + e.id + " - "@ + content_label(e.content_type)
}

impl ClipboardEntry {
    /// An entry with every part given.
    pub fn new_at(
        content_type: ClipboardContentType,
        payload: Vec<u8>,
        hash: String,
        timestamp: i64,
        nonce: u32,
    ) -> (r: Self)
        ensures
            r.id@ == entry_id(timestamp, nonce),
            r.timestamp == timestamp,
            r.content_type == content_type,
            r.payload@ == payload@,
            r.hash@ == hash@,
    {
        let id = make_entry_id(timestamp, nonce);
        ClipboardEntry { id, timestamp, content_type, payload, hash }
    }

    /// A new entry stamped with the current time, its id made of that time
    /// and a random number.
    pub fn new(content_type: ClipboardContentType, payload: Vec<u8>, hash: String) -> (r: Self)
        ensures
            exists|nonce: u32| r.id@ == entry_id(r.timestamp, nonce),
            r.content_type == content_type,
            r.payload@ == payload@,
            r.hash@ == hash@,
    {
        let timestamp = now_millis();
        let nonce = random_u32();
        Self::new_at(content_type, payload, hash, timestamp, nonce)
    }

    /// A summary of the entry for display; nothing is decrypted.
    pub fn preview(&self) -> (r: String)
        ensures
            r@ == preview_text(self@),
    {
        let time = match utc_text(self.timestamp) {
            Some(t) => t,
            None => signed_decimal_string(self.timestamp),
        };
        let mut s = String::from_str("[");
        s.append(time.as_str());
        s.append("] ");
        s.append(self.id.as_str());
        s.append(" - ");
        match self.content_type {
            ClipboardContentType::Text => s.append("Text"),
            ClipboardContentType::Image => s.append("Image"),
        }
        s
    }

    /// The record bytes of the entry.
    pub fn to_bytes(&self) -> (r: Vec<u8>)
        ensures
            r@ == encode_entry(self@),
    {
        let mut out: Vec<u8> = Vec::new();
        push_framed(&mut out, self.id.as_str().as_bytes());
        let ts = u64_to_le_bytes(self.timestamp as u64);
        out.extend_from_slice(ts.as_slice());
        let tag: u32 = match self.content_type {
            ClipboardContentType::Text => 0,
            ClipboardContentType::Image => 1,
        };
        let t = u32_to_le_bytes(tag);
        out.extend_from_slice(t.as_slice());
        push_framed(&mut out, self.payload.as_slice());
        push_framed(&mut out, self.hash.as_str().as_bytes());
        assert(out@ =~= encode_entry(self@));
        out
    }

    /// Reads an entry back from its record bytes.
    #[verifier::rlimit(60)]
    pub fn from_bytes(b: &[u8]) -> (r: Option<ClipboardEntry>)
        ensures
            r is Some ==> encode_entry(r->Some_0@) == b@,
            forall|e: EntryView| #[trigger] encode_entry(e) == b@ ==> r is Some && r->Some_0@ == e,
    {
        broadcast use encode_utf8_valid_utf8, encode_utf8_decode_utf8, decode_utf8_encode_utf8;

        proof {
            lemma_auto_spec_u64_to_from_le_bytes();
            lemma_auto_spec_u32_to_from_le_bytes();
            assert forall|e: EntryView| #[trigger] encode_entry(e) == b@ implies entry_layout(e, b@) by {
                lemma_entry_layout(e);
            }
        }
        let (id_bytes, p1) = match read_framed(b, 0) {
            Some(x) => x,
            None => return None,
        };
        let id = match utf8_string(id_bytes.as_slice()) {
            Some(s) => s,
            None => return None,
        };
        if b.len() - p1 < 12 {
            return None;
        }
        let ts_raw = u64_from_le_bytes(slice_subrange(b, p1, p1 + 8));
        let tag = u32_from_le_bytes(slice_subrange(b, p1 + 8, p1 + 12));
        let content_type = if tag == 0 {
            ClipboardContentType::Text
        } else if tag == 1 {
            ClipboardContentType::Image
        } else {
            return None;
        };
        let (payload, p2) = match read_framed(b, p1 + 12) {
            Some(x) => x,
            None => return None,
        };
        let (hash_bytes, p3) = match read_framed(b, p2) {
            Some(x) => x,
            None => return None,
        };
        let hash = match utf8_string(hash_bytes.as_slice()) {
            Some(s) => s,
            None => return None,
        };
        if p3 != b.len() {
            return None;
        }
        let entry = ClipboardEntry { id, timestamp: ts_raw as i64, content_type, payload, hash };
        proof {
            lemma_i64_u64_round_trip(0, ts_raw);
            assert(b@.subrange(p1 as int, p1 + 8) == spec_u64_to_le_bytes(ts_raw));
            assert(b@.subrange(p1 + 8, p1 + 12) == spec_u32_to_le_bytes(tag));
            assert(b@ =~= b@.subrange(0, p1 as int) + b@.subrange(p1 as int, p1 + 8) + b@.subrange(
                p1 + 8,
                p1 + 12,
            ) + b@.subrange(p1 + 12, p2 as int) + b@.subrange(p2 as int, p3 as int));
            assert(encode_entry(entry@) =~= b@);
            assert forall|e: EntryView| #[trigger] encode_entry(e) == b@ implies entry@ == e by {
                lemma_i64_u64_round_trip(e.timestamp, 0);
            }
        }
        Some(entry)
    }

    /// The entry as text for the wire: its record bytes in base64.
    pub fn to_compressed_string(&self) -> (r: String)
        ensures
            r@ == base64_standard(encode_entry(self@)),
    {
        let b = self.to_bytes();
        base64_encode(b.as_slice())
    }

    /// Reads an entry from its wire text.
    pub fn from_compressed_string(s: &str) -> (r: Option<ClipboardEntry>)
        ensures
            r is Some ==> base64_standard(encode_entry(r->Some_0@)) == s@,
            forall|e: EntryView| #[trigger] base64_standard(encode_entry(e)) == s@ ==> r is Some && r->Some_0@ == e,
    {
        match base64_decode(s) {
            Some(b) => Self::from_bytes(b.as_slice()),
            None => None,
        }
    }
}

} // verus!
