use argon2::password_hash::{PasswordHasher, SaltString};
use argon2::Argon2;
use chacha20poly1305::aead::rand_core::RngCore;
use chacha20poly1305::aead::{Aead, KeyInit, OsRng};
use chacha20poly1305::{XChaCha20Poly1305, XNonce};
use vstd::prelude::*;
use vstd::string::StringSliceAdditionalSpecFns;
use zeroize::Zeroize;

use crate::error::ClipError;

verus! {

/// Length of the master key in bytes.
pub const KEY_LEN: usize = 32;

/// Length of the random salt in bytes.
pub const SALT_LEN: usize = 16;

/// Salts shorter than this are refused before they reach Argon2.
pub const MIN_SALT_LEN: usize = 3;

/// Salts of this many bytes and more, up to `ARGON2_SALT_MAX`, always derive a key.
pub const ARGON2_SALT_MIN: usize = 8;

/// The longest salt that always derives a key.
pub const ARGON2_SALT_MAX: usize = 48;

/// The longest password, in bytes, that Argon2 accepts.
pub const ARGON2_PASSWORD_MAX: u64 = 0xFFFFFFFF;

/// Length of the nonce that opens every envelope.
pub const NONCE_LEN: usize = 24;

/// Length of the authentication tag that the cipher appends.
pub const TAG_LEN: usize = 16;

/// Plaintexts of this many bytes or more are refused by the cipher.
pub const PLAINTEXT_LIMIT: u64 = 274877906880;

#[verifier::external_type_specification]
#[verifier::external_body]
pub struct ExAeadError(chacha20poly1305::Error);

/// The Argon2id hash (default parameters, 32-byte output) of a password under
/// a salt, or `None` where the salt or password is refused.
pub uninterp spec fn argon2id_hash(password: Seq<u8>, salt: Seq<u8>) -> Option<Seq<u8>>;

/// XChaCha20-Poly1305 encryption of a plaintext under a key and nonce:
/// the ciphertext followed by the tag.
pub uninterp spec fn xchacha_seal(key: Seq<u8>, nonce: Seq<u8>, plaintext: Seq<u8>) -> Seq<u8>;

/// XChaCha20-Poly1305 decryption: the plaintext, or `None` where
/// authentication fails.
pub uninterp spec fn xchacha_open(key: Seq<u8>, nonce: Seq<u8>, sealed: Seq<u8>) -> Option<Seq<u8>>;

/// A 256-bit key; its bytes are overwritten with zeros when it is dropped.
pub struct MasterKey([u8; 32]);

impl View for MasterKey {
    type V = Seq<u8>;

    closed spec fn view(&self) -> Seq<u8> {
        self.0@
    }
}

impl MasterKey {
    pub fn as_bytes(&self) -> (r: &[u8; 32])
        ensures
            r@ == self@,
    {
        &self.0
    }

    pub fn from_bytes(bytes: [u8; 32]) -> (r: Self)
        ensures
            r@ == bytes@,
    {
        MasterKey(bytes)
    }
}

/// Relies on zeroize's impl for byte arrays: every byte is set to zero.
#[verifier::external_body]
fn wipe(bytes: &mut [u8; 32])
    ensures
        final(bytes)@ == Seq::new(32, |i: int| 0u8),
    opens_invariants none
    no_unwind
{
    bytes.zeroize();
}

impl Drop for MasterKey {
    fn drop(&mut self)
        opens_invariants none
        no_unwind
    {
        wipe(&mut self.0);
    }
}

/// Relies on OsRng::fill_bytes (rand_core, as re-exported by aead): `n`
/// bytes from the operating system's generator.
#[verifier::external_body]
fn os_random_bytes(n: usize) -> (r: Vec<u8>)
    ensures
        r@.len() == n,
{
    let mut v = vec![0u8; n];
    OsRng.fill_bytes(&mut v);
    v
}

/// Relies on SaltString::encode_b64 and Argon2::default().hash_password:
/// the raw hash bytes, or `None` where either refuses its input. A salt of
/// fewer than 3 bytes encodes to fewer than 4 base64 characters, on which
/// hash_password panics (SaltString::as_salt). A salt of 8 to 48 bytes (48
/// bytes fill the 64 characters of a SaltString) and a password of at most
/// 0xFFFFFFFF bytes pass Argon2's input checks, and the default parameters
/// give a 32-byte hash.
#[verifier::external_body]
fn argon2_hash(password: &[u8], salt: &[u8]) -> (r: Option<Vec<u8>>)
    requires
        salt@.len() >= MIN_SALT_LEN,
    ensures
        r is Some <==> argon2id_hash(password@, salt@) is Some,
        r is Some ==> r->Some_0@ == argon2id_hash(password@, salt@)->Some_0,
        ARGON2_SALT_MIN <= salt@.len() <= ARGON2_SALT_MAX && password@.len() <= ARGON2_PASSWORD_MAX
            ==> r is Some && r->Some_0@.len() == KEY_LEN,
{
    let salt_string = match SaltString::encode_b64(salt) {
        Ok(s) => s,
        Err(_) => return None,
    };
    match Argon2::default().hash_password(password, &salt_string) {
        Ok(h) => h.hash.map(|o| o.as_bytes().to_vec()),
        Err(_) => None,
    }
}

/// Relies on XChaCha20Poly1305::encrypt: the sealed text (ciphertext of the
/// plaintext's length, then the 16-byte tag), refused only for a plaintext of
/// `PLAINTEXT_LIMIT` bytes or more.
#[verifier::external_body]
fn aead_seal(key: &[u8; 32], nonce: &[u8], plaintext: &[u8]) -> (r: Result<Vec<u8>, chacha20poly1305::Error>)
    requires
        nonce@.len() == NONCE_LEN,
    ensures
        r is Ok <==> plaintext@.len() < PLAINTEXT_LIMIT,
        r is Ok ==> r->Ok_0@ == xchacha_seal(key@, nonce@, plaintext@),
        r is Ok ==> r->Ok_0@.len() == plaintext@.len() + TAG_LEN,
{
    let cipher = XChaCha20Poly1305::new(key.into());
    cipher.encrypt(XNonce::from_slice(nonce), plaintext)
}

/// Relies on XChaCha20Poly1305::decrypt: the plaintext where the tag
/// authenticates, and in particular the plaintext of any text that
/// XChaCha20Poly1305::encrypt sealed under the same key and nonce.
#[verifier::external_body]
fn aead_open(key: &[u8; 32], nonce: &[u8], sealed: &[u8]) -> (r: Result<Vec<u8>, chacha20poly1305::Error>)
    requires
        nonce@.len() == NONCE_LEN,
    ensures
        r is Ok <==> xchacha_open(key@, nonce@, sealed@) is Some,
        r is Ok ==> r->Ok_0@ == xchacha_open(key@, nonce@, sealed@)->Some_0,
        forall|p: Seq<u8>|
            p.len() < PLAINTEXT_LIMIT && #[trigger] xchacha_seal(key@, nonce@, p) == sealed@
                ==> r is Ok && r->Ok_0@ == p,
{
    let cipher = XChaCha20Poly1305::new(key.into());
    cipher.decrypt(XNonce::from_slice(nonce), sealed)
}

/// The key that a password and salt derive, if any.
pub open spec fn derived_key(password: Seq<u8>, salt: Seq<u8>) -> Option<Seq<u8>> {
    if salt.len() < MIN_SALT_LEN {
        None
    } else {
        match argon2id_hash(password, salt) {
            Some(h) => if h.len() == KEY_LEN { Some(h) } else { None },
            None => None,
        }
    }
}

/// What `derive_key` promises of its result.
pub open spec fn derive_key_ensures(password: Seq<u8>, salt: Seq<u8>, r: Result<MasterKey, ClipError>) -> bool {
    &&& r is Ok <==> derived_key(password, salt) is Some
    &&& r is Ok ==> r->Ok_0@ == derived_key(password, salt)->Some_0
    &&& r is Err ==> r->Err_0 == ClipError::KeyDerivation
    &&& ARGON2_SALT_MIN <= salt.len() <= ARGON2_SALT_MAX && password.len() <= ARGON2_PASSWORD_MAX ==> r is Ok
}

/// New master passwords must have at least this many bytes.
pub const MIN_PASSWORD_LEN: usize = 8;

/// Whether `password` is long enough to become a master password.
pub fn password_long_enough(password: &str) -> (r: bool)
    ensures
        r == (password.spec_bytes().len() >= MIN_PASSWORD_LEN),
{
    password.as_bytes().len() >= MIN_PASSWORD_LEN
}

/// A fresh random salt.
pub fn generate_salt() -> (r: [u8; 16]) {
    let v = os_random_bytes(SALT_LEN);
    let mut salt = [0u8; 16];
    let mut i: usize = 0;
    while i < SALT_LEN
        invariant
            v@.len() == SALT_LEN,
        decreases SALT_LEN - i,
    {
        salt[i] = v[i];
        i = i + 1;
    }
    salt
}

/// Derives the master key from a password and salt with Argon2id.
pub fn derive_key(password: &str, salt: &[u8]) -> (r: Result<MasterKey, ClipError>)
    ensures
        derive_key_ensures(password.spec_bytes(), salt@, r),
{
    if salt.len() < MIN_SALT_LEN {
        return Err(ClipError::KeyDerivation);
    }
    let hash = match argon2_hash(password.as_bytes(), salt) {
        Some(h) => h,
        None => return Err(ClipError::KeyDerivation),
    };
    if hash.len() != KEY_LEN {
        return Err(ClipError::KeyDerivation);
    }
    let mut key = [0u8; 32];
    let mut i: usize = 0;
    while i < KEY_LEN
        invariant
            hash@.len() == KEY_LEN,
            forall|j: int| 0 <= j < i ==> key@[j] == hash@[j],
        decreases KEY_LEN - i,
    {
        key[i] = hash[i];
        i = i + 1;
    }
    assert(key@ =~= hash@);
    Ok(MasterKey(key))
}

/// The envelope of a plaintext under a key and nonce: the nonce, then the sealed text.
pub open spec fn envelope(key: Seq<u8>, nonce: Seq<u8>, plaintext: Seq<u8>) -> Seq<u8> {
    nonce + xchacha_seal(key, nonce, plaintext)
}

/// What `encrypt` promises of its result: an envelope under some nonce.
pub open spec fn encrypt_ensures(key: Seq<u8>, plaintext: Seq<u8>, r: Result<Vec<u8>, ClipError>) -> bool {
    &&& r is Ok <==> plaintext.len() < PLAINTEXT_LIMIT
    &&& r is Ok ==> r->Ok_0@.len() == NONCE_LEN + plaintext.len() + TAG_LEN && r->Ok_0@ == envelope(
        key,
        r->Ok_0@.subrange(0, NONCE_LEN as int),
        plaintext,
    )
    &&& r is Err ==> r->Err_0 == ClipError::Encryption
}

/// What `decrypt` promises of its result.
pub open spec fn decrypt_ensures(key: Seq<u8>, blob: Seq<u8>, r: Result<Vec<u8>, ClipError>) -> bool {
    &&& blob.len() < NONCE_LEN ==> r == Err::<Vec<u8>, ClipError>(ClipError::Decryption)
    &&& blob.len() >= NONCE_LEN ==> {
        let opened = xchacha_open(
            key,
            blob.subrange(0, NONCE_LEN as int),
            blob.subrange(NONCE_LEN as int, blob.len() as int),
        );
        &&& r is Ok <==> opened is Some
        &&& r is Ok ==> r->Ok_0@ == opened->Some_0
    }
    &&& r is Err ==> r->Err_0 == ClipError::Decryption
    &&& forall|nonce: Seq<u8>, p: Seq<u8>|
        nonce.len() == NONCE_LEN && p.len() < PLAINTEXT_LIMIT && #[trigger] envelope(key, nonce, p) == blob
            ==> r is Ok && r->Ok_0@ == p
}

/// Seals `plaintext` under `key` with the given nonce; the result is the
/// nonce followed by the sealed text.
pub fn encrypt_with_nonce(key: &MasterKey, nonce: &[u8; 24], plaintext: &[u8]) -> (r: Result<Vec<u8>, ClipError>)
    ensures
        r is Ok <==> plaintext@.len() < PLAINTEXT_LIMIT,
        r is Ok ==> r->Ok_0@ == envelope(key@, nonce@, plaintext@),
        r is Ok ==> r->Ok_0@.len() == NONCE_LEN + plaintext@.len() + TAG_LEN,
        r is Err ==> r->Err_0 == ClipError::Encryption,
{
    let sealed = match aead_seal(key.as_bytes(), nonce.as_slice(), plaintext) {
        Ok(s) => s,
        Err(_) => return Err(ClipError::Encryption),
    };
    let mut out: Vec<u8> = Vec::new();
    out.extend_from_slice(nonce.as_slice());
    out.extend_from_slice(sealed.as_slice());
    assert(out@ =~= envelope(key@, nonce@, plaintext@));
    Ok(out)
}

/// Seals `plaintext` under `key` with a fresh random nonce.
pub fn encrypt(key: &MasterKey, plaintext: &[u8]) -> (r: Result<Vec<u8>, ClipError>)
    ensures
        encrypt_ensures(key@, plaintext@, r),
{
    let v = os_random_bytes(NONCE_LEN);
    let mut nonce = [0u8; 24];
    let mut i: usize = 0;
    while i < NONCE_LEN
        invariant
            v@.len() == NONCE_LEN,
        decreases NONCE_LEN - i,
    {
        nonce[i] = v[i];
        i = i + 1;
    }
    let r = encrypt_with_nonce(key, &nonce, plaintext);
    proof {
        if r is Ok {
            assert(r->Ok_0@.subrange(0, NONCE_LEN as int) =~= nonce@);
        }
    }
    r
}

/// Opens an envelope made by `encrypt`: fails when it is shorter than a
/// nonce or when authentication fails.
pub fn decrypt(key: &MasterKey, encrypted: &[u8]) -> (r: Result<Vec<u8>, ClipError>)
    ensures
        decrypt_ensures(key@, encrypted@, r),
{
    if encrypted.len() < NONCE_LEN {
        return Err(ClipError::Decryption);
    }
    let (nonce, sealed) = encrypted.split_at(NONCE_LEN);
    let r = match aead_open(key.as_bytes(), nonce, sealed) {
        Ok(p) => Ok(p),
        Err(_) => Err(ClipError::Decryption),
    };
    proof {
        assert forall|n: Seq<u8>, p: Seq<u8>|
            n.len() == NONCE_LEN && p.len() < PLAINTEXT_LIMIT && #[trigger] envelope(key@, n, p) == encrypted@
            implies r is Ok && r->Ok_0@ == p by {
            assert(n =~= encrypted@.subrange(0, NONCE_LEN as int));
            assert(xchacha_seal(key@, n, p) =~= encrypted@.subrange(NONCE_LEN as int, encrypted@.len() as int));
        }
    }
    r
}

/// Decrypting an envelope that `encrypt` made under the same key gives back
/// the plaintext.
pub proof fn lemma_round_trip(
    key: Seq<u8>,
    plaintext: Seq<u8>,
    sealed: Result<Vec<u8>, ClipError>,
    opened: Result<Vec<u8>, ClipError>,
)
    requires
        sealed is Ok,
        encrypt_ensures(key, plaintext, sealed),
        decrypt_ensures(key, sealed->Ok_0@, opened),
    ensures
        opened is Ok,
        opened->Ok_0@ == plaintext,
{
    let n = sealed->Ok_0@.subrange(0, NONCE_LEN as int);
    assert(envelope(key, n, plaintext) == sealed->Ok_0@);
}

/// Key derivation depends on the password and the salt alone: two
/// derivations from the same inputs give the same outcome and the same key.
pub proof fn lemma_derive_key_deterministic(
    password: Seq<u8>,
    salt: Seq<u8>,
    first: Result<MasterKey, ClipError>,
    second: Result<MasterKey, ClipError>,
)
    requires
        derive_key_ensures(password, salt, first),
        derive_key_ensures(password, salt, second),
    ensures
        first is Ok <==> second is Ok,
        first is Ok ==> first->Ok_0@ == second->Ok_0@,
{
}

} // verus!
