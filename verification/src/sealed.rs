//! Encrypted archives of a scope or a whole project: AES-256-GCM under a key that
//! PBKDF2-HMAC-SHA256 derives from the master secret and a random salt.
use vstd::prelude::*;

use base64::Engine;
use ring::rand::SecureRandom;

use crate::keychain::ScopeSecrets;
use crate::strmap::StrMap;
use crate::text::{copy_str, str_eq};

verus! {

broadcast use vstd::string::group_string_axioms;

/// An archive file as it is written: every binary field in standard base64.
#[derive(Clone, Debug)]
pub struct SealedScopeFile {
    pub format: String,
    pub version: u32,
    pub salt: String,
    pub nonce: String,
    pub ciphertext: String,
}

/// What an archive holds: one scope's secrets, or every environment of a project.
pub enum SealedScopePayload {
    Scope { project: String, env: String, secrets: ScopeSecrets },
    Project { project: String, envs: StrMap<ScopeSecrets> },
}

/// A field of an archive file.
#[derive(Clone, Copy, Debug, PartialEq, Eq, Structural)]
pub enum SealedField {
    Salt,
    Nonce,
    Ciphertext,
}

/// Why sealing or opening an archive failed.
#[derive(Clone, Debug)]
pub enum SealError {
    /// The master secret is empty.
    EmptyMasterSecret,
    /// The system's random number generator failed.
    RandomFailure,
    /// Encryption failed.
    EncryptFailure,
    /// The file names another format.
    UnsupportedFormat(String),
    /// The file has another version.
    UnsupportedVersion(u32),
    /// A field is not valid base64.
    InvalidEncoding(SealedField),
    /// A field decodes to the wrong number of bytes.
    InvalidLength(SealedField),
    /// Decryption failed: wrong master secret, or the file was altered.
    DecryptFailure,
}

/// [`SealError`] with its text as character sequences.
pub enum SealErrorView {
    EmptyMasterSecret,
    RandomFailure,
    EncryptFailure,
    UnsupportedFormat(Seq<char>),
    UnsupportedVersion(u32),
    InvalidEncoding(SealedField),
    InvalidLength(SealedField),
    DecryptFailure,
}

impl View for SealError {
    type V = SealErrorView;

    open spec fn view(&self) -> SealErrorView {
        match self {
            SealError::EmptyMasterSecret => SealErrorView::EmptyMasterSecret,
            SealError::RandomFailure => SealErrorView::RandomFailure,
            SealError::EncryptFailure => SealErrorView::EncryptFailure,
            SealError::UnsupportedFormat(s) => SealErrorView::UnsupportedFormat(s@),
            SealError::UnsupportedVersion(v) => SealErrorView::UnsupportedVersion(*v),
            SealError::InvalidEncoding(f) => SealErrorView::InvalidEncoding(*f),
            SealError::InvalidLength(f) => SealErrorView::InvalidLength(*f),
            SealError::DecryptFailure => SealErrorView::DecryptFailure,
        }
    }
}

// ---------------------------------------------------------------------------
// The file format's constants
// ---------------------------------------------------------------------------
/// The archive format name, `macrun-sealed-scope`.
pub open spec fn file_format_spec() -> Seq<char> {
    seq!['m', 'a', 'c', 'r', 'u', 'n', '-', 's', 'e', 'a', 'l', 'e', 'd', '-', 's', 'c', 'o', 'p', 'e']
}

/// The additional authenticated data: the bytes of `macrun-sealed-scope-v1`.
pub open spec fn aad_context_spec() -> Seq<u8> {
    seq![
        109u8, 97, 99, 114, 117, 110, 45, 115, 101, 97, 108, 101, 100, 45, 115, 99, 111, 112,
        101, 45, 118, 49,
    ]
}

/// The archive version written and accepted.
pub const FILE_VERSION: u32 = 1;

/// PBKDF2 iterations.
pub const PBKDF2_ITERATIONS: u32 = 600000;

/// Salt length in bytes.
pub const SALT_LEN: usize = 16;

/// AES-GCM nonce length in bytes.
pub const NONCE_LEN: usize = 12;

/// AES-256 key length in bytes.
pub const KEY_LEN: usize = 32;

/// The archive format name.
fn file_format() -> (r: String)
    ensures
        r@ == file_format_spec(),
{
    let r = copy_str("macrun-sealed-scope");
    proof { reveal_strlit("macrun-sealed-scope"); }
    assert(r@ =~= file_format_spec());
    r
}

/// The additional authenticated data of an archive.
fn aad_context() -> (r: Vec<u8>)
    ensures
        r@ == aad_context_spec(),
{
    let r: Vec<u8> = vec![
        109u8, 97, 99, 114, 117, 110, 45, 115, 101, 97, 108, 101, 100, 45, 115, 99, 111, 112,
        101, 45, 118, 49,
    ];
    assert(r@ =~= aad_context_spec());
    r
}

// ---------------------------------------------------------------------------
// Outside calls
// ---------------------------------------------------------------------------
/// The key that PBKDF2-HMAC-SHA256 derives (`ring::pbkdf2::derive`).
pub uninterp spec fn pbkdf2_hmac_sha256(iterations: u32, salt: Seq<u8>, secret: Seq<u8>, len: nat) -> Seq<u8>;

/// What AES-256-GCM sealing gives (`ring::aead::LessSafeKey::seal_in_place_append_tag`):
/// the ciphertext followed by the tag, or `None` when ring refuses.
pub uninterp spec fn aes_256_gcm_sealed(key: Seq<u8>, nonce: Seq<u8>, aad: Seq<u8>, plaintext: Seq<u8>) -> Option<Seq<u8>>;

/// What AES-256-GCM opening gives (`ring::aead::LessSafeKey::open_in_place`): the
/// plaintext, or `None` when authentication fails.
pub uninterp spec fn aes_256_gcm_opened(key: Seq<u8>, nonce: Seq<u8>, aad: Seq<u8>, sealed: Seq<u8>) -> Option<Seq<u8>>;

/// Standard base64 with padding of `bytes` (`base64::engine::general_purpose::STANDARD.encode`).
pub uninterp spec fn base64_encoded(bytes: Seq<u8>) -> Seq<char>;

/// The bytes that the standard base64 text `text` decodes to, if it is valid
/// (`base64::engine::general_purpose::STANDARD.decode`).
pub uninterp spec fn base64_decoded(text: Seq<char>) -> Option<Seq<u8>>;

/// `len` bytes from the operating system's random number generator
/// (`ring::rand::SystemRandom::fill`), or `None` when it fails. Nothing is claimed of
/// the bytes but their number.
#[verifier::external_body]
fn random_bytes(len: usize) -> (r: Option<Vec<u8>>)
    ensures
        r matches Some(v) ==> v@.len() == len,
{
    let mut buf = vec![0u8; len];
    match ring::rand::SystemRandom::new().fill(&mut buf) {
        Ok(()) => Some(buf),
        Err(_) => None,
    }
}

/// `ring::pbkdf2::derive` with HMAC-SHA256: `len` key bytes from `secret` and `salt`.
/// The result is named, and has `len` bytes. ring takes the iteration count as a
/// `NonZeroU32` and panics for more than `32 * u32::MAX` bytes of output; `requires`
/// leaves out a zero count and asks for no more than one key's worth.
#[verifier::external_body]
fn pbkdf2_derive(iterations: u32, salt: &[u8], secret: &[u8], len: usize) -> (r: Vec<u8>)
    requires
        iterations > 0,
        len <= 32,
    ensures
        r@ == pbkdf2_hmac_sha256(iterations, salt@, secret@, len as nat),
        r@.len() == len,
{
    let mut out = vec![0u8; len];
    ring::pbkdf2::derive(
        ring::pbkdf2::PBKDF2_HMAC_SHA256,
        std::num::NonZeroU32::new(iterations).unwrap(),
        salt,
        secret,
        &mut out,
    );
    out
}

/// AES-256-GCM sealing with ring's `LessSafeKey::seal_in_place_append_tag`, the key
/// and nonce built from bytes. The result is named. As the documentation of ring's
/// opening says that it authenticates and decrypts what sealing produced, opening the
/// result with the same key, nonce and aad gives the plaintext back.
#[verifier::external_body]
fn aes_256_gcm_seal(key: &[u8], nonce: &[u8], aad: &[u8], plaintext: Vec<u8>) -> (r: Option<Vec<u8>>)
    requires
        key@.len() == 32,
        nonce@.len() == 12,
    ensures
        match r {
            Some(c) => aes_256_gcm_sealed(key@, nonce@, aad@, plaintext@) == Some(c@),
            None => aes_256_gcm_sealed(key@, nonce@, aad@, plaintext@) is None,
        },
        r matches Some(c) ==> aes_256_gcm_opened(key@, nonce@, aad@, c@) == Some(plaintext@),
        r matches Some(c) ==> c@.len() == plaintext@.len() + 16,
{
    let mut in_out = plaintext;
    let key = ring::aead::LessSafeKey::new(ring::aead::UnboundKey::new(&ring::aead::AES_256_GCM, key).ok()?);
    let nonce = ring::aead::Nonce::try_assume_unique_for_key(nonce).ok()?;
    key.seal_in_place_append_tag(nonce, ring::aead::Aad::from(aad), &mut in_out).ok()?;
    Some(in_out)
}

/// AES-256-GCM opening with ring's `LessSafeKey::open_in_place`, the key and nonce
/// built from bytes. The result is named.
#[verifier::external_body]
fn aes_256_gcm_open(key: &[u8], nonce: &[u8], aad: &[u8], sealed: Vec<u8>) -> (r: Option<Vec<u8>>)
    requires
        key@.len() == 32,
        nonce@.len() == 12,
    ensures
        match r {
            Some(p) => aes_256_gcm_opened(key@, nonce@, aad@, sealed@) == Some(p@),
            None => aes_256_gcm_opened(key@, nonce@, aad@, sealed@) is None,
        },
{
    let mut in_out = sealed;
    let key = ring::aead::LessSafeKey::new(ring::aead::UnboundKey::new(&ring::aead::AES_256_GCM, key).ok()?);
    let nonce = ring::aead::Nonce::try_assume_unique_for_key(nonce).ok()?;
    let plaintext = key.open_in_place(nonce, ring::aead::Aad::from(aad), &mut in_out).ok()?;
    Some(plaintext.to_vec())
}

/// Standard base64 with padding (`STANDARD.encode`). The result is named; as the
/// crate's documented round trip shows, decoding it gives the bytes back. The crate
/// panics when the encoded length overflows `usize`, which `requires` leaves out.
#[verifier::external_body]
pub(crate) fn base64_encode(bytes: &[u8]) -> (r: String)
    requires
        bytes@.len() <= usize::MAX / 2,
    ensures
        r@ == base64_encoded(bytes@),
        base64_decoded(r@) == Some(bytes@),
{
    base64::engine::general_purpose::STANDARD.encode(bytes)
}

/// Standard base64 decoding (`STANDARD.decode`). The result is named; an invalid
/// input gives `None`.
#[verifier::external_body]
pub(crate) fn base64_decode(text: &str) -> (r: Option<Vec<u8>>)
    ensures
        match r {
            Some(b) => base64_decoded(text@) == Some(b@),
            None => base64_decoded(text@) is None,
        },
{
    base64::engine::general_purpose::STANDARD.decode(text).ok()
}

// ---------------------------------------------------------------------------
// Sealing and opening
// ---------------------------------------------------------------------------
/// The archive key for `master` (its UTF-8 bytes) and `salt`.
pub open spec fn archive_key(master: Seq<char>, salt: Seq<u8>) -> Seq<u8> {
    pbkdf2_hmac_sha256(600000, salt, vstd::utf8::encode_utf8(master), 32)
}

/// Decodes a base64 field that must hold exactly `len` bytes.
pub open spec fn decode_exact_spec(text: Seq<char>, len: nat, field: SealedField) -> Result<Seq<u8>, SealErrorView> {
    match base64_decoded(text) {
        None => Err(SealErrorView::InvalidEncoding(field)),
        Some(b) => if b.len() == len {
            Ok(b)
        } else {
            Err(SealErrorView::InvalidLength(field))
        },
    }
}

/// What opening the archive `f` with `master` gives.
pub open spec fn open_scope_spec(master: Seq<char>, f: SealedScopeFile) -> Result<Seq<u8>, SealErrorView> {
    if f.format@ != file_format_spec() {
        Err(SealErrorView::UnsupportedFormat(f.format@))
    } else if f.version != 1 {
        Err(SealErrorView::UnsupportedVersion(f.version))
    } else {
        match decode_exact_spec(f.salt@, 16, SealedField::Salt) {
            Err(e) => Err(e),
            Ok(salt) => match decode_exact_spec(f.nonce@, 12, SealedField::Nonce) {
                Err(e) => Err(e),
                Ok(nonce) => match base64_decoded(f.ciphertext@) {
                    None => Err(SealErrorView::InvalidEncoding(SealedField::Ciphertext)),
                    Some(c) => match aes_256_gcm_opened(archive_key(master, salt), nonce, aad_context_spec(), c) {
                        None => Err(SealErrorView::DecryptFailure),
                        Some(p) => Ok(p),
                    },
                },
            },
        }
    }
}

/// Whether `f` is what sealing `payload` under `master` writes for some salt and nonce.
pub open spec fn sealed_with(master: Seq<char>, payload: Seq<u8>, f: SealedScopeFile) -> bool {
    exists|salt: Seq<u8>, nonce: Seq<u8>| {
        &&& salt.len() == 16
        &&& nonce.len() == 12
        &&& f.salt@ == base64_encoded(salt)
        &&& f.nonce@ == base64_encoded(nonce)
        &&& #[trigger] aes_256_gcm_sealed(archive_key(master, salt), nonce, aad_context_spec(), payload) matches Some(c)
            && f.ciphertext@ == base64_encoded(c)
    }
}

/// Accepts the decoded bytes of field `field` when there are exactly `len` of them;
/// `None` (the base64 did not decode) and any other length are refused.
pub fn exact_field(decoded: Option<Vec<u8>>, len: usize, field: SealedField) -> (r: Result<Vec<u8>, SealError>)
    ensures
        decoded is None ==> (r matches Err(SealError::InvalidEncoding(f)) && f == field),
        decoded matches Some(b) ==> (if b@.len() == len {
            r matches Ok(x) && x == b
        } else {
            r matches Err(SealError::InvalidLength(f)) && f == field
        }),
{
    match decoded {
        None => Err(SealError::InvalidEncoding(field)),
        Some(b) => if b.len() == len {
            Ok(b)
        } else {
            Err(SealError::InvalidLength(field))
        },
    }
}

/// Decodes a base64 field of exactly `len` bytes.
fn decode_exact(text: &str, len: usize, field: SealedField) -> (r: Result<Vec<u8>, SealError>)
    ensures
        match r {
            Ok(b) => decode_exact_spec(text@, len as nat, field) == Ok::<Seq<u8>, SealErrorView>(b@),
            Err(e) => decode_exact_spec(text@, len as nat, field) == Err::<Seq<u8>, SealErrorView>(e@),
        },
{
    exact_field(base64_decode(text), len, field)
}

/// Encrypts `payload` (the encoded archive contents) under `master_secret` with the
/// given salt and nonce: the key is derived from the secret and the salt, the payload is
/// sealed with AES-256-GCM, and the three binary fields are written in base64. Fails
/// exactly when the encryption refuses.
pub fn seal_with(master_secret: &str, payload: &[u8], salt: Vec<u8>, nonce: Vec<u8>) -> (r: Result<SealedScopeFile, SealError>)
    requires
        salt@.len() == 16,
        nonce@.len() == 12,
        payload@.len() <= usize::MAX / 4,
    ensures
        r is Ok <==> aes_256_gcm_sealed(archive_key(master_secret@, salt@), nonce@, aad_context_spec(), payload@) is Some,
        r matches Err(e) ==> e is EncryptFailure,
        r matches Ok(f) ==> {
            &&& f.format@ == file_format_spec()
            &&& f.version == 1
            &&& f.salt@ == base64_encoded(salt@)
            &&& f.nonce@ == base64_encoded(nonce@)
            &&& aes_256_gcm_sealed(archive_key(master_secret@, salt@), nonce@, aad_context_spec(), payload@) matches Some(c)
                && f.ciphertext@ == base64_encoded(c)
            &&& sealed_with(master_secret@, payload@, f)
            &&& open_scope_spec(master_secret@, f) == Ok::<Seq<u8>, SealErrorView>(payload@)
        },
{
    let secret_bytes = master_secret.as_bytes();
    let key = pbkdf2_derive(PBKDF2_ITERATIONS, salt.as_slice(), secret_bytes, KEY_LEN);
    let aad = aad_context();
    let mut plaintext: Vec<u8> = Vec::new();
    let mut i: usize = 0;
    while i < payload.len()
        invariant
            i <= payload@.len(),
            plaintext@ == payload@.take(i as int),
        decreases payload.len() - i,
    {
        plaintext.push(payload[i]);
        assert(plaintext@ =~= payload@.take(i + 1));
        i = i + 1;
    }
    assert(plaintext@ =~= payload@);
    assert(archive_key(master_secret@, salt@) == key@);
    let sealed = match aes_256_gcm_seal(key.as_slice(), nonce.as_slice(), aad.as_slice(), plaintext) {
        Some(c) => c,
        None => return Err(SealError::EncryptFailure),
    };
    let f = SealedScopeFile {
        format: file_format(),
        version: FILE_VERSION,
        salt: base64_encode(salt.as_slice()),
        nonce: base64_encode(nonce.as_slice()),
        ciphertext: base64_encode(sealed.as_slice()),
    };
    assert(base64_decoded(f.salt@) == Some(salt@));
    assert(base64_decoded(f.nonce@) == Some(nonce@));
    assert(base64_decoded(f.ciphertext@) == Some(sealed@));
    assert(sealed_with(master_secret@, payload@, f));
    Ok(f)
}

/// Encrypts `payload` (the encoded archive contents) under `master_secret`, with a
/// fresh random salt and nonce, as [`seal_with`] does with them. Opening the file with
/// the same secret gives `payload` back.
pub fn seal_scope(master_secret: &str, payload: &[u8]) -> (r: Result<SealedScopeFile, SealError>)
    requires
        payload@.len() <= usize::MAX / 4,
    ensures
        (master_secret@.len() == 0) == (r matches Err(SealError::EmptyMasterSecret)),
        r matches Err(e) ==> e is EmptyMasterSecret || e is RandomFailure || e is EncryptFailure,
        r matches Ok(f) ==> f.format@ == file_format_spec() && f.version == 1 && sealed_with(master_secret@, payload@, f),
        r matches Ok(f) ==> open_scope_spec(master_secret@, f) == Ok::<Seq<u8>, SealErrorView>(payload@),
        r matches Err(SealError::EncryptFailure) ==> exists|salt: Seq<u8>, nonce: Seq<u8>| salt.len() == 16 && nonce.len() == 12
            && #[trigger] aes_256_gcm_sealed(archive_key(master_secret@, salt), nonce, aad_context_spec(), payload@) is None,
{
    if master_secret.is_empty() {
        return Err(SealError::EmptyMasterSecret);
    }
    let salt = match random_bytes(SALT_LEN) {
        Some(s) => s,
        None => return Err(SealError::RandomFailure),
    };
    let nonce = match random_bytes(NONCE_LEN) {
        Some(n) => n,
        None => return Err(SealError::RandomFailure),
    };
    seal_with(master_secret, payload, salt, nonce)
}

/// Decrypts the archive `sealed` with `master_secret`, giving back the encoded archive
/// contents.
pub fn open_scope(master_secret: &str, sealed: &SealedScopeFile) -> (r: Result<Vec<u8>, SealError>)
    ensures
        match r {
            Ok(p) => open_scope_spec(master_secret@, *sealed) == Ok::<Seq<u8>, SealErrorView>(p@),
            Err(e) => open_scope_spec(master_secret@, *sealed) == Err::<Seq<u8>, SealErrorView>(e@),
        },
{
    let format = file_format();
    if !str_eq(sealed.format.as_str(), format.as_str()) {
        return Err(SealError::UnsupportedFormat(sealed.format.clone()));
    }
    if sealed.version != FILE_VERSION {
        return Err(SealError::UnsupportedVersion(sealed.version));
    }
    let salt = decode_exact(sealed.salt.as_str(), SALT_LEN, SealedField::Salt)?;
    let nonce = decode_exact(sealed.nonce.as_str(), NONCE_LEN, SealedField::Nonce)?;
    let ciphertext = match base64_decode(sealed.ciphertext.as_str()) {
        Some(c) => c,
        None => return Err(SealError::InvalidEncoding(SealedField::Ciphertext)),
    };
    let key = pbkdf2_derive(PBKDF2_ITERATIONS, salt.as_slice(), master_secret.as_bytes(), KEY_LEN);
    let aad = aad_context();
    match aes_256_gcm_open(key.as_slice(), nonce.as_slice(), aad.as_slice(), ciphertext) {
        Some(p) => Ok(p),
        None => Err(SealError::DecryptFailure),
    }
}

} // verus!
