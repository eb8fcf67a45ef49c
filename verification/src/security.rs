//! Passwords, encryption and shared bundles.
use crate::bytes;
use crate::bytes::{gunzip, gzip};
use crate::models::{EncryptedBlob, SecurityMetadata, SharedWorkspaceBundleFile};
use crate::text;
use crate::text::{blank, concat2, decimal_text};
use argon2::{Algorithm, Argon2, Params, Version};
use base64::engine::general_purpose::STANDARD;
use base64::Engine;
use chacha20poly1305::aead::{Aead, KeyInit};
use chacha20poly1305::{Key, XChaCha20Poly1305, XNonce};
use rand::rngs::OsRng;
use rand::RngCore;
use vstd::prelude::*;
use vstd::utf8::*;

verus! {

/// A key for encryption.
pub type KeyMaterial = [u8; 32];

// ---------------------------------------------------------------------------
// Outside functions
// ---------------------------------------------------------------------------

/// What `Argon2::hash_password_into` makes of a password and a salt, by Argon2id in version 0x13
/// with so many KiB of memory, passes and lanes and for 32 bytes; the message where it fails.
pub uninterp spec fn password_hash(
    password: Seq<char>,
    salt: Seq<u8>,
    memory: u32,
    passes: u32,
    lanes: u32,
) -> Result<Seq<u8>, Seq<char>>;

/// `Argon2::hash_password_into`. The hash depends on what is handed over alone. It is there for
/// every password of at most `u32::MAX` bytes and every salt of at least eight and at most as
/// many.
#[verifier::external_body]
fn hash_password(password: &str, salt: &[u8], memory: u32, passes: u32, lanes: u32) -> (r: Result<
    [u8; 32],
    String,
>)
    requires
        1 <= passes,
        1 <= lanes <= 0xFF_FFFF,
        8 * lanes <= memory,
    ensures
        match r {
            Ok(hash) => password_hash(password@, salt@, memory, passes, lanes) == Ok::<
                Seq<u8>,
                Seq<char>,
            >(hash@),
            Err(message) => password_hash(password@, salt@, memory, passes, lanes) == Err::<
                Seq<u8>,
                Seq<char>,
            >(message@),
        },
        encode_utf8(password@).len() <= u32::MAX && 8 <= salt@.len() <= u32::MAX ==> r is Ok,
{
    let mut hash = [0u8; 32];
    let params = Params::new(memory, passes, lanes, Some(32)).map_err(|err| err.to_string())?;
    let argon2 = Argon2::new(Algorithm::Argon2id, Version::V0x13, params);
    match argon2.hash_password_into(password.as_bytes(), salt, &mut hash) {
        Ok(_) => Ok(hash),
        Err(err) => Err(err.to_string()),
    }
}

/// What `XChaCha20Poly1305::encrypt` makes of a plaintext under a key and a nonce; the message
/// where it fails.
pub uninterp spec fn sealed(key: Seq<u8>, nonce: Seq<u8>, plaintext: Seq<u8>) -> Result<
    Seq<u8>,
    Seq<char>,
>;

/// What `XChaCha20Poly1305::decrypt` makes of a ciphertext under a key and a nonce; the message
/// where it fails.
pub uninterp spec fn opened(key: Seq<u8>, nonce: Seq<u8>, ciphertext: Seq<u8>) -> Result<
    Seq<u8>,
    Seq<char>,
>;

/// The plaintexts that can be encrypted are shorter than this: the blocks of the cipher are
/// counted in 32 bits, the first goes to the tag and the last is never reached.
pub const MAX_PLAINTEXT: u64 = 274_877_906_817;

/// From this length on the cipher refuses a plaintext of its own accord.
pub const REFUSED_PLAINTEXT: u64 = 274_877_906_880;

/// The bytes of the tag behind a ciphertext.
pub const TAG_LENGTH: u64 = 16;

/// Whether a plaintext is so long that the cipher can neither encrypt nor refuse it.
pub open spec fn overruns(length: int) -> bool {
    MAX_PLAINTEXT <= length < REFUSED_PLAINTEXT
}

/// `XChaCha20Poly1305::encrypt`. The ciphertext depends on key, nonce and plaintext alone; it is
/// there for every plaintext below the limit of the cipher, is longer by the tag, and decryption
/// gives the plaintext back. The lengths between that limit and the first that is refused are
/// left out: there the cipher runs out of blocks and panics.
#[verifier::external_body]
fn seal(key: &KeyMaterial, nonce: &[u8], plaintext: &[u8]) -> (r: Result<Vec<u8>, String>)
    requires
        nonce@.len() == 24,
        !overruns(plaintext@.len() as int),
    ensures
        match r {
            Ok(ciphertext) => sealed(key@, nonce@, plaintext@) == Ok::<Seq<u8>, Seq<char>>(
                ciphertext@,
            ) && opened(key@, nonce@, ciphertext@) == Ok::<Seq<u8>, Seq<char>>(plaintext@)
                && ciphertext@.len() == plaintext@.len() + TAG_LENGTH,
            Err(message) => sealed(key@, nonce@, plaintext@) == Err::<Seq<u8>, Seq<char>>(
                message@,
            ),
        },
        r is Ok <==> plaintext@.len() < MAX_PLAINTEXT,
{
    let cipher = XChaCha20Poly1305::new(Key::from_slice(key));
    cipher.encrypt(XNonce::from_slice(nonce), plaintext).map_err(|err| err.to_string())
}

/// `XChaCha20Poly1305::decrypt`. The plaintext depends on key, nonce and ciphertext alone. The
/// lengths at which the cipher would run out of blocks and panic are left out.
#[verifier::external_body]
fn open(key: &KeyMaterial, nonce: &[u8], ciphertext: &[u8]) -> (r: Result<Vec<u8>, String>)
    requires
        nonce@.len() == 24,
        !overruns(ciphertext@.len() - TAG_LENGTH),
    ensures
        match r {
            Ok(plaintext) => opened(key@, nonce@, ciphertext@) == Ok::<Seq<u8>, Seq<char>>(
                plaintext@,
            ),
            Err(message) => opened(key@, nonce@, ciphertext@) == Err::<Seq<u8>, Seq<char>>(
                message@,
            ),
        },
{
    let cipher = XChaCha20Poly1305::new(Key::from_slice(key));
    cipher.decrypt(XNonce::from_slice(nonce), ciphertext).map_err(|err| err.to_string())
}

/// What `base64`'s standard engine makes of bytes.
pub uninterp spec fn encoded(content: Seq<u8>) -> Seq<char>;

/// What `base64`'s standard engine reads from a text; the message where it fails.
pub uninterp spec fn decoded(content: Seq<char>) -> Result<Seq<u8>, Seq<char>>;

/// `base64::Engine::encode` of the standard engine. The text depends on the bytes alone, and
/// decoding gives them back.
#[verifier::external_body]
fn encode(content: &[u8]) -> (r: String)
    ensures
        r@ == encoded(content@) && decoded(r@) == (Ok::<Seq<u8>, Seq<char>>(content@)),
{
    STANDARD.encode(content)
}

/// `base64::Engine::decode` of the standard engine. What is read depends on the text alone.
#[verifier::external_body]
fn decode(content: &str) -> (r: Result<Vec<u8>, String>)
    ensures
        match r {
            Ok(plain) => decoded(content@) == Ok::<Seq<u8>, Seq<char>>(plain@),
            Err(message) => decoded(content@) == Err::<Seq<u8>, Seq<char>>(message@),
        },
{
    STANDARD.decode(content.as_bytes()).map_err(|err| err.to_string())
}

/// `OsRng::fill_bytes`: bytes from the random number generator of the operating system. Nothing
/// is promised of them but their number.
#[verifier::external_body]
fn random_bytes(count: usize) -> (r: Vec<u8>)
    ensures
        r@.len() == count,
{
    let mut content = vec![0u8; count];
    OsRng.fill_bytes(&mut content);
    content
}

// ---------------------------------------------------------------------------
// Keys
// ---------------------------------------------------------------------------

/// How much memory the derivation of a key takes, in KiB.
pub const KEY_MEMORY: u32 = 65_536;

/// How many passes it makes over the memory.
pub const KEY_PASSES: u32 = 3;

/// How many lanes it has.
pub const KEY_LANES: u32 = 1;

/// The key of a password, under a salt; the message where there is none.
pub open spec fn derived_key(password: Seq<char>, salt: Seq<u8>) -> Result<Seq<u8>, Seq<char>> {
    password_hash(password, salt, KEY_MEMORY, KEY_PASSES, KEY_LANES)
}

/// Derives the key of a password.
fn derive_key(password: &str, salt: &[u8]) -> (r: Result<KeyMaterial, String>)
    ensures
        match r {
            Ok(key) => derived_key(password@, salt@) == Ok::<Seq<u8>, Seq<char>>(key@),
            Err(message) => derived_key(password@, salt@) == Err::<Seq<u8>, Seq<char>>(message@),
        },
        encode_utf8(password@).len() <= u32::MAX && 8 <= salt@.len() <= u32::MAX ==> r is Ok,
{
    hash_password(password, salt, KEY_MEMORY, KEY_PASSES, KEY_LANES)
}

// ---------------------------------------------------------------------------
// Blobs
// ---------------------------------------------------------------------------

/// What a plaintext is encrypted to under a key and a nonce, or why it cannot be. One that
/// overruns the cipher is refused in the words of the cipher.
pub open spec fn encryption(key: Seq<u8>, nonce: Seq<u8>, plaintext: Seq<u8>) -> Result<
    Seq<u8>,
    Seq<char>,
> {
    if overruns(plaintext.len() as int) {
        Err("aead::Error"@)
    } else {
        sealed(key, nonce, plaintext)
    }
}

/// What a ciphertext is decrypted to under a key and a nonce, or why it cannot be. One that
/// overruns the cipher is refused in the words of the cipher.
pub open spec fn decryption(key: Seq<u8>, nonce: Seq<u8>, ciphertext: Seq<u8>) -> Result<
    Seq<u8>,
    Seq<char>,
> {
    if overruns(ciphertext.len() - TAG_LENGTH) {
        Err("aead::Error"@)
    } else {
        opened(key, nonce, ciphertext)
    }
}

/// Whether so many bytes overrun the cipher.
fn is_overrun(length: u64) -> (r: bool)
    ensures
        r == overruns(length as int),
{
    MAX_PLAINTEXT <= length && length < REFUSED_PLAINTEXT
}

/// What a blob is decrypted to under a key, or why it cannot be.
pub open spec fn decrypted(key: Seq<u8>, blob: EncryptedBlob) -> Result<Seq<u8>, Seq<char>> {
    match decoded(blob.nonce_b64@) {
        Err(message) => Err("invalid nonce encoding: "@ + message),
        Ok(nonce) => if nonce.len() != 24 {
            Err("invalid nonce length"@)
        } else {
            match decoded(blob.ciphertext_b64@) {
                Err(message) => Err("invalid ciphertext encoding: "@ + message),
                Ok(ciphertext) => match decryption(key, nonce, ciphertext) {
                    Err(message) => Err("decryption failed: "@ + message),
                    Ok(plaintext) => Ok(plaintext),
                },
            }
        },
    }
}

/// Whether the blob is what a plaintext becomes under a key and a nonce.
pub open spec fn is_blob(
    blob: EncryptedBlob,
    key: Seq<u8>,
    nonce: Seq<u8>,
    plaintext: Seq<u8>,
) -> bool {
    blob.version == 1 && blob.nonce_b64@ == encoded(nonce) && (encryption(key, nonce, plaintext)
        matches Ok(ciphertext) && blob.ciphertext_b64@ == encoded(ciphertext))
}

/// Encrypts under a given nonce.
pub fn encrypt_with_nonce(key: &KeyMaterial, nonce: &[u8], plaintext: &[u8]) -> (r: Result<
    EncryptedBlob,
    String,
>)
    requires
        nonce@.len() == 24,
    ensures
        match r {
            Ok(blob) => is_blob(blob, key@, nonce@, plaintext@) && decrypted(key@, blob) == Ok::<
                Seq<u8>,
                Seq<char>,
            >(plaintext@),
            Err(message) => encryption(key@, nonce@, plaintext@) matches Err(problem) && message@
                == "encryption failed: "@ + problem,
        },
        r is Ok <==> plaintext@.len() < MAX_PLAINTEXT,
{
    if is_overrun(plaintext.len() as u64) {
        return Err(concat2("encryption failed: ", "aead::Error"));
    }
    match seal(key, nonce, plaintext) {
        Ok(ciphertext) => Ok(
            EncryptedBlob {
                version: 1,
                nonce_b64: encode(nonce),
                ciphertext_b64: encode(ciphertext.as_slice()),
            },
        ),
        Err(message) => Err(concat2("encryption failed: ", message.as_str())),
    }
}

/// Encrypts under a fresh nonce. What was encrypted is what decryption gives back.
pub fn encrypt_bytes(key: &KeyMaterial, plaintext: &[u8]) -> (r: Result<EncryptedBlob, String>)
    ensures
        match r {
            Ok(blob) => decrypted(key@, blob) == Ok::<Seq<u8>, Seq<char>>(plaintext@) && exists|
                nonce: Seq<u8>,
            |
                nonce.len() == 24 && is_blob(blob, key@, nonce, plaintext@),
            Err(message) => exists|nonce: Seq<u8>|
                nonce.len() == 24 && (#[trigger] encryption(key@, nonce, plaintext@) matches Err(problem)
                    && message@ == "encryption failed: "@ + problem),
        },
        r is Ok <==> plaintext@.len() < MAX_PLAINTEXT,
{
    let nonce = random_bytes(24);
    encrypt_with_nonce(key, nonce.as_slice(), plaintext)
}

pub fn decrypt_bytes(key: &KeyMaterial, blob: &EncryptedBlob) -> (r: Result<Vec<u8>, String>)
    ensures
        match r {
            Ok(plaintext) => decrypted(key@, *blob) == Ok::<Seq<u8>, Seq<char>>(plaintext@),
            Err(message) => decrypted(key@, *blob) == Err::<Seq<u8>, Seq<char>>(message@),
        },
{
    let nonce = match decode(blob.nonce_b64.as_str()) {
        Ok(nonce) => nonce,
        Err(message) => {
            return Err(concat2("invalid nonce encoding: ", message.as_str()));
        },
    };
    if nonce.len() != 24 {
        return Err("invalid nonce length".to_owned());
    }
    let ciphertext = match decode(blob.ciphertext_b64.as_str()) {
        Ok(ciphertext) => ciphertext,
        Err(message) => {
            return Err(concat2("invalid ciphertext encoding: ", message.as_str()));
        },
    };
    if ciphertext.len() as u64 >= TAG_LENGTH && is_overrun(ciphertext.len() as u64 - TAG_LENGTH) {
        return Err(concat2("decryption failed: ", "aead::Error"));
    }
    match open(key, nonce.as_slice(), ciphertext.as_slice()) {
        Ok(plaintext) => Ok(plaintext),
        Err(message) => Err(concat2("decryption failed: ", message.as_str())),
    }
}

// ---------------------------------------------------------------------------
// The workspace password
// ---------------------------------------------------------------------------

/// What is encrypted to recognize the password by.
pub open spec fn verifier_plaintext() -> Seq<u8> {
    encode_utf8("delivery-man-unlock-verifier-v1"@)
}

/// What a password unlocks: the key of the workspace, or why it does not.
pub open spec fn unlocked(password: Seq<char>, metadata: SecurityMetadata) -> Result<
    Seq<u8>,
    Seq<char>,
> {
    match decoded(metadata.salt_b64@) {
        Err(message) => Err("invalid metadata salt: "@ + message),
        Ok(salt) => match derived_key(password, salt) {
            Err(message) => Err(message),
            Ok(key) => match decrypted(key, metadata.verifier) {
                Err(message) => Err(message),
                Ok(plaintext) => if plaintext == verifier_plaintext() {
                    Ok(key)
                } else {
                    Err("password verification failed"@)
                },
            },
        },
    }
}

fn same_bytes(a: &[u8], b: &[u8]) -> (r: bool)
    ensures
        r == (a@ == b@),
{
    if a.len() != b.len() {
        return false;
    }
    let mut i: usize = 0;
    while i < a.len()
        invariant
            a@.len() == b@.len(),
            i <= a@.len(),
            forall|j: int| 0 <= j < i ==> a@[j] == b@[j],
        decreases a@.len() - i,
    {
        if a[i] != b[i] {
            return false;
        }
        i += 1;
    }
    assert(a@ =~= b@);
    true
}

/// Sets a password under a given salt and nonce: what is stored to check it, and the key that it
/// unlocks.
pub fn security_metadata_with(password: &str, salt: &[u8], nonce: &[u8]) -> (r: Result<
    (SecurityMetadata, KeyMaterial),
    String,
>)
    requires
        nonce@.len() == 24,
    ensures
        match r {
            Ok((metadata, key)) => {
                &&& metadata.version == 1
                &&& metadata.salt_b64@ == encoded(salt@)
                &&& derived_key(password@, salt@) == Ok::<Seq<u8>, Seq<char>>(key@)
                &&& is_blob(metadata.verifier, key@, nonce@, verifier_plaintext())
                &&& unlocked(password@, metadata) == Ok::<Seq<u8>, Seq<char>>(key@)
            },
            Err(message) => match derived_key(password@, salt@) {
                Err(problem) => message@ == problem,
                Ok(key) => encryption(key, nonce@, verifier_plaintext()) matches Err(problem)
                    && message@ == "encryption failed: "@ + problem,
            },
        },
        encode_utf8(password@).len() <= u32::MAX && 8 <= salt@.len() <= u32::MAX ==> r is Ok,
{
    let key = match derive_key(password, salt) {
        Ok(key) => key,
        Err(message) => {
            return Err(message);
        },
    };
    let plaintext = "delivery-man-unlock-verifier-v1".as_bytes();
    proof {
        reveal_strlit("delivery-man-unlock-verifier-v1");
        let chars = "delivery-man-unlock-verifier-v1"@;
        assert(is_ascii_chars(chars));
        is_ascii_chars_encode_utf8(chars);
        assert(plaintext@.len() < MAX_PLAINTEXT);
    }
    match encrypt_with_nonce(&key, nonce, plaintext) {
        Ok(verifier) => Ok(
            (SecurityMetadata { version: 1, salt_b64: encode(salt), verifier }, key),
        ),
        Err(message) => Err(message),
    }
}

/// Sets a password: what is stored to check it, and the key that it unlocks. The password
/// unlocks what was made from it.
pub fn create_security_metadata(password: &str) -> (r: Result<
    (SecurityMetadata, KeyMaterial),
    String,
>)
    ensures
        match r {
            Ok((metadata, key)) => metadata.version == 1 && unlocked(password@, metadata) == Ok::<
                Seq<u8>,
                Seq<char>,
            >(key@),
            Err(_) => encode_utf8(password@).len() > u32::MAX,
        },
{
    let salt = random_bytes(16);
    let nonce = random_bytes(24);
    security_metadata_with(password, salt.as_slice(), nonce.as_slice())
}

pub fn verify_password(password: &str, metadata: &SecurityMetadata) -> (r: Result<
    KeyMaterial,
    String,
>)
    ensures
        match r {
            Ok(key) => unlocked(password@, *metadata) == Ok::<Seq<u8>, Seq<char>>(key@),
            Err(message) => unlocked(password@, *metadata) == Err::<Seq<u8>, Seq<char>>(
                message@,
            ),
        },
{
    let salt = match decode(metadata.salt_b64.as_str()) {
        Ok(salt) => salt,
        Err(message) => {
            return Err(concat2("invalid metadata salt: ", message.as_str()));
        },
    };
    let key = match derive_key(password, salt.as_slice()) {
        Ok(key) => key,
        Err(message) => {
            return Err(message);
        },
    };
    match decrypt_bytes(&key, &metadata.verifier) {
        Ok(plaintext) => if same_bytes(
            plaintext.as_slice(),
            "delivery-man-unlock-verifier-v1".as_bytes(),
        ) {
            Ok(key)
        } else {
            Err("password verification failed".to_owned())
        },
        Err(message) => Err(message),
    }
}

// ---------------------------------------------------------------------------
// Shared bundles
// ---------------------------------------------------------------------------

/// The payload in a bundle, or why the password does not open it.
pub open spec fn bundle_payload(bundle: SharedWorkspaceBundleFile, password: Seq<char>) -> Result<
    Seq<u8>,
    Seq<char>,
> {
    if text::is_blank(password) {
        Err("Bundle password is required."@)
    } else if bundle.version != 1 {
        Err("Unsupported bundle version: "@ + text::decimal(bundle.version as nat))
    } else {
        match decoded(bundle.salt_b64@) {
            Err(message) => Err("Invalid bundle salt: "@ + message),
            Ok(salt) => match derived_key(password, salt) {
                Err(message) => Err(message),
                Ok(key) => match decrypted(key, bundle.encrypted) {
                    Err(message) => Err(message),
                    Ok(packed) => match bytes::gunzipped(packed) {
                        Err(message) => Err("Failed to decompress bundle payload: "@ + message),
                        Ok(payload) => Ok(payload),
                    },
                },
            },
        }
    }
}

/// Whether a bundle can be made under a password at all.
pub fn check_bundle_password(password: &str) -> (r: Result<(), String>)
    ensures
        match r {
            Ok(_) => !text::is_blank(password@),
            Err(message) => text::is_blank(password@) && message@
                == "Bundle password is required."@,
        },
{
    if blank(password) {
        Err("Bundle password is required.".to_owned())
    } else {
        Ok(())
    }
}

/// Why a payload cannot be compressed.
pub open spec fn gzip_failure(problem: (Seq<char>, bool)) -> Seq<char> {
    if problem.1 {
        "Failed to finalize gzip payload: "@ + problem.0
    } else {
        "Failed to gzip payload: "@ + problem.0
    }
}

/// Why a payload cannot become a bundle under a salt and a nonce.
pub open spec fn bundle_failure(
    payload: Seq<u8>,
    password: Seq<char>,
    salt: Seq<u8>,
    nonce: Seq<u8>,
) -> Option<Seq<char>> {
    if text::is_blank(password) {
        Some("Bundle password is required."@)
    } else {
        match bytes::gzipped(payload) {
            Err(problem) => Some(gzip_failure(problem)),
            Ok(packed) => match derived_key(password, salt) {
                Err(message) => Some(message),
                Ok(key) => match encryption(key, nonce, packed) {
                    Err(message) => Some("encryption failed: "@ + message),
                    Ok(_) => None,
                },
            },
        }
    }
}

/// Whether a payload becomes a bundle under a password whatever the salt and the nonce.
pub open spec fn is_bundled(payload: Seq<u8>, password: Seq<char>) -> bool {
    &&& !text::is_blank(password)
    &&& encode_utf8(password).len() <= u32::MAX
    &&& bytes::gzipped(payload) matches Ok(packed) && packed.len() < MAX_PLAINTEXT
}

/// Makes a bundle of the encoded payload under a given salt and nonce.
pub fn workspace_bundle_with(
    payload: &[u8],
    password: &str,
    salt: &[u8],
    nonce: &[u8],
) -> (r: Result<SharedWorkspaceBundleFile, String>)
    requires
        nonce@.len() == 24,
    ensures
        match r {
            Ok(bundle) => {
                &&& bundle_failure(payload@, password@, salt@, nonce@) is None
                &&& bundle.version == 1
                &&& bundle.salt_b64@ == encoded(salt@)
                &&& bundle_payload(bundle, password@) == Ok::<Seq<u8>, Seq<char>>(payload@)
            },
            Err(message) => bundle_failure(payload@, password@, salt@, nonce@) == Some(message@),
        },
        is_bundled(payload@, password@) && 8 <= salt@.len() <= u32::MAX ==> r is Ok,
{
    match check_bundle_password(password) {
        Ok(_) => {},
        Err(message) => {
            return Err(message);
        },
    }
    let packed = match gzip(payload) {
        Ok(packed) => packed,
        Err((message, finishing)) => {
            return Err(
                if finishing {
                    concat2("Failed to finalize gzip payload: ", message.as_str())
                } else {
                    concat2("Failed to gzip payload: ", message.as_str())
                },
            );
        },
    };
    let key = match derive_key(password, salt) {
        Ok(key) => key,
        Err(message) => {
            return Err(message);
        },
    };
    match encrypt_with_nonce(&key, nonce, packed.as_slice()) {
        Ok(encrypted) => Ok(
            SharedWorkspaceBundleFile { version: 1, salt_b64: encode(salt), encrypted },
        ),
        Err(message) => Err(message),
    }
}

/// Makes a bundle of the encoded payload. The password opens it, and the payload comes back.
pub fn serialize_workspace_bundle(payload: &[u8], password: &str) -> (r: Result<
    SharedWorkspaceBundleFile,
    String,
>)
    ensures
        match r {
            Ok(bundle) => bundle.version == 1 && bundle_payload(bundle, password@) == Ok::<
                Seq<u8>,
                Seq<char>,
            >(payload@),
            Err(message) => exists|salt: Seq<u8>, nonce: Seq<u8>|
                salt.len() == 16 && nonce.len() == 24 && #[trigger] bundle_failure(
                    payload@,
                    password@,
                    salt,
                    nonce,
                ) == Some(message@),
        },
        text::is_blank(password@) ==> r is Err,
        is_bundled(payload@, password@) ==> r is Ok,
{
    let salt = random_bytes(16);
    let nonce = random_bytes(24);
    workspace_bundle_with(payload, password, salt.as_slice(), nonce.as_slice())
}

/// Opens a bundle.
pub fn deserialize_workspace_bundle(bundle: &SharedWorkspaceBundleFile, password: &str) -> (r:
    Result<Vec<u8>, String>)
    ensures
        match r {
            Ok(payload) => bundle_payload(*bundle, password@) == Ok::<Seq<u8>, Seq<char>>(
                payload@,
            ),
            Err(message) => bundle_payload(*bundle, password@) == Err::<Seq<u8>, Seq<char>>(
                message@,
            ),
        },
{
    match check_bundle_password(password) {
        Ok(_) => {},
        Err(message) => {
            return Err(message);
        },
    }
    if bundle.version != 1 {
        return Err(
            concat2(
                "Unsupported bundle version: ",
                decimal_text(bundle.version as u64).as_str(),
            ),
        );
    }
    let salt = match decode(bundle.salt_b64.as_str()) {
        Ok(salt) => salt,
        Err(message) => {
            return Err(concat2("Invalid bundle salt: ", message.as_str()));
        },
    };
    let key = match derive_key(password, salt.as_slice()) {
        Ok(key) => key,
        Err(message) => {
            return Err(message);
        },
    };
    let packed = match decrypt_bytes(&key, &bundle.encrypted) {
        Ok(packed) => packed,
        Err(message) => {
            return Err(message);
        },
    };
    match gunzip(packed.as_slice()) {
        Ok(payload) => Ok(payload),
        Err(message) => Err(
            concat2("Failed to decompress bundle payload: ", message.as_str()),
        ),
    }
}

/// Whether payloads of the version can be read.
pub fn check_payload_version(version: u8) -> (r: Result<(), String>)
    ensures
        match r {
            Ok(_) => version == 1,
            Err(message) => version != 1 && message@ == "Unsupported payload version: "@
                + text::decimal(version as nat),
        },
{
    if version == 1 {
        Ok(())
    } else {
        Err(concat2("Unsupported payload version: ", decimal_text(version as u64).as_str()))
    }
}

// ---------------------------------------------------------------------------
// Laws
// ---------------------------------------------------------------------------

/// What is encrypted under a key is opened with that key, the nonce beside it and the bytes that
/// it was sealed to; nothing else opens it.
pub proof fn law_blob_is_opened_with_its_key(
    key: Seq<u8>,
    blob: EncryptedBlob,
    nonce: Seq<u8>,
    ciphertext: Seq<u8>,
)
    requires
        decoded(blob.nonce_b64@) == Ok::<Seq<u8>, Seq<char>>(nonce),
        decoded(blob.ciphertext_b64@) == Ok::<Seq<u8>, Seq<char>>(ciphertext),
        ciphertext.len() < MAX_PLAINTEXT,
    ensures
        nonce.len() == 24 ==> (decrypted(key, blob) matches Ok(plaintext) ==> opened(
            key,
            nonce,
            ciphertext,
        ) == Ok::<Seq<u8>, Seq<char>>(plaintext)),
        nonce.len() == 24 ==> (opened(key, nonce, ciphertext) matches Ok(plaintext) ==> decrypted(
            key,
            blob,
        ) == Ok::<Seq<u8>, Seq<char>>(plaintext)),
        nonce.len() == 24 && opened(key, nonce, ciphertext) is Err ==> decrypted(key, blob) is Err,
        nonce.len() != 24 ==> decrypted(key, blob) is Err,
{
}

/// A password unlocks the key that Argon2id makes of it and of the salt, where that key opens the
/// verifier; no other key is unlocked.
pub proof fn law_password_unlocks_its_own_key(
    password: Seq<char>,
    metadata: SecurityMetadata,
    key: Seq<u8>,
)
    requires
        unlocked(password, metadata) == Ok::<Seq<u8>, Seq<char>>(key),
    ensures
        decoded(metadata.salt_b64@) matches Ok(salt) && password_hash(password, salt, 65_536, 3, 1)
            == Ok::<Seq<u8>, Seq<char>>(key),
        decrypted(key, metadata.verifier) == Ok::<Seq<u8>, Seq<char>>(
            encode_utf8("delivery-man-unlock-verifier-v1"@),
        ),
{
}

/// A password whose key does not open the verifier unlocks nothing.
pub proof fn law_wrong_password_unlocks_nothing(
    password: Seq<char>,
    metadata: SecurityMetadata,
    salt: Seq<u8>,
)
    requires
        decoded(metadata.salt_b64@) == Ok::<Seq<u8>, Seq<char>>(salt),
        password_hash(password, salt, 65_536, 3, 1) matches Ok(key) ==> decrypted(
            key,
            metadata.verifier,
        ) != Ok::<Seq<u8>, Seq<char>>(encode_utf8("delivery-man-unlock-verifier-v1"@)),
    ensures
        unlocked(password, metadata) is Err,
{
}

/// A bundle is opened with its password alone: the key is that of the password and of the salt in
/// the bundle, and what it decrypts is the compressed payload.
pub proof fn law_bundle_is_opened_with_its_password(
    bundle: SharedWorkspaceBundleFile,
    password: Seq<char>,
    payload: Seq<u8>,
)
    requires
        bundle_payload(bundle, password) == Ok::<Seq<u8>, Seq<char>>(payload),
    ensures
        bundle.version == 1,
        !text::is_blank(password),
        decoded(bundle.salt_b64@) matches Ok(salt) && (password_hash(password, salt, 65_536, 3, 1)
            matches Ok(key) && (decrypted(key, bundle.encrypted) matches Ok(packed)
            && bytes::gunzipped(packed) == Ok::<Seq<u8>, Seq<char>>(payload))),
{
}

/// A bundle is made of the compressed payload, under the key of its password: it fails where the
/// password is blank, where one of these steps fails, and in no other case.
pub proof fn law_bundle_is_made_of_the_compressed_payload(
    payload: Seq<u8>,
    password: Seq<char>,
    salt: Seq<u8>,
    nonce: Seq<u8>,
    packed: Seq<u8>,
    key: Seq<u8>,
    message: Seq<char>,
)
    requires
        bytes::gzipped(payload) == Ok::<Seq<u8>, (Seq<char>, bool)>(packed),
        password_hash(password, salt, 65_536, 3, 1) == Ok::<Seq<u8>, Seq<char>>(key),
        encode_utf8(password).len() <= u32::MAX,
        packed.len() < MAX_PLAINTEXT,
    ensures
        text::is_blank(password) ==> bundle_failure(payload, password, salt, nonce) == Some(
            "Bundle password is required."@,
        ),
        !text::is_blank(password) ==> (bundle_failure(payload, password, salt, nonce) is None
            <==> sealed(key, nonce, packed) is Ok),
        !text::is_blank(password) && sealed(key, nonce, packed) == Err::<Seq<u8>, Seq<char>>(
            message,
        ) ==> bundle_failure(payload, password, salt, nonce) == Some(
            "encryption failed: "@ + message,
        ),
{
}

} // verus!
