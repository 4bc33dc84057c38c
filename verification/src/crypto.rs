//! The encryption scheme of vault backups: a random 32-byte salt, a key
//! derived by hashing the password bytes and the salt, a random 96-bit
//! nonce, and an authenticated cipher over the payload. The layout logic is
//! verified; the hash, the cipher and the randomness are trusted primitives.

use vstd::prelude::*;
use aes_gcm::aead::{Aead, KeyInit};
use rand::RngCore;
use crate::errors::VaultError;

verus! {

#[verifier::external_type_specification]
#[verifier::external_body]
pub struct ExAeadError(aes_gcm::Error);

/// The name of what `Aes256Gcm::decrypt` returns: the plaintext that the
/// ciphertext authenticates under this key and nonce, if its integrity tag
/// verifies; a function of the three inputs alone.
pub uninterp spec fn opened(key: Seq<u8>, nonce: Seq<u8>, ct: Seq<u8>) -> Option<Seq<u8>>;

/// The largest payload AES-GCM encrypts: 2^36 bytes.
pub open spec fn gcm_p_max() -> int {
    0x10_0000_0000
}

/// Relies on aes_gcm's `Aead::encrypt` for `Aes256Gcm`: it fails exactly
/// when the plaintext exceeds the cipher's 2^36-byte limit; otherwise the
/// ciphertext is the plaintext plus a 16-byte integrity tag, and decrypting
/// it with the same key and nonce yields the plaintext again.
#[verifier::external_body]
fn aes_seal(key: &[u8], nonce: &[u8], data: &[u8]) -> (r: Result<Vec<u8>, aes_gcm::Error>)
    requires
        key@.len() == 32,
        nonce@.len() == 12,
    ensures
        r is Ok <==> data@.len() <= gcm_p_max(),
        r is Ok ==> opened(key@, nonce@, r->Ok_0@) == Some(data@),
        r is Ok ==> r->Ok_0@.len() == data@.len() + 16,
{
    let cipher = aes_gcm::Aes256Gcm::new(aes_gcm::Key::<aes_gcm::Aes256Gcm>::from_slice(key));
    cipher.encrypt(aes_gcm::Nonce::from_slice(nonce), data)
}

/// Relies on aes_gcm's `Aead::decrypt` for `Aes256Gcm`: returns the
/// authenticated plaintext, and fails exactly when the integrity tag does
/// not verify.
#[verifier::external_body]
fn aes_open(key: &[u8], nonce: &[u8], ct: &[u8]) -> (r: Result<Vec<u8>, aes_gcm::Error>)
    requires
        key@.len() == 32,
        nonce@.len() == 12,
    ensures
        r is Ok <==> opened(key@, nonce@, ct@) is Some,
        r is Ok ==> Some(r->Ok_0@) == opened(key@, nonce@, ct@),
{
    let cipher = aes_gcm::Aes256Gcm::new(aes_gcm::Key::<aes_gcm::Aes256Gcm>::from_slice(key));
    cipher.decrypt(aes_gcm::Nonce::from_slice(nonce), ct)
}

/// The name of the derived 256-bit key: the digest of the password bytes
/// followed by the salt; a function of the two inputs alone.
pub uninterp spec fn derived_key(password: Seq<char>, salt: Seq<u8>) -> Seq<u8>;

/// Relies on `blake3::Hasher`: hashing the password bytes, then the salt,
/// gives a 32-byte digest that depends on those inputs alone.
#[verifier::external_body]
fn derive_key(password: &str, salt: &[u8]) -> (r: Vec<u8>)
    ensures
        r@ == derived_key(password@, salt@),
        r@.len() == 32,
{
    let mut hasher = blake3::Hasher::new();
    hasher.update(password.as_bytes());
    hasher.update(salt);
    hasher.finalize().as_bytes().to_vec()
}

/// Relies on `rand::thread_rng` and `RngCore::fill_bytes`: 32 bytes, about
/// which nothing but the length is promised.
#[verifier::external_body]
fn random_salt() -> (r: Vec<u8>)
    ensures
        r@.len() == 32,
{
    let mut b = [0u8; 32];
    rand::thread_rng().fill_bytes(&mut b);
    b.to_vec()
}

/// Relies on `rand::thread_rng` and `RngCore::fill_bytes`: 12 bytes, about
/// which nothing but the length is promised.
#[verifier::external_body]
fn random_nonce() -> (r: Vec<u8>)
    ensures
        r@.len() == 12,
{
    let mut b = [0u8; 12];
    rand::thread_rng().fill_bytes(&mut b);
    b.to_vec()
}

/// What decrypting an encrypted payload yields: the embedded salt rebuilds
/// the key, the embedded nonce and the remainder go to the cipher.
pub open spec fn spec_decrypt(data: Seq<u8>, password: Seq<char>) -> Option<Seq<u8>> {
    if data.len() < 44 {
        None
    } else {
        opened(
            derived_key(password, data.subrange(0, 32)),
            data.subrange(32, 44),
            data.subrange(44, data.len() as int),
        )
    }
}

/// Encrypts `data` under `password`: salt, then nonce, then ciphertext.
/// Whatever salt and nonce were drawn, decrypting the result with the same
/// password yields `data` again. Succeeds on every payload within the
/// cipher's length limit.
pub(crate) fn encrypt_data(data: &[u8], password: &str) -> (r: Result<Vec<u8>, VaultError>)
    ensures
        match r {
            Ok(blob) => {
                &&& spec_decrypt(blob@, password@) == Some(data@)
                &&& blob@.len() == data@.len() + 60
            },
            Err(e) => e == VaultError::StorageIO && data@.len() > gcm_p_max(),
        },
{
    let salt = random_salt();
    let key = derive_key(password, salt.as_slice());
    let nonce = random_nonce();
    let ct = match aes_seal(key.as_slice(), nonce.as_slice(), data) {
        Err(_) => {
            return Err(VaultError::StorageIO);
        },
        Ok(c) => c,
    };
    let mut out: Vec<u8> = Vec::new();
    out.extend_from_slice(salt.as_slice());
    out.extend_from_slice(nonce.as_slice());
    out.extend_from_slice(ct.as_slice());
    proof {
        assert(out@.subrange(0, 32) =~= salt@);
        assert(out@.subrange(32, 44) =~= nonce@);
        assert(out@.subrange(44, out@.len() as int) =~= ct@);
    }
    Ok(out)
}


/// Decrypts an encrypted payload with `password`; fails with
/// `DecryptionFailed` exactly when the payload is too short or its
/// integrity tag does not verify under the derived key.
pub(crate) fn decrypt_data(data: &[u8], password: &str) -> (r: Result<Vec<u8>, VaultError>)
    ensures
        match r {
            Ok(p) => spec_decrypt(data@, password@) == Some(p@),
            Err(e) => e == VaultError::DecryptionFailed && spec_decrypt(data@, password@) is None,
        },
{
    if data.len() < 44 {
        return Err(VaultError::DecryptionFailed);
    }
    let salt = &data[0..32];
    let nonce = &data[32..44];
    let ct = &data[44..data.len()];
    let key = derive_key(password, salt);
    match aes_open(key.as_slice(), nonce, ct) {
        Ok(p) => Ok(p),
        Err(_) => Err(VaultError::DecryptionFailed),
    }
}

} // verus!
