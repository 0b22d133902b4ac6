//! The primitives behind QUIC's Initial protection, as functions on bytes.
//!
//! Each primitive is a name without a definition, tied to the call that computes it. What the
//! rest of the library proves about protected packets is relative to these names.

use aes::cipher::BlockEncrypt;
use aes::Aes128;
use aes_gcm::aead::{Aead, Payload};
use aes_gcm::{Aes128Gcm, KeyInit};
use hkdf::Hkdf;
use sha2::Sha256;
use vstd::prelude::*;

verus! {

/// What SHA-256 digests to, and the shortest key HKDF-Expand takes.
pub const HASH: usize = 32;

/// HKDF-Expand writes at most 255 digests.
pub const MAX_EXPAND: usize = 8160;

/// AEAD_AES_128_GCM's tag.
pub const TAG: usize = 16;

/// The longest plaintext and the longest associated data AES-GCM accepts.
pub const GCM_MAX: u64 = 0x10_0000_0000;

/// The pseudorandom key of HKDF-Extract with SHA-256 (RFC 5869, Section 2.2).
pub uninterp spec fn hkdf_extract(salt: Seq<u8>, ikm: Seq<u8>) -> Seq<u8>;

/// The first `len` bytes of HKDF-Expand with SHA-256 (RFC 5869, Section 2.3).
pub uninterp spec fn hkdf_expand(prk: Seq<u8>, info: Seq<u8>, len: nat) -> Seq<u8>;

/// One block under the AES-128 cipher (FIPS 197).
pub uninterp spec fn aes128_block(key: Seq<u8>, block: Seq<u8>) -> Seq<u8>;

/// What AES-128-GCM opens a ciphertext with its tag to, if the tag is authentic.
pub uninterp spec fn aes128_gcm_open(
    key: Seq<u8>,
    nonce: Seq<u8>,
    aad: Seq<u8>,
    ciphertext: Seq<u8>,
) -> Option<Seq<u8>>;

/// What AES-128-GCM seals a plaintext to, the tag at the end.
pub uninterp spec fn aes128_gcm_seal(
    key: Seq<u8>,
    nonce: Seq<u8>,
    aad: Seq<u8>,
    plaintext: Seq<u8>,
) -> Seq<u8>;

/// Calls `hkdf::Hkdf::<Sha256>::extract` and hands out the pseudorandom key.
///
/// Claimed: the key is a function of the salt and the input keying material.
#[verifier::external_body]
pub(crate) fn extract(salt: &[u8], ikm: &[u8]) -> (prk: [u8; 32])
    ensures
        prk@ == hkdf_extract(salt@, ikm@),
{
    Hkdf::<Sha256>::extract(Some(salt), ikm).0.into()
}

/// Calls `hkdf::Hkdf::<Sha256>::from_prk`, then `Hkdf::expand` on the result.
///
/// Claimed: the output is filled, with a function of the key, the info and the output's
/// length, exactly when the key has at least a digest's length and the output at most 255
/// digests'; otherwise the output is left alone.
#[verifier::external_body]
pub(crate) fn expand(prk: &[u8], info: &[u8], okm: &mut [u8]) -> (done: bool)
    ensures
        done == (prk@.len() >= HASH && old(okm)@.len() <= MAX_EXPAND),
        final(okm)@.len() == old(okm)@.len(),
        final(okm)@ == if done {
            hkdf_expand(prk@, info@, old(okm)@.len())
        } else {
            old(okm)@
        },
{
    match Hkdf::<Sha256>::from_prk(prk) {
        Ok(hkdf) => hkdf.expand(info, okm).is_ok(),
        Err(_) => false,
    }
}

/// Calls `aes::Aes128::new`, then `BlockEncrypt::encrypt_block` on a copy of the block.
///
/// Claimed: the encrypted block is a function of the key and the block.
#[verifier::external_body]
pub(crate) fn encrypt_block(key: &[u8; 16], block: &[u8; 16]) -> (out: [u8; 16])
    ensures
        out@ == aes128_block(key@, block@),
{
    let mut out = *block;
    Aes128::new(key.into()).encrypt_block((&mut out).into());
    out
}

/// Calls `aes_gcm::Aes128Gcm::new`, then `Aead::decrypt`.
///
/// Claimed: whether a plaintext comes out, and which, is a function of the key, the nonce,
/// the associated data and the ciphertext; the plaintext is the ciphertext's length less the
/// tag's. When a tag is authentic is left to the name.
#[verifier::external_body]
pub(crate) fn decrypt(key: &[u8; 16], nonce: &[u8; 12], aad: &[u8], ciphertext: &[u8]) -> (plain:
    Option<Vec<u8>>)
    ensures
        match plain {
            Some(plain) => aes128_gcm_open(key@, nonce@, aad@, ciphertext@) == Some(plain@)
                && plain@.len() + TAG == ciphertext@.len(),
            None => aes128_gcm_open(key@, nonce@, aad@, ciphertext@) is None,
        },
{
    Aes128Gcm::new(key.into()).decrypt(nonce.into(), Payload { msg: ciphertext, aad }).ok()
}

/// Calls `aes_gcm::Aes128Gcm::new`, then `Aead::encrypt`.
///
/// Claimed: it succeeds exactly when the plaintext and the associated data are within
/// AES-GCM's limits; the result is a function of the arguments, is a tag longer than the
/// plaintext, and opens to the plaintext under the same key, nonce and associated data.
#[verifier::external_body]
pub(crate) fn encrypt(key: &[u8; 16], nonce: &[u8; 12], aad: &[u8], plaintext: &[u8]) -> (sealed:
    Option<Vec<u8>>)
    ensures
        sealed is Some == (plaintext@.len() <= GCM_MAX && aad@.len() <= GCM_MAX),
        match sealed {
            Some(out) => {
                &&& out@ == aes128_gcm_seal(key@, nonce@, aad@, plaintext@)
                &&& out@.len() == plaintext@.len() + TAG
                &&& aes128_gcm_open(key@, nonce@, aad@, out@) == Some(plaintext@)
            },
            None => true,
        },
{
    Aes128Gcm::new(key.into()).encrypt(nonce.into(), Payload { msg: plaintext, aad }).ok()
}

} // verus!
