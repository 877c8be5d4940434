//! Trusted bindings to the cryptographic primitives the protocol uses.
//!
//! Each digest, key exchange, key derivation and signature is a pure
//! function of its inputs; those results are given uninterpreted names
//! that the verified contracts build on. Only facts the primitives'
//! documentation plainly gives (output lengths, AEAD decryption inverting
//! encryption) are stated beside the names.

use vstd::prelude::*;
use sha2::Digest;
use rand_core::RngCore;
use aes_gcm::KeyInit;
use ed25519_dalek::Signer;

verus! {

/// SHA-256 digest of a byte string.
pub uninterp spec fn sha256(data: Seq<u8>) -> Seq<u8>;

/// SHA-512 digest of a byte string.
pub uninterp spec fn sha512(data: Seq<u8>) -> Seq<u8>;

/// The 64 bytes of HKDF-SHA256 output keyed by `salt` over `ikm`, with an
/// empty info string.
pub uninterp spec fn hkdf64(salt: Seq<u8>, ikm: Seq<u8>) -> Seq<u8>;

/// X25519 shared secret of a private scalar and a peer public point.
pub uninterp spec fn x25519_shared(privkey: Seq<u8>, pubkey: Seq<u8>) -> Seq<u8>;

/// X25519 public point of a private scalar.
pub uninterp spec fn x25519_base(privkey: Seq<u8>) -> Seq<u8>;

/// Ed25519 signature by the key with the given 32-byte seed over a message.
pub uninterp spec fn ed_sign(seed: Seq<u8>, msg: Seq<u8>) -> Seq<u8>;

/// MD5 digest of a byte string.
pub uninterp spec fn md5_of(data: Seq<u8>) -> Seq<u8>;

/// AES-256-GCM ciphertext (with appended tag) of a plaintext under a key,
/// a 96-bit nonce and associated data.
pub uninterp spec fn aead_enc(key: Seq<u8>, iv: Seq<u8>, aad: Seq<u8>, pt: Seq<u8>) -> Seq<u8>;

/// AES-256-GCM decryption under a key, nonce and associated data: the
/// plaintext when the tag verifies, nothing otherwise.
pub uninterp spec fn aead_dec(key: Seq<u8>, iv: Seq<u8>, aad: Seq<u8>, ct: Seq<u8>) -> Option<
    Seq<u8>,
>;

/// Relies on sha2::Sha256: a deterministic 32-byte digest.
#[verifier::external_body]
pub fn sha256_digest(data: &Vec<u8>) -> (r: Vec<u8>)
    ensures
        r@ == sha256(data@),
        r@.len() == 32,
{
    let mut hasher = sha2::Sha256::new();
    hasher.update(data.as_slice());
    hasher.finalize().to_vec()
}

/// Relies on sha2::Sha512: a deterministic 64-byte digest.
#[verifier::external_body]
pub fn sha512_digest(data: &Vec<u8>) -> (r: Vec<u8>)
    ensures
        r@ == sha512(data@),
        r@.len() == 64,
{
    let mut hasher = sha2::Sha512::new();
    hasher.update(data.as_slice());
    hasher.finalize().to_vec()
}

/// Relies on hkdf::Hkdf over SHA-256: extract with `salt`, then expand 64
/// bytes with an empty info string; deterministic, and expanding 64 bytes
/// never fails.
#[verifier::external_body]
pub fn hkdf_extract_expand64(salt: &Vec<u8>, ikm: &Vec<u8>) -> (r: Vec<u8>)
    ensures
        r@ == hkdf64(salt@, ikm@),
        r@.len() == 64,
{
    let hk = hkdf::Hkdf::<sha2::Sha256>::new(Some(salt.as_slice()), ikm.as_slice());
    let mut okm = [0u8; 64];
    hk.expand(&[], &mut okm).expect("64 bytes is a valid HKDF-SHA256 output length");
    okm.to_vec()
}

/// Relies on x25519_dalek::StaticSecret::diffie_hellman: a deterministic
/// 32-byte shared secret.
#[verifier::external_body]
pub fn dh_shared_secret(privkey: &Vec<u8>, pubkey: &Vec<u8>) -> (r: Vec<u8>)
    requires
        privkey@.len() == 32,
        pubkey@.len() == 32,
    ensures
        r@ == x25519_shared(privkey@, pubkey@),
        r@.len() == 32,
{
    let mut sk = [0u8; 32];
    sk.copy_from_slice(privkey.as_slice());
    let mut pk = [0u8; 32];
    pk.copy_from_slice(pubkey.as_slice());
    let secret = x25519_dalek::StaticSecret::from(sk);
    let public = x25519_dalek::PublicKey::from(pk);
    secret.diffie_hellman(&public).as_bytes().to_vec()
}

/// Relies on x25519_dalek::PublicKey::from: the public point is a
/// deterministic function of the private scalar.
#[verifier::external_body]
pub fn dh_public_key(privkey: &Vec<u8>) -> (r: Vec<u8>)
    requires
        privkey@.len() == 32,
    ensures
        r@ == x25519_base(privkey@),
        r@.len() == 32,
{
    let mut sk = [0u8; 32];
    sk.copy_from_slice(privkey.as_slice());
    let secret = x25519_dalek::StaticSecret::from(sk);
    x25519_dalek::PublicKey::from(&secret).as_bytes().to_vec()
}

/// Relies on ed25519_dalek::SigningKey::sign: RFC 8032 signing is
/// deterministic in the seed and the message, with a 64-byte signature.
#[verifier::external_body]
pub fn ed25519_sign(seed: &Vec<u8>, msg: &Vec<u8>) -> (r: Vec<u8>)
    requires
        seed@.len() == 32,
    ensures
        r@ == ed_sign(seed@, msg@),
        r@.len() == 64,
{
    let mut s = [0u8; 32];
    s.copy_from_slice(seed.as_slice());
    let key = ed25519_dalek::SigningKey::from_bytes(&s);
    key.sign(msg.as_slice()).to_bytes().to_vec()
}

/// Relies on md5::compute: a deterministic 16-byte digest.
#[verifier::external_body]
pub fn md5_digest(data: &Vec<u8>) -> (r: Vec<u8>)
    ensures
        r@ == md5_of(data@),
        r@.len() == 16,
{
    md5::compute(data.as_slice()).0.to_vec()
}

/// Relies on rand_core::OsRng::fill_bytes: fills the requested number of
/// bytes from the operating system's secure generator. Nothing is assumed
/// of the values.
#[verifier::external_body]
pub fn random_bytes(n: usize) -> (r: Vec<u8>)
    ensures
        r@.len() == n,
{
    let mut buf = vec![0u8; n];
    rand_core::OsRng.fill_bytes(&mut buf);
    buf
}

/// Relies on aes_gcm::Aes256Gcm encryption: deterministic in key, nonce,
/// associated data and plaintext; it fails only when the plaintext or the
/// associated data exceed 2^36 bytes; the ciphertext is the plaintext
/// length plus the 16-byte tag, and decrypting it with the same
/// parameters gives the plaintext back.
#[verifier::external_body]
pub fn aead_encrypt(key: &Vec<u8>, iv: &Vec<u8>, aad: &Vec<u8>, pt: &Vec<u8>) -> (r: Option<
    Vec<u8>,
>)
    requires
        key@.len() == 32,
        iv@.len() == 12,
    ensures
        pt@.len() <= 0x10_0000_0000 && aad@.len() <= 0x10_0000_0000 ==> r is Some,
        r is Some ==> {
            &&& r.unwrap()@ == aead_enc(key@, iv@, aad@, pt@)
            &&& r.unwrap()@.len() == pt@.len() + 16
            &&& aead_dec(key@, iv@, aad@, r.unwrap()@) == Some(pt@)
        },
{
    let cipher = aes_gcm::Aes256Gcm::new(aes_gcm::Key::<aes_gcm::Aes256Gcm>::from_slice(
        key.as_slice(),
    ));
    let nonce = aes_gcm::Nonce::from_slice(iv.as_slice());
    let payload = aes_gcm::aead::Payload { msg: pt.as_slice(), aad: aad.as_slice() };
    match aes_gcm::aead::Aead::encrypt(&cipher, nonce, payload) {
        Ok(ct) => Some(ct),
        Err(_) => None,
    }
}

/// Relies on aes_gcm::Aes256Gcm decryption: deterministic in key, nonce,
/// associated data and ciphertext; succeeds exactly when the tag verifies.
#[verifier::external_body]
pub fn aead_decrypt(key: &Vec<u8>, iv: &Vec<u8>, aad: &Vec<u8>, ct: &Vec<u8>) -> (r: Option<
    Vec<u8>,
>)
    requires
        key@.len() == 32,
        iv@.len() == 12,
    ensures
        (r is Some) == (aead_dec(key@, iv@, aad@, ct@) is Some),
        r is Some ==> r.unwrap()@ == aead_dec(key@, iv@, aad@, ct@).unwrap(),
{
    let cipher = aes_gcm::Aes256Gcm::new(aes_gcm::Key::<aes_gcm::Aes256Gcm>::from_slice(
        key.as_slice(),
    ));
    let nonce = aes_gcm::Nonce::from_slice(iv.as_slice());
    let payload = aes_gcm::aead::Payload { msg: ct.as_slice(), aad: aad.as_slice() };
    match aes_gcm::aead::Aead::decrypt(&cipher, nonce, payload) {
        Ok(pt) => Some(pt),
        Err(_) => None,
    }
}

/// The 96-bit AEAD nonce layout: 8 zero bytes followed by the big-endian
/// 32-bit counter.
pub open spec fn iv_spec(counter: int) -> Seq<u8> {
    seq![0u8, 0u8, 0u8, 0u8, 0u8, 0u8, 0u8, 0u8] + crate::wire::spec_be32(counter)
}

} // verus!
