//! X25519 key pairs and the Signal-style signed pre-key.
//!
//! Signing with an X25519 identity derives an Ed25519 key
//! deterministically: the first 32 bytes of SHA-512 of the private scalar
//! seed the signing key. The signed input is the curve-type marker byte
//! `0x05` followed by the 32 public bytes of the key being signed.

use vstd::prelude::*;
use crate::crypto::{
    dh_public_key, ed25519_sign, ed_sign, random_bytes, sha512, sha512_digest, x25519_base,
};

verus! {

/// An X25519 key pair.
pub struct Key {
    pub public: Vec<u8>,
    pub private: Vec<u8>,
}

impl Key {
    /// Both halves are 32 bytes and the public point belongs to the
    /// private scalar.
    pub open spec fn wf(self) -> bool {
        &&& self.private@.len() == 32
        &&& self.public@.len() == 32
        &&& self.public@ == x25519_base(self.private@)
    }

    /// Draws a fresh key pair from the system generator.
    pub fn new() -> (k: Key)
        ensures
            k.wf(),
    {
        let private = random_bytes(32);
        let public = dh_public_key(&private);
        Key { public, private }
    }

    /// The Ed25519 signature, by this key's derived signing key, over the
    /// marker byte `0x05` and the public half of `key_to_sign`.
    pub fn sign(&self, key_to_sign: &Key) -> (r: Vec<u8>)
        requires
            self.private@.len() == 32,
        ensures
            r@ == ed_sign(
                sha512(self.private@).subrange(0, 32),
                seq![5u8] + key_to_sign.public@,
            ),
            r@.len() == 64,
    {
        let hash = sha512_digest(&self.private);
        let seed = vstd::slice::slice_to_vec(vstd::slice::slice_subrange(hash.as_slice(), 0, 32));
        let mut message: Vec<u8> = Vec::new();
        message.push(5);
        message.extend_from_slice(key_to_sign.public.as_slice());
        proof {
            assert(message@ =~= seq![5u8] + key_to_sign.public@);
        }
        ed25519_sign(&seed, &message)
    }

    /// Generates a pre-key under the given identifier and signs its
    /// public half with this key.
    pub fn create_signed_pre_key(&self, key_id: u32) -> (p: PreKey)
        requires
            self.private@.len() == 32,
        ensures
            p.key.wf(),
            p.id == key_id,
            p.signature@ == ed_sign(
                sha512(self.private@).subrange(0, 32),
                seq![5u8] + p.key.public@,
            ),
            p.signature@.len() == 64,
    {
        let mut new_key = PreKey::new(key_id);
        new_key.signature = self.sign(&new_key.key);
        new_key
    }
}

/// A pre-key: a key pair, an identifier, and the identity's signature
/// over its public half.
pub struct PreKey {
    pub key: Key,
    pub id: u32,
    pub signature: Vec<u8>,
}

impl PreKey {
    /// A fresh, not yet signed pre-key.
    fn new(key_id: u32) -> (p: PreKey)
        ensures
            p.key.wf(),
            p.id == key_id,
    {
        PreKey { key: Key::new(), id: key_id, signature: Vec::new() }
    }
}

} // verus!
