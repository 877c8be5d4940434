//! Symmetric state of the Noise XX handshake.
//!
//! The state is a running SHA-256 chaining hash `h`, a chaining salt
//! `ck`, a per-stage AES-256-GCM key and a nonce counter. `h` evolves
//! only by `authenticate` (h ← SHA256(h ‖ data)) and by the
//! ciphertext-authentication step inside `encrypt` and `decrypt`. Mixing
//! a DH secret rotates `ck` and the key through HKDF-SHA256 and resets
//! the nonce counter to zero, preserving the running hash.

use vstd::prelude::*;
use crate::crypto::{
    aead_dec, aead_decrypt, aead_enc, aead_encrypt, dh_shared_secret, hkdf64,
    hkdf_extract_expand64, iv_spec, sha256, sha256_digest, x25519_shared,
};
use crate::error::Error;
use crate::noise_socket::NoiseSocket;

verus! {

/// The 32 protocol-name bytes `Noise_XX_25519_AESGCM_SHA256` padded with
/// four NUL bytes.
pub open spec fn noise_pattern() -> Seq<u8> {
    seq![
        78u8, 111u8, 105u8, 115u8, 101u8, 95u8, 88u8, 88u8, 95u8, 50u8, 53u8, 53u8, 49u8, 57u8,
        95u8, 65u8, 69u8, 83u8, 71u8, 67u8, 77u8, 95u8, 83u8, 72u8, 65u8, 50u8, 53u8, 54u8, 0u8,
        0u8, 0u8, 0u8,
    ]
}

/// One authentication step of the running hash.
pub open spec fn auth_step(h: Seq<u8>, data: Seq<u8>) -> Seq<u8> {
    sha256(h + data)
}

/// Authenticating `x` and then `y` leaves the running hash at
/// `SHA256(SHA256(h0 ‖ x) ‖ y)`.
pub proof fn lemma_authenticate_chain(h0: Seq<u8>, x: Seq<u8>, y: Seq<u8>)
    ensures
        auth_step(auth_step(h0, x), y) == sha256(sha256(h0 + x) + y),
{
}

/// Builds the protocol-name bytes.
pub fn noise_pattern_bytes() -> (r: Vec<u8>)
    ensures
        r@ == noise_pattern(),
        r@.len() == 32,
{
    let mut v: Vec<u8> = Vec::new();
    v.push(78);
    v.push(111);
    v.push(105);
    v.push(115);
    v.push(101);
    v.push(95);
    v.push(88);
    v.push(88);
    v.push(95);
    v.push(50);
    v.push(53);
    v.push(53);
    v.push(49);
    v.push(57);
    v.push(95);
    v.push(65);
    v.push(69);
    v.push(83);
    v.push(71);
    v.push(67);
    v.push(77);
    v.push(95);
    v.push(83);
    v.push(72);
    v.push(65);
    v.push(50);
    v.push(53);
    v.push(54);
    v.push(0);
    v.push(0);
    v.push(0);
    v.push(0);
    proof {
        assert(v@ =~= noise_pattern());
    }
    v
}

/// In-progress handshake state.
pub struct NoiseHandShake {
    hash: Vec<u8>,
    salt: Vec<u8>,
    counter: u32,
    key: Option<Vec<u8>>,
}

impl NoiseHandShake {
    /// The running chaining hash `h`.
    pub closed spec fn spec_hash(self) -> Seq<u8> {
        self.hash@
    }

    /// The chaining salt `ck`.
    pub closed spec fn spec_salt(self) -> Seq<u8> {
        self.salt@
    }

    /// The nonce counter of the current stage.
    pub closed spec fn spec_counter(self) -> u32 {
        self.counter
    }

    /// The AEAD key of the current stage, once one exists.
    pub closed spec fn spec_key(self) -> Option<Seq<u8>> {
        match self.key {
            Some(k) => Some(k@),
            None => None,
        }
    }

    /// A started state: 32-byte hash and salt, and a 32-byte stage key.
    pub open spec fn wf(self) -> bool {
        &&& self.spec_hash().len() == 32
        &&& self.spec_salt().len() == 32
        &&& self.spec_key() matches Some(k) && k.len() == 32
    }

    /// The running hash, for inspection.
    pub fn hash_bytes(&self) -> (r: Vec<u8>)
        ensures
            r@ == self.spec_hash(),
    {
        self.hash.clone()
    }

    /// Initialises the symmetric state from the protocol name and mixes
    /// the prologue `header` into the running hash. The name is already
    /// 32 bytes, so it is used directly; a longer name would be hashed
    /// down first.
    pub fn start(&mut self, header: Vec<u8>)
        ensures
            final(self).wf(),
            final(self).spec_hash() == auth_step(noise_pattern(), header@),
            final(self).spec_salt() == noise_pattern(),
            final(self).spec_key() == Some(noise_pattern()),
            final(self).spec_counter() == 0,
    {
        let data = noise_pattern_bytes();
        if data.len() == 32 {
            self.hash = data;
        } else {
            self.hash = sha256_digest(&data);
        }
        self.salt = self.hash.clone();
        self.key = Some(self.hash.clone());
        self.counter = 0;
        self.authenticate(&header);
    }

    /// Mixes bytes into the running hash: `h ← SHA256(h ‖ data)`.
    pub fn authenticate(&mut self, data: &Vec<u8>)
        ensures
            final(self).spec_hash() == auth_step(old(self).spec_hash(), data@),
            final(self).spec_hash().len() == 32,
            final(self).spec_salt() == old(self).spec_salt(),
            final(self).spec_key() == old(self).spec_key(),
            final(self).spec_counter() == old(self).spec_counter(),
    {
        let mut joined = self.hash.clone();
        joined.extend_from_slice(data.as_slice());
        proof {
            assert(joined@ =~= old(self).spec_hash() + data@);
        }
        self.hash = sha256_digest(&joined);
    }

    /// Computes the X25519 shared secret of the given key pair halves and
    /// mixes it into the chaining state: the counter resets to zero and
    /// `ck` and the stage key are replaced by the two halves of
    /// HKDF-SHA256(salt = ck, ikm = secret). The running hash is kept.
    pub fn mix_shared_secret(&mut self, private_key: Vec<u8>, public_key: Vec<u8>)
        requires
            private_key@.len() == 32,
            public_key@.len() == 32,
        ensures
            final(self).spec_hash() == old(self).spec_hash(),
            final(self).spec_counter() == 0,
            final(self).spec_salt() == hkdf64(
                old(self).spec_salt(),
                x25519_shared(private_key@, public_key@),
            ).subrange(0, 32),
            final(self).spec_key() == Some(
                hkdf64(old(self).spec_salt(), x25519_shared(private_key@, public_key@)).subrange(
                    32,
                    64,
                ),
            ),
            final(self).spec_salt().len() == 32,
            final(self).spec_key().unwrap().len() == 32,
    {
        let shared = dh_shared_secret(&private_key, &public_key);
        self.mix_into_key(shared);
    }

    /// Rotates `ck` and the stage key from HKDF output and resets the
    /// nonce counter.
    fn mix_into_key(&mut self, data: Vec<u8>)
        ensures
            final(self).spec_hash() == old(self).spec_hash(),
            final(self).spec_counter() == 0,
            final(self).spec_salt() == hkdf64(old(self).spec_salt(), data@).subrange(0, 32),
            final(self).spec_key() == Some(hkdf64(old(self).spec_salt(), data@).subrange(32, 64)),
            final(self).spec_salt().len() == 32,
            final(self).spec_key().unwrap().len() == 32,
    {
        self.counter = 0;
        let (write, read) = self.extract_and_expand(Some(&data));
        self.salt = write;
        self.key = Some(read);
    }

    /// Splits HKDF-SHA256(salt = ck, ikm = data or empty) into its two
    /// 32-byte halves.
    pub fn extract_and_expand(&self, data: Option<&Vec<u8>>) -> (r: (Vec<u8>, Vec<u8>))
        ensures
            ({
                let ikm = match data {
                    Some(d) => d@,
                    None => Seq::<u8>::empty(),
                };
                &&& r.0@ == hkdf64(self.spec_salt(), ikm).subrange(0, 32)
                &&& r.1@ == hkdf64(self.spec_salt(), ikm).subrange(32, 64)
                &&& r.0@.len() == 32
                &&& r.1@.len() == 32
            }),
    {
        let empty: Vec<u8> = Vec::new();
        proof {
            assert(empty@ =~= Seq::<u8>::empty());
        }
        let ikm = match data {
            Some(d) => d,
            None => &empty,
        };
        let okm = hkdf_extract_expand64(&self.salt, ikm);
        let write = vstd::slice::slice_to_vec(vstd::slice::slice_subrange(okm.as_slice(), 0, 32));
        let read = vstd::slice::slice_to_vec(vstd::slice::slice_subrange(okm.as_slice(), 32, 64));
        (write, read)
    }

    /// Encrypts a handshake payload under the stage key, with the current
    /// hash as associated data and the counter in the nonce; then advances
    /// the counter and authenticates the ciphertext.
    pub fn encrypt(&mut self, plaintext: &Vec<u8>) -> (r: Result<Vec<u8>, Error>)
        requires
            old(self).wf(),
            old(self).spec_counter() < 0xFFFF_FFFF,
        ensures
            final(self).spec_salt() == old(self).spec_salt(),
            final(self).spec_key() == old(self).spec_key(),
            old(self).spec_hash().len() <= 0x10_0000_0000 && plaintext@.len() <= 0x10_0000_0000
                ==> r is Ok,
            r is Ok ==> {
                &&& r.unwrap()@ == aead_enc(
                    old(self).spec_key().unwrap(),
                    iv_spec(old(self).spec_counter() as int),
                    old(self).spec_hash(),
                    plaintext@,
                )
                &&& r.unwrap()@.len() == plaintext@.len() + 16
                &&& aead_dec(
                    old(self).spec_key().unwrap(),
                    iv_spec(old(self).spec_counter() as int),
                    old(self).spec_hash(),
                    r.unwrap()@,
                ) == Some(plaintext@)
                &&& final(self).spec_counter() == old(self).spec_counter() + 1
                &&& final(self).spec_hash() == auth_step(old(self).spec_hash(), r.unwrap()@)
                &&& final(self).wf()
            },
            r is Err ==> {
                &&& r == Err::<Vec<u8>, Error>(Error::HandshakeAuth)
                &&& *final(self) == *old(self)
            },
    {
        let iv = NoiseSocket::generate_iv(self.counter);
        let key = match &self.key {
            Some(k) => k,
            None => {
                return Err(Error::HandshakeAuth);
            },
        };
        match aead_encrypt(key, &iv, &self.hash, plaintext) {
            Some(ct) => {
                self.counter = self.counter + 1;
                self.authenticate(&ct);
                Ok(ct)
            },
            None => Err(Error::HandshakeAuth),
        }
    }

    /// Decrypts a handshake payload under the stage key, with the current
    /// hash as associated data and the counter in the nonce. On success
    /// the counter advances and the ciphertext is authenticated into the
    /// hash; an AEAD failure is reported as `HandshakeAuth` and leaves the
    /// state as it was.
    pub fn decrypt(&mut self, cipher: &Vec<u8>) -> (r: Result<Vec<u8>, Error>)
        requires
            old(self).wf(),
            old(self).spec_counter() < 0xFFFF_FFFF,
        ensures
            final(self).spec_salt() == old(self).spec_salt(),
            final(self).spec_key() == old(self).spec_key(),
            ({
                let dec = aead_dec(
                    old(self).spec_key().unwrap(),
                    iv_spec(old(self).spec_counter() as int),
                    old(self).spec_hash(),
                    cipher@,
                );
                &&& dec is Some ==> {
                    &&& r is Ok
                    &&& r.unwrap()@ == dec.unwrap()
                    &&& final(self).spec_counter() == old(self).spec_counter() + 1
                    &&& final(self).spec_hash() == auth_step(old(self).spec_hash(), cipher@)
                    &&& final(self).wf()
                }
                &&& dec is None ==> {
                    &&& r == Err::<Vec<u8>, Error>(Error::HandshakeAuth)
                    &&& *final(self) == *old(self)
                }
            }),
    {
        let iv = NoiseSocket::generate_iv(self.counter);
        let key = match &self.key {
            Some(k) => k,
            None => {
                return Err(Error::HandshakeAuth);
            },
        };
        match aead_decrypt(key, &iv, &self.hash, cipher) {
            Some(pt) => {
                self.counter = self.counter + 1;
                self.authenticate(cipher);
                Ok(pt)
            },
            None => Err(Error::HandshakeAuth),
        }
    }
}

impl Default for NoiseHandShake {
    /// An un-started state: empty hash and salt, no stage key, counter
    /// zero.
    fn default() -> (r: Self)
        ensures
            r.spec_hash() == Seq::<u8>::empty(),
            r.spec_salt() == Seq::<u8>::empty(),
            r.spec_key() == None::<Seq<u8>>,
            r.spec_counter() == 0,
    {
        let r = NoiseHandShake { hash: Vec::new(), salt: Vec::new(), counter: 0, key: None };
        proof {
            assert(r.hash@ =~= Seq::<u8>::empty());
            assert(r.salt@ =~= Seq::<u8>::empty());
        }
        r
    }
}

} // verus!
