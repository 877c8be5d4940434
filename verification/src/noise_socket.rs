//! Post-handshake AEAD transport.
//!
//! Each frame is an AES-256-GCM ciphertext with empty associated data.
//! The nonce is 8 zero bytes followed by the big-endian 32-bit counter;
//! counters are per-direction, start at zero, and advance by one on every
//! successful send or receive, so no nonce is ever reused.

use vstd::prelude::*;
use crate::crypto::{aead_dec, aead_enc, aead_decrypt, aead_encrypt, iv_spec};
use crate::error::Error;

verus! {

/// The two directional AES-256-GCM keys and their frame counters.
pub struct NoiseSocket {
    write_key: Vec<u8>,
    read_key: Vec<u8>,
    write_counter: u64,
    read_counter: u64,
}

impl NoiseSocket {
    /// Key bytes used for outbound frames.
    pub closed spec fn spec_write_key(self) -> Seq<u8> {
        self.write_key@
    }

    /// Key bytes used for inbound frames.
    pub closed spec fn spec_read_key(self) -> Seq<u8> {
        self.read_key@
    }

    /// Number of frames sent so far.
    pub closed spec fn spec_write_counter(self) -> u64 {
        self.write_counter
    }

    /// Number of frames received so far.
    pub closed spec fn spec_read_counter(self) -> u64 {
        self.read_counter
    }

    /// Both keys are 32 bytes.
    pub closed spec fn wf(self) -> bool {
        self.write_key@.len() == 32 && self.read_key@.len() == 32
    }

    /// The ciphertext of the next outbound frame, were `pt` sent now.
    pub open spec fn send_ct(self, pt: Seq<u8>) -> Seq<u8> {
        aead_enc(
            self.spec_write_key(),
            iv_spec(self.spec_write_counter() as int),
            Seq::<u8>::empty(),
            pt,
        )
    }

    /// A socket over freshly split directional keys, both counters zero.
    pub fn new(write_key: Vec<u8>, read_key: Vec<u8>) -> (s: Self)
        requires
            write_key@.len() == 32,
            read_key@.len() == 32,
        ensures
            s.wf(),
            s.spec_write_key() == write_key@,
            s.spec_read_key() == read_key@,
            s.spec_write_counter() == 0,
            s.spec_read_counter() == 0,
    {
        NoiseSocket { write_key, read_key, write_counter: 0, read_counter: 0 }
    }

    /// Reports the number of frames sent.
    pub fn get_write_counter(&self) -> (n: u64)
        ensures
            n == self.spec_write_counter(),
    {
        self.write_counter
    }

    /// Reports the number of frames received.
    pub fn get_read_counter(&self) -> (n: u64)
        ensures
            n == self.spec_read_counter(),
    {
        self.read_counter
    }

    /// The AEAD nonce for a counter value: 8 zero bytes then the counter,
    /// big-endian.
    pub fn generate_iv(counter: u32) -> (r: Vec<u8>)
        ensures
            r@ == iv_spec(counter as int),
            r@.len() == 12,
    {
        let mut iv: Vec<u8> = Vec::new();
        let mut i: usize = 0;
        while i < 8
            invariant
                i <= 8,
                iv@ =~= Seq::new(i as nat, |_j: int| 0u8),
            decreases 8 - i,
        {
            iv.push(0);
            i = i + 1;
        }
        crate::wire::push_be32(&mut iv, counter);
        proof {
            assert(iv@ =~= iv_spec(counter as int));
        }
        iv
    }

    /// Encrypts one outbound frame under the write key at the current
    /// write counter, then advances the counter. The ciphertext decrypts
    /// back to the plaintext under the same key and counter.
    pub fn make_frame(&mut self, plaintext: Vec<u8>) -> (r: Result<Vec<u8>, Error>)
        requires
            old(self).wf(),
            old(self).spec_write_counter() < 0x1_0000_0000,
        ensures
            final(self).wf(),
            final(self).spec_write_key() == old(self).spec_write_key(),
            final(self).spec_read_key() == old(self).spec_read_key(),
            final(self).spec_read_counter() == old(self).spec_read_counter(),
            plaintext@.len() <= 0x10_0000_0000 ==> r is Ok,
            r is Ok ==> {
                &&& r.unwrap()@ == old(self).send_ct(plaintext@)
                &&& r.unwrap()@.len() == plaintext@.len() + 16
                &&& aead_dec(
                    old(self).spec_write_key(),
                    iv_spec(old(self).spec_write_counter() as int),
                    Seq::<u8>::empty(),
                    r.unwrap()@,
                ) == Some(plaintext@)
                &&& final(self).spec_write_counter() == old(self).spec_write_counter() + 1
            },
            r is Err ==> {
                &&& r == Err::<Vec<u8>, Error>(Error::TransportAuth)
                &&& final(self).spec_write_counter() == old(self).spec_write_counter()
            },
    {
        let iv = Self::generate_iv(self.write_counter as u32);
        let aad: Vec<u8> = Vec::new();
        proof {
            assert(aad@ =~= Seq::<u8>::empty());
        }
        match aead_encrypt(&self.write_key, &iv, &aad, &plaintext) {
            Some(ct) => {
                self.write_counter = self.write_counter + 1;
                Ok(ct)
            },
            None => Err(Error::TransportAuth),
        }
    }

    /// Decrypts one inbound frame under the read key at the current read
    /// counter. On success the counter advances; an authentication failure
    /// is fatal and reported as `TransportAuth`, leaving the socket as it
    /// was.
    pub fn receive_encrypted_frame(&mut self, ciphertext: &Vec<u8>) -> (r: Result<Vec<u8>, Error>)
        requires
            old(self).wf(),
            old(self).spec_read_counter() < 0x1_0000_0000,
        ensures
            final(self).wf(),
            final(self).spec_write_key() == old(self).spec_write_key(),
            final(self).spec_read_key() == old(self).spec_read_key(),
            final(self).spec_write_counter() == old(self).spec_write_counter(),
            ({
                let dec = aead_dec(
                    old(self).spec_read_key(),
                    iv_spec(old(self).spec_read_counter() as int),
                    Seq::<u8>::empty(),
                    ciphertext@,
                );
                &&& dec is Some ==> {
                    &&& r is Ok
                    &&& r.unwrap()@ == dec.unwrap()
                    &&& final(self).spec_read_counter() == old(self).spec_read_counter() + 1
                }
                &&& dec is None ==> {
                    &&& r == Err::<Vec<u8>, Error>(Error::TransportAuth)
                    &&& final(self).spec_read_counter() == old(self).spec_read_counter()
                }
            }),
    {
        let iv = Self::generate_iv(self.read_counter as u32);
        let aad: Vec<u8> = Vec::new();
        proof {
            assert(aad@ =~= Seq::<u8>::empty());
        }
        match aead_decrypt(&self.read_key, &iv, &aad, ciphertext) {
            Some(pt) => {
                self.read_counter = self.read_counter + 1;
                Ok(pt)
            },
            None => Err(Error::TransportAuth),
        }
    }
}

/// Two sockets are mirrored when one's write key is the other's read key
/// and the matching counters agree.
pub open spec fn mirrored(tx: NoiseSocket, rx: NoiseSocket) -> bool {
    &&& tx.spec_write_key() == rx.spec_read_key()
    &&& tx.spec_write_counter() == rx.spec_read_counter()
}

/// In a mirrored pair, every sequence of sends decrypts back to the
/// original plaintexts in order, and after `N` successful sends the write
/// counter has advanced by `N`, as has the mirrored read counter.
pub fn relay_frames(tx: &mut NoiseSocket, rx: &mut NoiseSocket, plaintexts: &Vec<Vec<u8>>) -> (r:
    Result<Vec<Vec<u8>>, Error>)
    requires
        old(tx).wf(),
        old(rx).wf(),
        mirrored(*old(tx), *old(rx)),
        old(tx).spec_write_counter() + plaintexts@.len() < 0x1_0000_0000,
    ensures
        (forall|i: int|
            0 <= i < plaintexts@.len() ==> (#[trigger] plaintexts@[i])@.len()
                <= 0x10_0000_0000) ==> r is Ok,
        r is Ok ==> {
            &&& r.unwrap()@.len() == plaintexts@.len()
            &&& forall|i: int|
                0 <= i < plaintexts@.len() ==> r.unwrap()@[i]@ == plaintexts@[i]@
            &&& final(tx).spec_write_counter() == old(tx).spec_write_counter()
                + plaintexts@.len()
            &&& final(rx).spec_read_counter() == old(rx).spec_read_counter() + plaintexts@.len()
        },
{
    let mut out: Vec<Vec<u8>> = Vec::new();
    let n = plaintexts.len();
    let mut i: usize = 0;
    while i < n
        invariant
            n == plaintexts@.len(),
            i <= n,
            tx.wf(),
            rx.wf(),
            mirrored(*tx, *rx),
            tx.spec_write_key() == old(tx).spec_write_key(),
            rx.spec_read_key() == old(rx).spec_read_key(),
            tx.spec_write_counter() == old(tx).spec_write_counter() + i,
            rx.spec_read_counter() == old(rx).spec_read_counter() + i,
            old(tx).spec_write_counter() + n < 0x1_0000_0000,
            out@.len() == i,
            forall|j: int| 0 <= j < i ==> out@[j]@ == plaintexts@[j]@,
        decreases n - i,
    {
        let pt = plaintexts[i].clone();
        let ghost pt_view = pt@;
        let ct = match tx.make_frame(pt) {
            Ok(ct) => ct,
            Err(e) => {
                proof {
                    if forall|j: int|
                        0 <= j < plaintexts@.len() ==> (#[trigger] plaintexts@[j])@.len()
                            <= 0x10_0000_0000 {
                        assert(plaintexts@[i as int]@.len() <= 0x10_0000_0000);
                        assert(false);
                    }
                }
                return Err(e);
            },
        };
        let back = match rx.receive_encrypted_frame(&ct) {
            Ok(b) => b,
            Err(e) => {
                proof {
                    assert(false);
                }
                return Err(e);
            },
        };
        out.push(back);
        i = i + 1;
    }
    Ok(out)
}

} // verus!
