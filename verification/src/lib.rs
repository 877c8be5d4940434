//! Core of a client for the WhatsApp Web wire protocol: length-prefixed
//! framing over a binary carrier, a Noise XX handshake terminating in two
//! directional AES-256-GCM keys, an AEAD transport socket with monotonic
//! per-direction counters, and the dictionary-based binary XML codec used
//! for application payloads.

pub mod codec;
pub mod crypto;
pub mod decoder;
pub mod device;
pub mod encoder;
pub mod error;
pub mod frame;
pub mod handshake;
pub mod hsproto;
pub mod jid;
pub mod keys;
pub mod protobuf;
pub mod session;
pub mod node;
pub mod noise_socket;
pub mod token;
pub mod wire;
pub mod xml;

use vstd::prelude::*;

verus! {

} // verus!
