//! Persistent device identity and its registration payload.
//!
//! A device owns a noise key, an identity key, a signed pre-key, a
//! 32-bit registration id and a 32-byte advertising secret. The
//! registration payload is the protocol-buffer `ClientPayload` carrying
//! the web user agent, connection metadata and the device-pairing
//! registration data.

use vstd::prelude::*;
use crate::crypto::{ed_sign, md5_digest, md5_of, random_bytes, sha512};
use crate::keys::{Key, PreKey};
use crate::protobuf::{pb_bytes, pb_uint, write_bytes_field, write_str_field, write_uint_field};
use crate::wire::{push_be24, push_be32, spec_be24, spec_be32};
use vstd::utf8::encode_utf8;

verus! {

/// Persistent key material and identifiers of one device.
pub struct Device {
    pub noise_key: Key,
    pub identity_key: Key,
    pub signed_pre_key: PreKey,
    pub registration_id: u32,
    pub adv_secret_key: Vec<u8>,
}

/// The version string whose MD5 digest registers as the build hash.
pub open spec fn spec_version_string() -> Seq<char> {
    "2.3000.1022419966"@
}

/// The `UserAgent` submessage: platform Web, release channel, app
/// version 2.3000.1022419966, locale en/en, device Desktop.
pub open spec fn spec_user_agent() -> Seq<u8> {
    pb_uint(1, 0)  // platform: Web
     + pb_bytes(2, pb_uint(1, 2) + pb_uint(2, 3000) + pb_uint(3, 1022419966))  // app version
     + pb_bytes(3, encode_utf8("000"@))  // mcc
     + pb_bytes(4, encode_utf8("000"@))  // mnc
     + pb_bytes(5, encode_utf8("0.1.0"@))  // os version
     + pb_bytes(6, encode_utf8(""@))  // manufacturer
     + pb_bytes(7, encode_utf8("Desktop"@))  // device
     + pb_bytes(8, encode_utf8("0.1.0"@))  // os build number
     + pb_uint(10, 0)  // release channel: Release
     + pb_bytes(11, encode_utf8("en"@))  // locale language
     + pb_bytes(12, encode_utf8("en"@))  // locale country
}

/// The nested `DeviceProps` submessage.
pub open spec fn spec_device_props() -> Seq<u8> {
    pb_bytes(1, encode_utf8("WhatsRusty"@))  // os
     + pb_bytes(2, pb_uint(1, 0) + pb_uint(2, 1) + pb_uint(3, 0))  // version 0.1.0
     + pb_uint(3, 0)  // platform type
     + pb_uint(4, 0)  // require full sync: false
}

/// The `DevicePairingRegistrationData` submessage of a device.
pub open spec fn spec_pairing_data(d: Device) -> Seq<u8> {
    pb_bytes(1, spec_be32(d.registration_id as int))  // e_regid
     + pb_bytes(2, seq![5u8])  // e_keytype
     + pb_bytes(3, d.identity_key.public@)  // e_ident
     + pb_bytes(4, spec_be24((d.signed_pre_key.id & 0xFFFFFF) as int))  // e_skey_id, low 24 bits
     + pb_bytes(5, d.signed_pre_key.key.public@)  // e_skey_val
     + pb_bytes(6, d.signed_pre_key.signature@)  // e_skey_sig
     + pb_bytes(7, md5_of(encode_utf8(spec_version_string())))  // build_hash
     + pb_bytes(8, spec_device_props())
}

/// The registration `ClientPayload` of a device.
pub open spec fn spec_client_payload(d: Device) -> Seq<u8> {
    pb_uint(3, 0)  // passive: false
     + pb_bytes(5, spec_user_agent()) + pb_bytes(6, pb_uint(4, 0))  // web info: web sub platform WebBrowser
     + pb_uint(12, 1)  // connect type: WifiUnknown
     + pb_uint(13, 1)  // connect reason: UserActivated
     + pb_bytes(19, spec_pairing_data(d)) + pb_uint(29, 0)  // pull: false
}

/// Byte lengths of the constant registration strings.
proof fn lemma_literal_lens()
    ensures
        encode_utf8("000"@).len() == 3,
        encode_utf8("0.1.0"@).len() == 5,
        encode_utf8(""@).len() == 0,
        encode_utf8("Desktop"@).len() == 7,
        encode_utf8("en"@).len() == 2,
        encode_utf8("WhatsRusty"@).len() == 10,
        encode_utf8("2.3000.1022419966"@).len() == 17,
{
    reveal_strlit("000");
    reveal_strlit("0.1.0");
    reveal_strlit("");
    reveal_strlit("Desktop");
    reveal_strlit("en");
    reveal_strlit("WhatsRusty");
    reveal_strlit("2.3000.1022419966");
    assert(vstd::utf8::is_ascii_chars("000"@));
    assert(vstd::utf8::is_ascii_chars("0.1.0"@));
    assert(vstd::utf8::is_ascii_chars(""@));
    assert(vstd::utf8::is_ascii_chars("Desktop"@));
    assert(vstd::utf8::is_ascii_chars("en"@));
    assert(vstd::utf8::is_ascii_chars("WhatsRusty"@));
    assert(vstd::utf8::is_ascii_chars("2.3000.1022419966"@));
    vstd::utf8::is_ascii_chars_encode_utf8("000"@);
    vstd::utf8::is_ascii_chars_encode_utf8("0.1.0"@);
    vstd::utf8::is_ascii_chars_encode_utf8(""@);
    vstd::utf8::is_ascii_chars_encode_utf8("Desktop"@);
    vstd::utf8::is_ascii_chars_encode_utf8("en"@);
    vstd::utf8::is_ascii_chars_encode_utf8("WhatsRusty"@);
    vstd::utf8::is_ascii_chars_encode_utf8("2.3000.1022419966"@);
}

impl Device {
    /// Key material present and consistent: the signed pre-key carries
    /// the identity's signature over its public half.
    pub open spec fn wf(self) -> bool {
        &&& self.noise_key.wf()
        &&& self.identity_key.wf()
        &&& self.signed_pre_key.key.wf()
        &&& self.adv_secret_key@.len() == 32
        &&& self.signed_pre_key.signature@.len() == 64
        &&& self.signed_pre_key.signature@ == ed_sign(
            sha512(self.identity_key.private@).subrange(0, 32),
            seq![5u8] + self.signed_pre_key.key.public@,
        )
    }

    /// Draws a fresh device: two key pairs, a signed pre-key with
    /// identifier 1, a random registration id and advertising secret.
    pub fn new() -> (d: Device)
        ensures
            d.wf(),
            d.signed_pre_key.id == 1,
    {
        let random_byte = random_bytes(32);
        let identity_key = Key::new();
        let signed_pre_key = identity_key.create_signed_pre_key(1);
        let regid_bytes = random_bytes(4);
        let registration_id = crate::wire::read_be32(
            regid_bytes[0],
            regid_bytes[1],
            regid_bytes[2],
            regid_bytes[3],
        );
        Device {
            noise_key: Key::new(),
            identity_key,
            signed_pre_key,
            registration_id,
            adv_secret_key: random_byte,
        }
    }

    /// Serialises the registration `ClientPayload`. Its size stays far
    /// below the frame and AEAD caps.
    pub fn create_register_payload(&self) -> (r: Vec<u8>)
        requires
            self.wf(),
        ensures
            r@ == spec_client_payload(*self),
            r@.len() <= 4096,
    {
        let mut user_agent: Vec<u8> = Vec::new();
        write_uint_field(&mut user_agent, 1, 0);
        let mut app_version: Vec<u8> = Vec::new();
        write_uint_field(&mut app_version, 1, 2);
        write_uint_field(&mut app_version, 2, 3000);
        write_uint_field(&mut app_version, 3, 1022419966);
        write_bytes_field(&mut user_agent, 2, &app_version);
        write_str_field(&mut user_agent, 3, "000");
        write_str_field(&mut user_agent, 4, "000");
        write_str_field(&mut user_agent, 5, "0.1.0");
        write_str_field(&mut user_agent, 6, "");
        write_str_field(&mut user_agent, 7, "Desktop");
        write_str_field(&mut user_agent, 8, "0.1.0");
        write_uint_field(&mut user_agent, 10, 0);
        write_str_field(&mut user_agent, 11, "en");
        write_str_field(&mut user_agent, 12, "en");
        proof {
            assert("000"@ == "000"@);
            assert(user_agent@ =~= spec_user_agent());
        }

        let mut props: Vec<u8> = Vec::new();
        write_str_field(&mut props, 1, "WhatsRusty");
        let mut props_version: Vec<u8> = Vec::new();
        write_uint_field(&mut props_version, 1, 0);
        write_uint_field(&mut props_version, 2, 1);
        write_uint_field(&mut props_version, 3, 0);
        write_bytes_field(&mut props, 2, &props_version);
        write_uint_field(&mut props, 3, 0);
        write_uint_field(&mut props, 4, 0);
        proof {
            assert(props@ =~= spec_device_props());
        }

        let mut pairing: Vec<u8> = Vec::new();
        let mut regid: Vec<u8> = Vec::new();
        push_be32(&mut regid, self.registration_id);
        write_bytes_field(&mut pairing, 1, &regid);
        let mut keytype: Vec<u8> = Vec::new();
        keytype.push(5);
        proof {
            assert(keytype@ =~= seq![5u8]);
        }
        write_bytes_field(&mut pairing, 2, &keytype);
        write_bytes_field(&mut pairing, 3, &self.identity_key.public);
        let mut skey_id: Vec<u8> = Vec::new();
        proof {
            let id = self.signed_pre_key.id;
            assert((id & 0xFFFFFF) < 0x1000000) by (bit_vector);
        }
        push_be24(&mut skey_id, self.signed_pre_key.id & 0xFFFFFF);
        write_bytes_field(&mut pairing, 4, &skey_id);
        write_bytes_field(&mut pairing, 5, &self.signed_pre_key.key.public);
        write_bytes_field(&mut pairing, 6, &self.signed_pre_key.signature);
        let version = String::from_str("2.3000.1022419966");
        let version_bytes = version.as_str().as_bytes_vec();
        let build_hash = md5_digest(&version_bytes);
        write_bytes_field(&mut pairing, 7, &build_hash);
        write_bytes_field(&mut pairing, 8, &props);
        proof {
            assert(pairing@ =~= spec_pairing_data(*self));
        }

        let mut out: Vec<u8> = Vec::new();
        write_uint_field(&mut out, 3, 0);
        write_bytes_field(&mut out, 5, &user_agent);
        let mut web_info: Vec<u8> = Vec::new();
        write_uint_field(&mut web_info, 4, 0);
        write_bytes_field(&mut out, 6, &web_info);
        write_uint_field(&mut out, 12, 1);
        write_uint_field(&mut out, 13, 1);
        write_bytes_field(&mut out, 19, &pairing);
        write_uint_field(&mut out, 29, 0);
        proof {
            assert(out@ =~= spec_client_payload(*self));
            lemma_literal_lens();
            crate::protobuf::lemma_pb_uint_len(1, 0);
            crate::protobuf::lemma_pb_uint_len(1, 2);
            crate::protobuf::lemma_pb_uint_len(2, 3000);
            crate::protobuf::lemma_pb_uint_len(3, 1022419966);
            crate::protobuf::lemma_pb_uint_len(2, 1);
            crate::protobuf::lemma_pb_uint_len(3, 0);
            crate::protobuf::lemma_pb_uint_len(4, 0);
            crate::protobuf::lemma_pb_uint_len(10, 0);
            crate::protobuf::lemma_pb_uint_len(12, 1);
            crate::protobuf::lemma_pb_uint_len(13, 1);
            crate::protobuf::lemma_pb_uint_len(29, 0);
            assert(app_version@.len() <= 21);
            crate::protobuf::lemma_pb_bytes_len(2, app_version@);
            crate::protobuf::lemma_pb_bytes_len(3, version_bytes@);
            crate::protobuf::lemma_pb_bytes_len(4, version_bytes@);
            crate::protobuf::lemma_pb_bytes_len(3, vstd::utf8::encode_utf8("000"@));
            crate::protobuf::lemma_pb_bytes_len(4, vstd::utf8::encode_utf8("000"@));
            crate::protobuf::lemma_pb_bytes_len(5, vstd::utf8::encode_utf8("0.1.0"@));
            crate::protobuf::lemma_pb_bytes_len(6, vstd::utf8::encode_utf8(""@));
            crate::protobuf::lemma_pb_bytes_len(7, vstd::utf8::encode_utf8("Desktop"@));
            crate::protobuf::lemma_pb_bytes_len(8, vstd::utf8::encode_utf8("0.1.0"@));
            crate::protobuf::lemma_pb_bytes_len(11, vstd::utf8::encode_utf8("en"@));
            crate::protobuf::lemma_pb_bytes_len(12, vstd::utf8::encode_utf8("en"@));
            assert(user_agent@.len() <= 200);
            crate::protobuf::lemma_pb_bytes_len(5, user_agent@);
            crate::protobuf::lemma_pb_bytes_len(6, web_info@);
            crate::protobuf::lemma_pb_bytes_len(1, vstd::utf8::encode_utf8("WhatsRusty"@));
            crate::protobuf::lemma_pb_bytes_len(2, props_version@);
            assert(props_version@.len() <= 21);
            assert(props@.len() <= 60);
            crate::protobuf::lemma_pb_bytes_len(1, regid@);
            crate::protobuf::lemma_pb_bytes_len(2, keytype@);
            crate::protobuf::lemma_pb_bytes_len(3, self.identity_key.public@);
            crate::protobuf::lemma_pb_bytes_len(4, skey_id@);
            crate::protobuf::lemma_pb_bytes_len(5, self.signed_pre_key.key.public@);
            crate::protobuf::lemma_pb_bytes_len(6, self.signed_pre_key.signature@);
            crate::protobuf::lemma_pb_bytes_len(7, build_hash@);
            crate::protobuf::lemma_pb_bytes_len(8, props@);
            assert(pairing@.len() <= 400);
            crate::protobuf::lemma_pb_bytes_len(19, pairing@);
            assert(out@.len() <= 4096);
        }
        out
    }
}

} // verus!
