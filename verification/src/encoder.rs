//! Binary XML encoder.
//!
//! Emits the byte image specified in `codec`: the one-byte flags header,
//! the node's list opening, tag, attribute pairs and content. Attribute
//! values that are null or the empty string are skipped on the wire.

use vstd::prelude::*;
use vstd::string::StrSliceExecFns;
use crate::codec::{
    ad_form, concat_encs, enc_attrs, enc_bytes, enc_jid, enc_len_prefix, enc_list_start, enc_node,
    enc_nodes, enc_str, enc_value, fb_form, hex_char, hex_ok, hex_val, insert_enc, interop_form,
    kept_encs, key_le, nib_char, nib_val, nibble_ok, node_arity, packed_body, packed_len_byte,
    pair_form, skippable, sort_encs, wf_jid, wf_node_enc, wf_str, wf_value, AttrEnc,
};
use crate::error::Error;
use crate::jid::JID;
use crate::node::{attrs_view, lemma_attrs_view, lemma_nodes_view, nodes_view, node_view, value_view, Node, Value, ValueView};
use crate::token::{
    double_token_index, lemma_double_token_inverse, single_token_index, AD_JID, BINARY_20,
    BINARY_32, BINARY_8, DICTIONARY_0, FB_JID, HEX_8, INTEROP_JID, JID_PAIR, LIST_16, LIST_8,
    LIST_EMPTY, NIBBLE_8,
};
use crate::wire::{push_be16, push_be24, push_be32};

verus! {

broadcast use vstd::std_specs::vec::group_vec_axioms, vstd::seq::group_seq_axioms;

/// Image view of attributes whose key and value bytes are already
/// rendered.
pub open spec fn encs_view(s: Seq<(String, Vec<u8>)>) -> Seq<AttrEnc> {
    Seq::new(s.len(), |i: int| AttrEnc { key: s[i].0@, bytes: s[i].1@ })
}

/// Growing byte image of one message.
pub struct BinaryEncoder {
    buffer: Vec<u8>,
}

impl BinaryEncoder {
    /// The bytes written so far.
    pub closed spec fn spec_buffer(self) -> Seq<u8> {
        self.buffer@
    }

    /// An empty encoder.
    pub fn new() -> (e: Self)
        ensures
            e.spec_buffer() == Seq::<u8>::empty(),
    {
        let e = BinaryEncoder { buffer: Vec::new() };
        proof {
            assert(e.buffer@ =~= Seq::<u8>::empty());
        }
        e
    }

    /// Hands the accumulated bytes over.
    pub fn into_buffer(self) -> (r: Vec<u8>)
        ensures
            r@ == self.spec_buffer(),
    {
        self.buffer
    }

    /// Writes the length prefix of a raw byte string. Lengths of `2^31`
    /// or more are rejected.
    fn write_byte_length(&mut self, length: usize) -> (r: Result<(), Error>)
        ensures
            length < 0x8000_0000 ==> r is Ok && final(self).spec_buffer() == old(self).spec_buffer() + enc_len_prefix(length as int),
            length >= 0x8000_0000 ==> r is Err && *final(self) == *old(self),
    {
        if length < 0x100 {
            self.buffer.push(BINARY_8);
            self.buffer.push(length as u8);
            proof {
                assert(self.buffer@ =~= old(self).buffer@ + enc_len_prefix(length as int));
            }
            Ok(())
        } else if length < 0x100000 {
            self.buffer.push(BINARY_20);
            push_be24(&mut self.buffer, length as u32);
            proof {
                assert(self.buffer@ =~= old(self).buffer@ + enc_len_prefix(length as int));
            }
            Ok(())
        } else if length < 0x8000_0000 {
            self.buffer.push(BINARY_32);
            push_be32(&mut self.buffer, length as u32);
            proof {
                assert(self.buffer@ =~= old(self).buffer@ + enc_len_prefix(length as int));
            }
            Ok(())
        } else {
            Err(Error::ProtocolError)
        }
    }

    /// Writes raw bytes with their length prefix.
    fn write_bytes(&mut self, bytes: &Vec<u8>) -> (r: Result<(), Error>)
        ensures
            bytes@.len() < 0x8000_0000 ==> r is Ok && final(self).spec_buffer() == old(self).spec_buffer() + enc_bytes(bytes@),
            bytes@.len() >= 0x8000_0000 ==> r is Err && *final(self) == *old(self),
    {
        let result = self.write_byte_length(bytes.len());
        if let Err(er) = result {
            return Err(er);
        }
        self.buffer.extend_from_slice(bytes.as_slice());
        proof {
            assert(self.buffer@ =~= old(self).buffer@ + enc_bytes(bytes@));
        }
        Ok(())
    }

    /// Whether a string packs in the nibble alphabet `{0-9, -, .}` and at
    /// most 127 characters.
    fn validate_nibble(&self, value: &String) -> (r: bool)
        ensures
            r == nibble_ok(value@),
    {
        let n = value.as_str().unicode_len();
        if n > 127 {
            return false;
        }
        let mut i: usize = 0;
        while i < n
            invariant
                n == value@.len(),
                n <= 127,
                i <= n,
                forall|j: int| 0 <= j < i ==> nib_char(#[trigger] value@[j]),
            decreases n - i,
        {
            let c = value.as_str().get_char(i) as u32;
            if !((48 <= c && c <= 57) || c == 45 || c == 46) {
                return false;
            }
            i = i + 1;
        }
        true
    }

    /// Whether a string packs in the hex alphabet `{0-9, A-F}` and at
    /// most 127 characters.
    fn validate_hex(&self, value: &String) -> (r: bool)
        ensures
            r == hex_ok(value@),
    {
        let n = value.as_str().unicode_len();
        if n > 127 {
            return false;
        }
        let mut i: usize = 0;
        while i < n
            invariant
                n == value@.len(),
                n <= 127,
                i <= n,
                forall|j: int| 0 <= j < i ==> hex_char(#[trigger] value@[j]),
            decreases n - i,
        {
            let c = value.as_str().get_char(i) as u32;
            if !((48 <= c && c <= 57) || (65 <= c && c <= 70)) {
                return false;
            }
            i = i + 1;
        }
        true
    }

    /// Four-bit code of a nibble character.
    fn pack_nibble(&self, c: char) -> (r: u8)
        requires
            nib_char(c),
        ensures
            r == nib_val(c),
            r < 16,
    {
        let u = c as u32;
        if 48 <= u && u <= 57 {
            (u - 48) as u8
        } else if u == 45 {
            10
        } else {
            11
        }
    }

    /// Four-bit code of a hex character.
    fn pack_hex(&self, c: char) -> (r: u8)
        requires
            hex_char(c),
        ensures
            r == hex_val(c),
            r < 16,
    {
        let u = c as u32;
        if 48 <= u && u <= 57 {
            (u - 48) as u8
        } else {
            (u - 55) as u8
        }
    }

    /// Packs a short string of a restricted alphabet, four bits per
    /// character, under the given packed-string token.
    fn write_packed_bytes(&mut self, value: &String, data_type: u8) -> (r: Result<(), Error>)
        requires
            data_type == NIBBLE_8 || data_type == HEX_8,
            data_type == NIBBLE_8 ==> nibble_ok(value@),
            data_type == HEX_8 ==> hex_ok(value@),
        ensures
            r is Ok,
            final(self).spec_buffer() == old(self).spec_buffer() + seq![
                data_type,
                packed_len_byte(value@.len() as int),
            ] + packed_body(value@, data_type == HEX_8),
    {
        let hexmode: bool = data_type == HEX_8;
        let n = value.as_str().unicode_len();
        self.buffer.push(data_type);
        let mut len_byte: usize = (n + 1) / 2;
        if n % 2 == 1 {
            len_byte = len_byte + 128;
        }
        self.buffer.push(len_byte as u8);
        let ghost start = self.buffer@;
        proof {
            assert(start =~= old(self).spec_buffer() + seq![
                data_type,
                packed_len_byte(value@.len() as int),
            ]);
        }
        let ghost body = packed_body(value@, hexmode);
        let half = n / 2;
        let mut i: usize = 0;
        while i < half
            invariant
                n == value@.len(),
                n <= 127,
                half == n / 2,
                i <= half,
                hexmode == (data_type == HEX_8),
                data_type == NIBBLE_8 || data_type == HEX_8,
                data_type == NIBBLE_8 ==> nibble_ok(value@),
                data_type == HEX_8 ==> hex_ok(value@),
                body == packed_body(value@, hexmode),
                self.buffer@ =~= start + body.take(i as int),
            decreases half - i,
        {
            let first = value.as_str().get_char(2 * i);
            let second = value.as_str().get_char(2 * i + 1);
            let packed: u8 = if hexmode {
                self.pack_hex(first) * 16 + self.pack_hex(second)
            } else {
                self.pack_nibble(first) * 16 + self.pack_nibble(second)
            };
            self.buffer.push(packed);
            proof {
                assert(body[i as int] == packed);
                assert(body.take(i + 1) =~= body.take(i as int).push(packed));
                assert(self.buffer@ =~= start + body.take(i + 1));
            }
            i = i + 1;
        }
        if n % 2 == 1 {
            let last = value.as_str().get_char(n - 1);
            let packed: u8 = if hexmode {
                self.pack_hex(last) * 16 + 15
            } else {
                self.pack_nibble(last) * 16 + 15
            };
            self.buffer.push(packed);
            proof {
                assert(2 * (half as int) == n - 1);
                assert(body.len() == half + 1);
                assert(body[half as int] == packed);
                assert(body.take(half as int).push(packed) =~= body);
                assert(self.buffer@ =~= start + body);
            }
        } else {
            proof {
                assert(body.take(half as int) =~= body);
            }
        }
        Ok(())
    }

    /// Writes a string: a dictionary token if it has one, a packed form
    /// if its alphabet allows, and raw length-prefixed UTF-8 bytes
    /// otherwise. Only a string of `2^31` or more bytes is rejected.
    pub(crate) fn write_string(&mut self, data: &String) -> (r: Result<(), Error>)
        ensures
            wf_str(data@) ==> r is Ok && final(self).spec_buffer() == old(self).spec_buffer()
                + enc_str(data@),
            r is Err ==> *final(self) == *old(self),
    {
        match single_token_index(data) {
            Some(index) => {
                self.buffer.push(index);
                proof {
                    assert(self.buffer@ =~= old(self).buffer@ + enc_str(data@));
                }
                Ok(())
            },
            None => {
                match double_token_index(data) {
                    Some((row, index)) => {
                        proof {
                            lemma_double_token_inverse(data@);
                        }
                        self.buffer.push(DICTIONARY_0 + row);
                        self.buffer.push(index);
                        proof {
                            assert(self.buffer@ =~= old(self).buffer@ + enc_str(data@));
                        }
                        Ok(())
                    },
                    None => {
                        if self.validate_nibble(data) {
                            let r = self.write_packed_bytes(data, NIBBLE_8);
                            proof {
                                assert(self.buffer@ =~= old(self).buffer@ + enc_str(data@));
                            }
                            r
                        } else if self.validate_hex(data) {
                            let r = self.write_packed_bytes(data, HEX_8);
                            proof {
                                assert(self.buffer@ =~= old(self).buffer@ + enc_str(data@));
                            }
                            r
                        } else {
                            let bytes = data.as_str().as_bytes_vec();
                            let len = bytes.len();
                            let r = self.write_byte_length(len);
                            if let Err(er) = r {
                                return Err(er);
                            }
                            self.buffer.extend_from_slice(bytes.as_slice());
                            proof {
                                assert(bytes@ == vstd::utf8::encode_utf8(data@));
                                assert(len as int == vstd::utf8::encode_utf8(data@).len());
                                assert(self.buffer@ =~= old(self).buffer@ + enc_len_prefix(
                                    len as int,
                                ) + vstd::utf8::encode_utf8(data@));
                                assert(enc_str(data@) == enc_bytes(vstd::utf8::encode_utf8(data@)));
                                assert(self.buffer@ =~= old(self).buffer@ + enc_str(data@));
                            }
                            Ok(())
                        }
                    },
                }
            },
        }
    }

    /// Writes an identifier in its wire form, chosen by its server.
    pub(crate) fn write_jid(&mut self, jid: &JID) -> (r: Result<(), Error>)
        ensures
            wf_jid(jid@) ==> r is Ok && final(self).spec_buffer() == old(self).spec_buffer()
                + enc_jid(jid@),
    {
        proof {
            reveal_strlit("s.whatsapp.net");
            reveal_strlit("lid");
            reveal_strlit("hosted");
            reveal_strlit("msgr");
            reveal_strlit("interop");
            assert("s.whatsapp.net"@.len() == 14);
            assert("lid"@.len() == 3);
            assert("hosted"@.len() == 6);
            assert("msgr"@.len() == 4);
            assert("interop"@.len() == 7);
            assert(Seq::<char>::empty().len() == 0);
        }
        let server: String = match &jid.server {
            Some(s) => s.clone(),
            None => String::new(),
        };
        let user: String = match &jid.user {
            Some(u) => u.clone(),
            None => String::new(),
        };
        let device: u16 = match jid.device {
            Some(d) => d,
            None => 0,
        };
        let integrator: u16 = match jid.integrator {
            Some(x) => x,
            None => 0,
        };
        let raw_agent: u8 = match jid.raw_agent {
            Some(a) => a,
            None => 0,
        };
        if (server == String::from_str("s.whatsapp.net") && device > 0) || server
            == String::from_str("lid") || server == String::from_str("hosted") {
            proof {
                if wf_jid(jid@) {
                    assert(jid@.server == Some(server@));
                    assert(ad_form(jid@));
                    assert(jid@.user is Some && user@ == jid@.user.unwrap());
                }
            }
            self.buffer.push(AD_JID);
            self.buffer.push(raw_agent);
            self.buffer.push(device as u8);
            let r = self.write_string(&user);
            if let Err(er) = r {
                proof {
                    if wf_jid(jid@) {
                        assert(false);
                    }
                }
                return Err(er);
            }
            proof {
                if wf_jid(jid@) {
                    assert(self.buffer@ =~= old(self).buffer@ + enc_jid(jid@));
                }
            }
            Ok(())
        } else if server == String::from_str("msgr") {
            proof {
                if wf_jid(jid@) {
                    assert(jid@.server == Some(server@));
                    assert(fb_form(jid@));
                    assert(jid@.user is Some && user@ == jid@.user.unwrap());
                }
            }
            self.buffer.push(FB_JID);
            let r = self.write_string(&user);
            if let Err(er) = r {
                proof {
                    if wf_jid(jid@) {
                        assert(false);
                    }
                }
                return Err(er);
            }
            push_be16(&mut self.buffer, device);
            let r2 = self.write_string(&server);
            if let Err(er) = r2 {
                proof {
                    if wf_jid(jid@) {
                        assert(false);
                    }
                }
                return Err(er);
            }
            proof {
                if wf_jid(jid@) {
                    assert(self.buffer@ =~= old(self).buffer@ + enc_jid(jid@));
                }
            }
            Ok(())
        } else if server == String::from_str("interop") {
            proof {
                if wf_jid(jid@) {
                    assert(jid@.server == Some(server@));
                    assert(interop_form(jid@));
                    assert(jid@.user is Some && user@ == jid@.user.unwrap());
                }
            }
            self.buffer.push(INTEROP_JID);
            let r = self.write_string(&user);
            if let Err(er) = r {
                proof {
                    if wf_jid(jid@) {
                        assert(false);
                    }
                }
                return Err(er);
            }
            push_be16(&mut self.buffer, device);
            push_be16(&mut self.buffer, integrator);
            let r2 = self.write_string(&server);
            if let Err(er) = r2 {
                proof {
                    if wf_jid(jid@) {
                        assert(false);
                    }
                }
                return Err(er);
            }
            proof {
                if wf_jid(jid@) {
                    assert(self.buffer@ =~= old(self).buffer@ + enc_jid(jid@));
                }
            }
            Ok(())
        } else {
            proof {
                if wf_jid(jid@) {
                    assert(pair_form(jid@));
                }
            }
            self.buffer.push(JID_PAIR);
            if user.as_str().is_empty() {
                proof {
                    if wf_jid(jid@) {
                        assert(jid@.user is None);
                    }
                }
                self.buffer.push(LIST_EMPTY);
            } else {
                proof {
                    if wf_jid(jid@) {
                        assert(jid@.user is Some && user@ == jid@.user.unwrap());
                    }
                }
                let r = self.write_string(&user);
                if let Err(er) = r {
                    proof {
                        if wf_jid(jid@) {
                            assert(false);
                        }
                    }
                    return Err(er);
                }
            }
            let r2 = self.write_string(&server);
            if let Err(er) = r2 {
                proof {
                    if wf_jid(jid@) {
                        assert(vstd::utf8::encode_utf8(Seq::<char>::empty()) =~= Seq::<u8>::empty());
                        assert(false);
                    }
                }
                return Err(er);
            }
            proof {
                if wf_jid(jid@) {
                    assert(vstd::utf8::encode_utf8(Seq::<char>::empty()) =~= Seq::<u8>::empty());
                    assert(self.buffer@ =~= old(self).buffer@ + enc_jid(jid@));
                }
            }
            Ok(())
        }
    }

    /// Writes a list opening for the given size. Sizes of `2^15` or more
    /// are rejected: the 16-bit form is signed.
    fn write_list_start(&mut self, list_size: usize) -> (r: Result<(), Error>)
        ensures
            list_size < 0x8000 ==> r is Ok && final(self).spec_buffer() == old(self).spec_buffer() + enc_list_start(list_size as int),
            list_size >= 0x8000 ==> r is Err && *final(self) == *old(self),
    {
        if list_size == 0 {
            self.buffer.push(LIST_EMPTY);
            proof {
                assert(self.buffer@ =~= old(self).buffer@ + enc_list_start(list_size as int));
            }
            Ok(())
        } else if list_size < 128 {
            self.buffer.push(LIST_8);
            self.buffer.push(list_size as u8);
            proof {
                assert(self.buffer@ =~= old(self).buffer@ + enc_list_start(list_size as int));
            }
            Ok(())
        } else if list_size < 0x8000 {
            self.buffer.push(LIST_16);
            push_be16(&mut self.buffer, list_size as u16);
            proof {
                assert(self.buffer@ =~= old(self).buffer@ + enc_list_start(list_size as int));
            }
            Ok(())
        } else {
            Err(Error::ProtocolError)
        }
    }

    /// Counts the attributes that reach the wire: null and empty-string
    /// values are skipped.
    fn count_attributes(&self, attributes: &Vec<(String, Value)>) -> (r: usize)
        ensures
            r <= attributes@.len(),
            r == kept_encs(attrs_view(attributes@)).len(),
    {
        proof {
            lemma_attrs_view(attributes@);
        }
        let mut count: usize = 0;
        let n = attributes.len();
        let mut i: usize = 0;
        while i < n
            invariant
                n == attributes@.len(),
                i <= n,
                count <= i,
                attrs_view(attributes@).len() == n,
                forall|k: int|
                    0 <= k < n ==> attrs_view(attributes@)[k] == (
                    (#[trigger] attributes@[k]).0@,
                    value_view(attributes@[k].1),
                ),
                count == kept_encs(attrs_view(attributes@).take(i as int)).len(),
            decreases n - i,
        {
            let skip: bool = match &attributes[i].1 {
                Value::Str(s) => s.as_str().is_empty(),
                Value::Null => true,
                _ => false,
            };
            if !skip {
                count = count + 1;
            }
            proof {
                let av = attrs_view(attributes@);
                assert(av.take(i + 1) =~= av.take(i as int).push(av[i as int]));
                crate::codec::lemma_kept_encs_push(av.take(i as int), av[i as int]);
                assert(skip == skippable(av[i as int].1));
            }
            i = i + 1;
        }
        proof {
            assert(attrs_view(attributes@).take(n as int) =~= attrs_view(attributes@));
        }
        count
    }

    /// Code-point comparison of two keys.
    #[verifier::loop_isolation(false)]
    pub(crate) fn key_le_exec(a: &String, b: &String) -> (r: bool)
        ensures
            r == key_le(a@, b@),
    {
        let la = a.as_str().unicode_len();
        let lb = b.as_str().unicode_len();
        let mut i: usize = 0;
        proof {
            assert(a@.skip(0) =~= a@);
            assert(b@.skip(0) =~= b@);
        }
        while i < la && i < lb
            invariant
                la == a@.len(),
                lb == b@.len(),
                i <= la,
                i <= lb,
                key_le(a@, b@) == key_le(a@.skip(i as int), b@.skip(i as int)),
            decreases la - i,
        {
            let ca = a.as_str().get_char(i) as u32;
            let cb = b.as_str().get_char(i) as u32;
            if ca != cb {
                proof {
                    assert(a@.skip(i as int)[0] == a@[i as int]);
                    assert(b@.skip(i as int)[0] == b@[i as int]);
                }
                return ca < cb;
            }
            proof {
                assert(a@.skip(i as int)[0] == a@[i as int]);
                assert(b@.skip(i as int)[0] == b@[i as int]);
                assert(a@.skip(i as int).skip(1) =~= a@.skip(i + 1));
                assert(b@.skip(i as int).skip(1) =~= b@.skip(i + 1));
            }
            i = i + 1;
        }
        proof {
            if i >= la {
                assert(a@.skip(i as int).len() == 0);
            } else {
                assert(b@.skip(i as int).len() == 0);
                assert(a@.skip(i as int).len() > 0);
            }
        }
        la <= lb
    }

    /// Writes the interleaved key and value of every attribute that
    /// reaches the wire, as its own byte string: null and empty-string
    /// values are skipped.
    fn encode_attributes(attributes: &Vec<(String, Value)>) -> (r: Result<
        Vec<(String, Vec<u8>)>,
        Error,
    >)
        ensures
            (forall|i: int|
                0 <= i < attributes@.len() ==> (!skippable(
                    value_view((#[trigger] attributes@[i]).1),
                ) ==> wf_str(attributes@[i].0@) && wf_value(value_view(attributes@[i].1))))
                ==> (r matches Ok(out) && encs_view(out@) == kept_encs(attrs_view(attributes@))),
        decreases attributes,
    {
        let ghost wf_all = forall|i: int|
            0 <= i < attributes@.len() ==> (!skippable(value_view((#[trigger] attributes@[i]).1))
                ==> wf_str(attributes@[i].0@) && wf_value(value_view(attributes@[i].1)));
        proof {
            lemma_attrs_view(attributes@);
        }
        let mut out: Vec<(String, Vec<u8>)> = Vec::new();
        let n = attributes.len();
        let mut i: usize = 0;
        while i < n
            invariant
                n == attributes@.len(),
                i <= n,
                wf_all == (forall|k: int|
                    0 <= k < attributes@.len() ==> (!skippable(
                        value_view((#[trigger] attributes@[k]).1),
                    ) ==> wf_str(attributes@[k].0@) && wf_value(value_view(attributes@[k].1)))),
                attrs_view(attributes@).len() == n,
                forall|k: int|
                    0 <= k < n ==> attrs_view(attributes@)[k] == (
                    (#[trigger] attributes@[k]).0@,
                    value_view(attributes@[k].1),
                ),
                wf_all ==> encs_view(out@) =~= kept_encs(attrs_view(attributes@).take(i as int)),
            decreases n - i,
        {
            let skip: bool = match &attributes[i].1 {
                Value::Str(s) => s.as_str().is_empty(),
                Value::Null => true,
                _ => false,
            };
            let ghost prev = out@;
            if !skip {
                let mut piece = BinaryEncoder::new();
                let r = piece.write_string(&attributes[i].0);
                if let Err(er) = r {
                    proof {
                        if wf_all {
                            assert(!skippable(value_view(attributes@[i as int].1)));
                            assert(false);
                        }
                    }
                    return Err(er);
                }
                let r2 = piece.write(&attributes[i].1);
                if let Err(er) = r2 {
                    proof {
                        if wf_all {
                            assert(!skippable(value_view(attributes@[i as int].1)));
                            assert(false);
                        }
                    }
                    return Err(er);
                }
                out.push((attributes[i].0.clone(), piece.into_buffer()));
            }
            proof {
                if wf_all {
                    let av = attrs_view(attributes@);
                    assert(av.take(i + 1) =~= av.take(i as int).push(av[i as int]));
                    crate::codec::lemma_kept_encs_push(av.take(i as int), av[i as int]);
                    assert(skip == skippable(av[i as int].1));
                    if !skip {
                        assert(encs_view(out@) =~= encs_view(prev).push(
                            AttrEnc {
                                key: av[i as int].0,
                                bytes: enc_str(av[i as int].0) + enc_value(av[i as int].1),
                            },
                        ));
                    } else {
                        assert(encs_view(out@) =~= encs_view(prev));
                    }
                    assert(encs_view(out@) =~= kept_encs(av.take(i + 1)));
                }
            }
            i = i + 1;
        }
        proof {
            if wf_all {
                assert(attrs_view(attributes@).take(n as int) =~= attrs_view(attributes@));
            }
        }
        Ok(out)
    }

    /// Orders encoded attributes by key, lexicographically by code
    /// point: a stable insertion sort.
    #[verifier::loop_isolation(false)]
    fn sort_encoded(pairs: Vec<(String, Vec<u8>)>) -> (r: Vec<(String, Vec<u8>)>)
        ensures
            encs_view(r@) == sort_encs(encs_view(pairs@)),
    {
        let ghost orig = pairs@;
        let mut pairs = pairs;
        let mut out: Vec<(String, Vec<u8>)> = Vec::new();
        let ghost mut k: int = 0;
        while pairs.len() > 0
            invariant
                0 <= k <= orig.len(),
                pairs@ =~= orig.skip(k),
                encs_view(out@) =~= sort_encs(encs_view(orig.take(k))),
            decreases pairs@.len(),
        {
            let p = pairs.remove(0);
            proof {
                assert(p == orig[k]);
            }
            let mut j: usize = 0;
            while j < out.len() && Self::key_le_exec(&out[j].0, &p.0)
                invariant
                    j <= out@.len(),
                    forall|m: int|
                        0 <= m < j ==> key_le((#[trigger] encs_view(out@)[m]).key, p.0@),
                decreases out@.len() - j,
            {
                proof {
                    assert(encs_view(out@)[j as int].key == out@[j as int].0@);
                }
                j = j + 1;
            }
            let ghost prev = out@;
            out.insert(j, p);
            proof {
                assert(j < prev.len() ==> !key_le(encs_view(prev)[j as int].key, p.0@));
                crate::codec::lemma_insert_enc_at(
                    encs_view(prev),
                    AttrEnc { key: p.0@, bytes: p.1@ },
                    j as int,
                );
                assert(encs_view(out@) =~= encs_view(prev).take(j as int) + seq![
                    AttrEnc { key: p.0@, bytes: p.1@ },
                ] + encs_view(prev).skip(j as int)) by {
                    assert(out@ =~= prev.take(j as int) + seq![p] + prev.skip(j as int));
                }
                assert(encs_view(out@) =~= insert_enc(
                    encs_view(prev),
                    AttrEnc { key: p.0@, bytes: p.1@ },
                ));
                assert(orig.take(k + 1).drop_last() =~= orig.take(k));
                assert(orig.take(k + 1).last() == orig[k]);
                assert(encs_view(orig.take(k + 1)) =~= encs_view(orig.take(k)).push(
                    AttrEnc { key: p.0@, bytes: p.1@ },
                ));
                assert(encs_view(orig.take(k + 1)).drop_last() =~= encs_view(orig.take(k)));
                assert(encs_view(out@) =~= sort_encs(encs_view(orig.take(k + 1))));
                k = k + 1;
                assert(pairs@ =~= orig.skip(k));
            }
        }
        proof {
            assert(orig.take(orig.len() as int) =~= orig);
        }
        out
    }

    /// Appends the encoded attributes, in their given order.
    fn write_attributes(&mut self, encoded: &Vec<(String, Vec<u8>)>)
        ensures
            final(self).spec_buffer() == old(self).spec_buffer() + concat_encs(
                encs_view(encoded@),
            ),
    {
        let n = encoded.len();
        let mut i: usize = 0;
        while i < n
            invariant
                n == encoded@.len(),
                i <= n,
                self.buffer@ =~= old(self).buffer@ + concat_encs(encs_view(encoded@).take(
                    i as int,
                )),
            decreases n - i,
        {
            self.buffer.extend_from_slice(encoded[i].1.as_slice());
            proof {
                let ev = encs_view(encoded@);
                assert(ev.take(i + 1) =~= ev.take(i as int).push(ev[i as int]));
                crate::codec::lemma_concat_encs_push(ev.take(i as int), ev[i as int]);
                assert(self.buffer@ =~= old(self).buffer@ + concat_encs(ev.take(i + 1)));
            }
            i = i + 1;
        }
        proof {
            assert(encs_view(encoded@).take(n as int) =~= encs_view(encoded@));
        }
    }

    /// Writes one value: a string, identifier, raw bytes, or a list of
    /// nodes. Null and singleton-node values have no wire form and are
    /// rejected.
    #[verifier::loop_isolation(false)]
    pub(crate) fn write(&mut self, value: &Value) -> (r: Result<(), Error>)
        ensures
            wf_value(value@) ==> r is Ok && final(self).spec_buffer() == old(self).spec_buffer()
                + enc_value(value@),
        decreases value,
    {
        match value {
            Value::Str(s) => {
                let r = self.write_string(s);
                r
            },
            Value::Jid(j) => {
                let r = self.write_jid(j);
                r
            },
            Value::Bytes(b) => {
                let r = self.write_bytes(b);
                r
            },
            Value::List(nodes) => {
                let ghost vv = value_view(*value);
                proof {
                    lemma_nodes_view(nodes@);
                    assert(vv == ValueView::List(nodes_view(nodes@)));
                }
                let r = self.write_list_start(nodes.len());
                if let Err(er) = r {
                    proof {
                        if wf_value(vv) {
                            assert(false);
                        }
                    }
                    return Err(er);
                }
                let n = nodes.len();
                let mut i: usize = 0;
                while i < n
                    invariant
                        n == nodes@.len(),
                        i <= n,
                        nodes_view(nodes@).len() == n,
                        forall|k: int|
                            0 <= k < n ==> nodes_view(nodes@)[k] == node_view(
                                #[trigger] nodes@[k],
                            ),
                        vv == ValueView::List(nodes_view(nodes@)),
                        vv == value_view(*value),
                        wf_value(vv) ==> self.buffer@ =~= old(self).buffer@ + enc_list_start(
                            n as int,
                        ) + enc_nodes(nodes_view(nodes@).take(i as int)),
                    decreases n - i,
                {
                    proof {
                        if wf_value(vv) {
                            crate::codec::lemma_wf_nodes_enc_elem(nodes_view(nodes@));
                        }
                        assert(decreases_to!(*value => nodes@)) by {
                            assert(decreases_to!(*value => *nodes));
                            assert(decreases_to!(*nodes => nodes@));
                        }
                        assert(decreases_to!(*value => nodes@[i as int])) by {
                            assert(decreases_to!(nodes@ => nodes@[i as int]));
                        }
                    }
                    let r2 = self.write_node_inner(&nodes[i]);
                    if let Err(er) = r2 {
                        proof {
                            if wf_value(vv) {
                                assert(false);
                            }
                        }
                        return Err(er);
                    }
                    proof {
                        if wf_value(vv) {
                            let nv = nodes_view(nodes@);
                            crate::codec::lemma_wf_nodes_enc_elem(nv);
                            assert(nv.take(i + 1) =~= nv.take(i as int) + seq![nv[i as int]]);
                            crate::codec::lemma_enc_nodes_append(
                                nv.take(i as int),
                                seq![nv[i as int]],
                            );
                            crate::codec::lemma_enc_nodes_one(nv[i as int]);
                            assert(self.buffer@ =~= old(self).buffer@ + enc_list_start(n as int)
                                + enc_nodes(nv.take(i + 1)));
                        }
                    }
                    i = i + 1;
                }
                proof {
                    if wf_value(vv) {
                        assert(nodes_view(nodes@).take(n as int) =~= nodes_view(nodes@));
                        assert(self.buffer@ =~= old(self).buffer@ + enc_value(vv));
                    }
                }
                Ok(())
            },
            Value::Null => Err(Error::ProtocolError),
            Value::Node(_) => Err(Error::ProtocolError),
        }
    }

    /// Writes one node: its arity, tag, surviving attributes in
    /// lexicographic key order, and content.
    pub(crate) fn write_node_inner(&mut self, node: &Node) -> (r: Result<(), Error>)
        ensures
            wf_node_enc(node@) ==> r is Ok && final(self).spec_buffer() == old(self).spec_buffer()
                + enc_node(node@),
        decreases node,
    {
        proof {
            lemma_attrs_view(node.attributes@);
            if wf_node_enc(node@) {
                assert(node@.attributes == attrs_view(node.attributes@));
                assert forall|i: int|
                    0 <= i < node.attributes@.len() implies (!skippable(
                    value_view((#[trigger] node.attributes@[i]).1),
                ) ==> wf_str(node.attributes@[i].0@) && wf_value(
                    value_view(node.attributes@[i].1),
                )) by {
                    assert(node@.attributes[i] == (
                        node.attributes@[i].0@,
                        value_view(node.attributes@[i].1),
                    ));
                }
            }
        }
        let pairs = match Self::encode_attributes(&node.attributes) {
            Ok(p) => p,
            Err(er) => {
                proof {
                    if wf_node_enc(node@) {
                        assert(false);
                    }
                }
                return Err(er);
            },
        };
        let sorted = Self::sort_encoded(pairs);
        let count = self.count_attributes(&node.attributes);
        proof {
            if wf_node_enc(node@) {
                crate::codec::lemma_sort_encs_len(kept_encs(node@.attributes));
                assert(sorted@.len() == count);
            }
        }
        if count > 0x3FFE {
            proof {
                if wf_node_enc(node@) {
                    assert(false);
                }
            }
            return Err(Error::ProtocolError);
        }
        let has_content: usize = match &node.content {
            Some(_) => 1,
            None => 0,
        };
        let arity = 2 * count + 1 + has_content;
        let r = self.write_list_start(arity);
        if let Err(er) = r {
            proof {
                if wf_node_enc(node@) {
                    assert(arity == node_arity(node@));
                    assert(false);
                }
            }
            return Err(er);
        }
        proof {
            if wf_node_enc(node@) {
                assert(arity == node_arity(node@));
            }
        }
        let r2 = self.write_string(&node.tag);
        if let Err(er) = r2 {
            proof {
                if wf_node_enc(node@) {
                    assert(false);
                }
            }
            return Err(er);
        }
        self.write_attributes(&sorted);
        match &node.content {
            Some(v) => {
                let r4 = self.write(v);
                if let Err(er) = r4 {
                    proof {
                        if wf_node_enc(node@) {
                            assert(node@.content == Some(value_view(*v)));
                            assert(wf_value(value_view(*v)));
                            assert(false);
                        }
                    }
                    return Err(er);
                }
            },
            None => {},
        }
        proof {
            if wf_node_enc(node@) {
                assert(self.buffer@ =~= old(self).buffer@ + enc_node(node@));
            }
        }
        Ok(())
    }

    /// Writes a whole message: the flags header, one byte of zero, and
    /// the node. A tag of `"0"` marks the end of the stream and is
    /// emitted as an empty list.
    pub fn write_node(&mut self, node: &Node) -> (r: Result<Vec<u8>, Error>)
        ensures
            wf_node_enc(node@) ==> r is Ok && r.unwrap()@ == old(self).spec_buffer() + seq![0u8]
                + enc_node(node@),
    {
        self.buffer.push(0);
        if node.tag == String::from_str("0") {
            self.buffer.push(LIST_8);
            self.buffer.push(LIST_EMPTY);
            proof {
                if wf_node_enc(node@) {
                    assert(node@.tag == "0"@);
                    assert(false);
                }
            }
            return Ok(self.buffer.clone());
        }
        let r = self.write_node_inner(node);
        if let Err(e) = r {
            proof {
                if wf_node_enc(node@) {
                    assert(false);
                }
            }
            return Err(e);
        }
        let out = self.buffer.clone();
        proof {
            if wf_node_enc(node@) {
                assert(out@ =~= old(self).spec_buffer() + seq![0u8] + enc_node(node@));
            }
        }
        Ok(out)
    }
}

} // verus!
