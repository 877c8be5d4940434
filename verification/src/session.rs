//! Session driver logic: request identifiers, the `iq` request builder,
//! the outbound pipeline from node to carrier bytes, the handshake
//! driver, and the pair-device responder.
//!
//! The carrier itself (the WebSocket) lives outside the core; these
//! functions turn protocol state and inbound events into the exact bytes
//! to hand the carrier.

use vstd::prelude::*;
use crate::codec::{enc_node, wf_node_enc};
use crate::crypto::{aead_dec, aead_enc, hkdf64, iv_spec, x25519_shared};
use crate::decoder::{lemma_ascii_codes_decode, string_from_bytes};
use crate::device::Device;
use crate::error::Error;
use crate::frame::{prologue, FrameSocket, FrameSocketState};
use crate::handshake::{auth_step, noise_pattern, NoiseHandShake};
use crate::hsproto::{client_finish_bytes, client_hello_bytes, server_hello_bytes};
use crate::jid::JID;
use crate::keys::Key;
use crate::node::{
    attrs_view, lemma_attrs_view, nodes_view, value_view, Node, NodeView, Value, ValueView,
};
use crate::noise_socket::NoiseSocket;
use crate::wire::spec_be24;

verus! {

broadcast use vstd::std_specs::vec::group_vec_axioms, vstd::seq::group_seq_axioms;

/// Base64 (standard alphabet, padded) image of a byte string.
pub uninterp spec fn base64_of(b: Seq<u8>) -> Seq<char>;

/// Relies on base64::engine::general_purpose::STANDARD: encoding is a
/// function of the input bytes alone.
#[verifier::external_body]
fn b64_encode(data: &Vec<u8>) -> (r: String)
    ensures
        r@ == base64_of(data@),
{
    base64::Engine::encode(&base64::engine::general_purpose::STANDARD, data.as_slice())
}

/// Decimal digit characters of a value, most significant first.
pub open spec fn dec_chars(n: int) -> Seq<char>
    recommends
        n >= 0,
    decreases n,
{
    if n < 10 {
        seq![(((48 + (if n >= 0 {
            n
        } else {
            0
        }) % 10) as u32) as char)]
    } else {
        dec_chars(n / 10) + seq![(((48 + n % 10) as u32) as char)]
    }
}

/// Decimal digit bytes of a value, most significant first.
pub open spec fn dec_bytes(n: int) -> Seq<u8>
    recommends
        n >= 0,
    decreases n,
{
    if n < 10 {
        seq![((48 + (if n >= 0 {
            n
        } else {
            0
        }) % 10) as u8)]
    } else {
        dec_bytes(n / 10) + seq![((48 + n % 10) as u8)]
    }
}

/// The decimal bytes are the character codes of the decimal digits, and
/// every digit is in the nibble alphabet.
proof fn lemma_dec_repr(n: int)
    requires
        n >= 0,
    ensures
        dec_chars(n).len() == dec_bytes(n).len(),
        forall|i: int|
            0 <= i < dec_chars(n).len() ==> #[trigger] dec_bytes(n)[i] == (dec_chars(n)[i]
                as u32) as u8,
        forall|i: int| 0 <= i < dec_chars(n).len() ==> crate::codec::nib_char(#[trigger] dec_chars(n)[i]),
    decreases n,
{
    if n >= 10 {
        lemma_dec_repr(n / 10);
    }
}

/// Appends the decimal digit bytes of `n`.
fn push_dec(out: &mut Vec<u8>, n: u64)
    ensures
        final(out)@ == old(out)@ + dec_bytes(n as int),
    decreases n,
{
    if n < 10 {
        out.push(48 + n as u8);
        proof {
            assert(final(out)@ =~= old(out)@ + dec_bytes(n as int));
        }
    } else {
        push_dec(out, n / 10);
        out.push(48 + (n % 10) as u8);
        proof {
            assert(final(out)@ =~= old(out)@ + dec_bytes(n as int));
        }
    }
}

/// The decimal string of a value.
pub fn u64_to_string(n: u64) -> (r: String)
    ensures
        r@ == dec_chars(n as int),
{
    let mut bytes: Vec<u8> = Vec::new();
    push_dec(&mut bytes, n);
    let out = string_from_bytes(&bytes);
    proof {
        lemma_dec_repr(n as int);
        lemma_ascii_codes_decode(dec_chars(n as int), bytes@);
    }
    out
}

/// The request-id prefix drawn at connect time: two random bytes printed
/// as `a.b-`.
pub fn unique_prefix(b0: u8, b1: u8) -> (r: String)
    ensures
        r@ == dec_chars(b0 as int) + seq!['.'] + dec_chars(b1 as int) + seq!['-'],
{
    let mut bytes: Vec<u8> = Vec::new();
    push_dec(&mut bytes, b0 as u64);
    bytes.push(46);
    push_dec(&mut bytes, b1 as u64);
    bytes.push(45);
    let out = string_from_bytes(&bytes);
    proof {
        let chars = dec_chars(b0 as int) + seq!['.'] + dec_chars(b1 as int) + seq!['-'];
        lemma_dec_repr(b0 as int);
        lemma_dec_repr(b1 as int);
        assert(('.' as u32) == 46 && ('-' as u32) == 45);
        assert(bytes@.len() == chars.len());
        assert forall|i: int| 0 <= i < chars.len() implies #[trigger] bytes@[i] == (chars[i]
            as u32) as u8 && (crate::codec::nib_char(chars[i]) || crate::codec::hex_char(
            chars[i],
        )) by {
            vstd::utf8::char_u32_cast(chars[i], chars[i] as u32);
        }
        lemma_ascii_codes_decode(chars, bytes@);
        assert(out@ == chars);
    }
    out
}

/// A request to serialise as an `iq` node.
pub struct InfoQuery {
    pub namespace: Option<String>,
    pub query_type: Option<String>,
    pub to: Option<JID>,
    pub target: Option<JID>,
    pub id: Option<String>,
    pub content: Option<Value>,
}

/// Sink for events the core raises to the host application.
pub trait Events {
    /// Called with each pairing code derived from a `pair-device` node.
    fn on_qr(&self, qr: &str);
}

/// Session lifecycle; every failure is a terminal move to `Closed`.
#[derive(Clone, Copy, Debug, PartialEq, Eq, Structural)]
pub enum SessionState {
    Connecting,
    HandshakeSent,
    HandshakeReceived,
    Authenticated,
    Closed,
}

/// The ciphertext of one outbound node under the session's write key at
/// its current write counter.
pub open spec fn outbound_ct(c: Client, nv: NodeView) -> Seq<u8> {
    aead_enc(
        c.ns.unwrap().spec_write_key(),
        iv_spec(c.ns.unwrap().spec_write_counter() as int),
        Seq::<u8>::empty(),
        seq![0u8] + enc_node(nv),
    )
}

/// The exact carrier bytes of one outbound node: its encrypted, framed
/// image, with the prologue if it is the first frame; and the ciphertext
/// decrypts back to the node's image under the same key and counter.
pub open spec fn outbound_frame_ok(c: Client, nv: NodeView, frame: Seq<u8>) -> bool {
    let ct = outbound_ct(c, nv);
    &&& aead_dec(
        c.ns.unwrap().spec_write_key(),
        iv_spec(c.ns.unwrap().spec_write_counter() as int),
        Seq::<u8>::empty(),
        ct,
    ) == Some(seq![0u8] + enc_node(nv))
    &&& frame == (if c.fs.sending() == FrameSocketState::Handshake {
        prologue()
    } else {
        Seq::<u8>::empty()
    }) + spec_be24(ct.len() as int) + ct
}

/// The view of the `iq` node that `send_iq` builds for a query under a
/// given request id: the id, namespace and type attributes, the optional
/// addressees, and the query's content.
pub open spec fn iq_node_view(query: InfoQuery, request_id: Seq<char>) -> NodeView {
    NodeView {
        tag: "iq"@,
        attributes: seq![
            ("id"@, ValueView::Str(request_id)),
            ("xmlns"@, ValueView::Str(query.namespace.unwrap()@)),
            ("type"@, ValueView::Str(query.query_type.unwrap()@)),
        ] + (match query.to {
            Some(to) => seq![("to"@, ValueView::Jid(to@))],
            None => Seq::empty(),
        }) + (match query.target {
            Some(target) => seq![("target"@, ValueView::Jid(target@))],
            None => Seq::empty(),
        }),
        content: match query.content {
            Some(v) => Some(value_view(v)),
            None => None,
        },
    }
}

/// First value under the given attribute key, if any.
pub open spec fn first_attr_in(attrs: Seq<(Seq<char>, ValueView)>, key: Seq<char>) -> Option<
    ValueView,
>
    decreases attrs.len(),
{
    if attrs.len() == 0 {
        None
    } else if attrs[0].0 == key {
        Some(attrs[0].1)
    } else {
        first_attr_in(attrs.subrange(1, attrs.len() as int), key)
    }
}

/// Appending an entry resolves a lookup only where the prefix had no
/// match.
proof fn lemma_first_attr_push(attrs: Seq<(Seq<char>, ValueView)>, p: (Seq<char>, ValueView), key: Seq<char>)
    ensures
        first_attr_in(attrs.push(p), key) == (if first_attr_in(attrs, key) is Some {
            first_attr_in(attrs, key)
        } else if p.0 == key {
            Some(p.1)
        } else {
            None::<ValueView>
        }),
    decreases attrs.len(),
{
    if attrs.len() == 0 {
        assert(attrs.push(p)[0] == p);
        assert(attrs.push(p).subrange(1, 1) =~= Seq::<(Seq<char>, ValueView)>::empty());
        assert(first_attr_in(Seq::<(Seq<char>, ValueView)>::empty(), key) is None);
    } else {
        assert(attrs.push(p)[0] == attrs[0]);
        assert(attrs.push(p).subrange(1, attrs.push(p).len() as int) =~= attrs.subrange(
            1,
            attrs.len() as int,
        ).push(p));
        lemma_first_attr_push(attrs.subrange(1, attrs.len() as int), p, key);
    }
}

/// The byte payloads of the `ref` children, in order.
pub open spec fn ref_payloads(children: Seq<NodeView>) -> Seq<Seq<u8>>
    decreases children.len(),
{
    if children.len() == 0 {
        Seq::empty()
    } else {
        (if children[0].tag == "ref"@ && children[0].content is Some
            && children[0].content.unwrap() is Bytes {
            seq![children[0].content.unwrap()->Bytes_0]
        } else {
            Seq::<Seq<u8>>::empty()
        }) + ref_payloads(children.subrange(1, children.len() as int))
    }
}

/// One appended child extends the reference list exactly when it is a
/// `ref` node with byte content.
proof fn lemma_ref_payloads_push(children: Seq<NodeView>, n: NodeView)
    ensures
        ref_payloads(children.push(n)) == ref_payloads(children) + (if n.tag == "ref"@
            && n.content is Some && n.content.unwrap() is Bytes {
            seq![n.content.unwrap()->Bytes_0]
        } else {
            Seq::<Seq<u8>>::empty()
        }),
    decreases children.len(),
{
    if children.len() == 0 {
        assert(children.push(n)[0] == n);
        assert(children.push(n).subrange(1, 1) =~= Seq::<NodeView>::empty());
        assert(ref_payloads(Seq::<NodeView>::empty()) =~= Seq::<Seq<u8>>::empty());
        assert(ref_payloads(children.push(n)) =~= ref_payloads(children) + (if n.tag == "ref"@
            && n.content is Some && n.content.unwrap() is Bytes {
            seq![n.content.unwrap()->Bytes_0]
        } else {
            Seq::<Seq<u8>>::empty()
        }));
    } else {
        assert(children.push(n)[0] == children[0]);
        assert(children.push(n).subrange(1, children.push(n).len() as int) =~= children.subrange(
            1,
            children.len() as int,
        ).push(n));
        lemma_ref_payloads_push(children.subrange(1, children.len() as int), n);
        assert(ref_payloads(children.push(n)) =~= ref_payloads(children) + (if n.tag == "ref"@
            && n.content is Some && n.content.unwrap() is Bytes {
            seq![n.content.unwrap()->Bytes_0]
        } else {
            Seq::<Seq<u8>>::empty()
        }));
    }
}

/// The pairing code derived from one reference payload.
pub open spec fn qr_code_of(c: Client, reference: Seq<u8>) -> Seq<char> {
    vstd::utf8::decode_utf8(reference) + ","@ + base64_of(c.device.noise_key.public@) + ","@
        + base64_of(c.device.identity_key.public@) + ","@ + base64_of(c.device.adv_secret_key@)
}

/// A well-shaped `pair-device` request: a child list led by a
/// `pair-device` node whose `ref` children carry byte payloads, and
/// `from` and `id` attributes to address the acknowledgement with.
pub open spec fn pair_device_request(nv: NodeView) -> bool {
    &&& nv.content matches Some(ValueView::List(children)) && children.len() >= 1 && children[0].tag
        == "pair-device"@ && (children[0].content matches Some(ValueView::List(refs)) && (forall|
        k: int,
    |
        0 <= k < refs.len() ==> ((#[trigger] refs[k]).tag == "ref"@ ==> refs[k].content is Some
            && refs[k].content.unwrap() is Bytes)))
    &&& first_attr_in(nv.attributes, "from"@) is Some
    &&& first_attr_in(nv.attributes, "id"@) is Some
}

/// The acknowledgement for a pairing request: an `iq` result addressed
/// back to the sender, echoing its id.
pub open spec fn pair_reply_view(from_v: ValueView, id_v: ValueView) -> NodeView {
    NodeView {
        tag: "iq"@,
        attributes: seq![
            ("to"@, from_v),
            ("id"@, id_v),
            ("type"@, ValueView::Str("result"@)),
        ],
        content: None,
    }
}

/// Protocol state of one session: the frame transport, the post-handshake
/// socket once it exists, the device identity and the request-id counter.
/// The carrier handle stays with the host application.
pub struct Client {
    pub fs: FrameSocket,
    pub ns: Option<NoiseSocket>,
    pub device: Device,
    pub unique_id: String,
    pub id_counter: u64,
    pub state: SessionState,
}

/// The outcome of the handshake arithmetic on given inputs: the
/// directional keys and the two ciphertexts of the client finish, or
/// nothing when an AEAD check fails or the server static is not a key.
pub struct HsOutcome {
    pub write_key: Seq<u8>,
    pub read_key: Seq<u8>,
    pub static_enc: Seq<u8>,
    pub payload_enc: Seq<u8>,
}

/// Runs the symbolic Noise XX derivation for the client, given the
/// ephemeral pair, the noise static pair, the registration payload and
/// the server's three message parts.
pub open spec fn handshake_outcome(
    e_priv: Seq<u8>,
    e_pub: Seq<u8>,
    noise_priv: Seq<u8>,
    noise_pub: Seq<u8>,
    payload: Seq<u8>,
    e_s: Seq<u8>,
    static_ct: Seq<u8>,
    cert_ct: Seq<u8>,
) -> Option<HsOutcome> {
    let h2 = auth_step(auth_step(noise_pattern(), prologue()), e_pub);
    let h3 = auth_step(h2, e_s);
    let okm1 = hkdf64(noise_pattern(), x25519_shared(e_priv, e_s));
    let ck1 = okm1.subrange(0, 32);
    let k1 = okm1.subrange(32, 64);
    let dec1 = aead_dec(k1, iv_spec(0), h3, static_ct);
    if dec1 is None {
        None
    } else {
        let s_s = dec1.unwrap();
        if s_s.len() != 32 {
            None
        } else {
            let h4 = auth_step(h3, static_ct);
            let okm2 = hkdf64(ck1, x25519_shared(e_priv, s_s));
            let ck2 = okm2.subrange(0, 32);
            let k2 = okm2.subrange(32, 64);
            let dec2 = aead_dec(k2, iv_spec(0), h4, cert_ct);
            if dec2 is None {
                None
            } else {
                let h5 = auth_step(h4, cert_ct);
                let ct1 = aead_enc(k2, iv_spec(1), h5, noise_pub);
                let h6 = auth_step(h5, ct1);
                let okm3 = hkdf64(ck2, x25519_shared(noise_priv, e_s));
                let ck3 = okm3.subrange(0, 32);
                let k3 = okm3.subrange(32, 64);
                let ct2 = aead_enc(k3, iv_spec(0), h6, payload);
                let okm4 = hkdf64(ck3, Seq::<u8>::empty());
                Some(
                    HsOutcome {
                        write_key: okm4.subrange(0, 32),
                        read_key: okm4.subrange(32, 64),
                        static_enc: ct1,
                        payload_enc: ct2,
                    },
                )
            }
        }
    }
}

impl Client {
    /// A fresh session around a device: prologue not yet sent, no
    /// transport keys, counter at zero.
    pub fn new(device: Device, unique_id: String) -> (c: Client)
        ensures
            c.fs.wf(),
            c.fs.sending() == FrameSocketState::Handshake,
            c.ns is None,
            c.id_counter == 0,
            c.unique_id@ == unique_id@,
            c.device == device,
            c.state == SessionState::Connecting,
    {
        Client {
            fs: FrameSocket::new(),
            ns: None,
            device,
            unique_id,
            id_counter: 0,
            state: SessionState::Connecting,
        }
    }

    /// A fresh request id: the session prefix followed by the counter.
    pub fn generate_request_id(&mut self) -> (r: String)
        requires
            old(self).id_counter < u64::MAX,
        ensures
            r@ == old(self).unique_id@ + dec_chars(old(self).id_counter as int),
            final(self).id_counter == old(self).id_counter + 1,
            final(self).fs == old(self).fs,
            final(self).ns == old(self).ns,
            final(self).device == old(self).device,
            final(self).unique_id == old(self).unique_id,
            final(self).state == old(self).state,
    {
        let digits = u64_to_string(self.id_counter);
        let mut id = self.unique_id.clone();
        id.append(digits.as_str());
        self.id_counter = self.id_counter + 1;
        id
    }

    /// Builds the first handshake frame: a `ClientHello` carrying the
    /// ephemeral public key, framed with the prologue.
    pub fn start_handshake(&mut self, ephemeral: &Key) -> (r: Result<Vec<u8>, Error>)
        requires
            old(self).fs.wf(),
        ensures
            final(self).fs.wf(),
            final(self).ns == old(self).ns,
            final(self).device == old(self).device,
            ephemeral.public@.len() == 32 ==> r is Ok,
            r is Ok ==> final(self).fs.sending() == FrameSocketState::Authenticated,
            r matches Ok(frame) ==> {
                &&& frame@ == (if old(self).fs.sending() == FrameSocketState::Handshake {
                    prologue()
                } else {
                    Seq::<u8>::empty()
                }) + spec_be24(client_hello_bytes(ephemeral.public@).len() as int)
                    + client_hello_bytes(ephemeral.public@)
                &&& final(self).state == SessionState::HandshakeSent
            },
    {
        let hello = crate::hsproto::encode_client_hello(&ephemeral.public);
        proof {
            if ephemeral.public@.len() == 32 {
                assert(crate::protobuf::pb_varint(18).len() == 1);
                assert(crate::protobuf::pb_varint(10).len() == 1);
                assert(crate::protobuf::pb_varint(32).len() == 1);
                assert(crate::protobuf::pb_varint(34).len() == 1);
                assert(hello@.len() == 36);
            }
        }
        let frame = match self.fs.make_frame(hello) {
            Ok(f) => f,
            Err(e) => {
                return Err(e);
            },
        };
        self.state = SessionState::HandshakeSent;
        Ok(frame)
    }

    /// Completes the handshake from the server's hello: mixes the three
    /// Diffie-Hellman secrets, decrypts the server static and
    /// certificate, encrypts the noise static and registration payload,
    /// splits the directional keys into a transport socket and returns
    /// the framed `ClientFinish`.
    pub fn finish_handshake(&mut self, ephemeral: &Key, message: Vec<u8>) -> (r: Result<
        Vec<u8>,
        Error,
    >)
        requires
            old(self).fs.wf(),
            ephemeral.wf(),
            old(self).device.wf(),
        ensures
            final(self).fs.wf(),
            final(self).device == old(self).device,
            r matches Ok(frame) ==> final(self).state == SessionState::Authenticated,
            r is Ok ==> final(self).fs.sending() == FrameSocketState::Authenticated,
            forall|e_s: Seq<u8>, st: Seq<u8>, pl: Seq<u8>|
                message@ == #[trigger] server_hello_bytes(e_s, st, pl) && e_s.len() == 32 ==> ({
                    let outcome = handshake_outcome(
                        ephemeral.private@,
                        ephemeral.public@,
                        old(self).device.noise_key.private@,
                        old(self).device.noise_key.public@,
                        crate::device::spec_client_payload(old(self).device),
                        e_s,
                        st,
                        pl,
                    );
                    &&& (outcome is None ==> r is Err)
                    &&& (outcome is Some ==> r is Ok)
                    &&& (r matches Ok(frame) ==> outcome matches Some(o) && {
                        &&& final(self).ns matches Some(ns)
                        &&& ns.spec_write_key() == o.write_key
                        &&& ns.spec_read_key() == o.read_key
                        &&& ns.spec_write_counter() == 0
                        &&& ns.spec_read_counter() == 0
                        &&& ns.wf()
                        &&& frame@ == (if old(self).fs.sending()
                            == FrameSocketState::Handshake {
                            prologue()
                        } else {
                            Seq::<u8>::empty()
                        }) + spec_be24(
                            client_finish_bytes(o.static_enc, o.payload_enc).len() as int,
                        ) + client_finish_bytes(o.static_enc, o.payload_enc)
                    })
                }),
    {
        let parsed = match crate::hsproto::parse_server_hello(&message) {
            Ok(p) => p,
            Err(e) => {
                proof {
                    assert forall|e_s: Seq<u8>, st: Seq<u8>, pl: Seq<u8>|
                        !(message@ == #[trigger] server_hello_bytes(e_s, st, pl)) by {
                        if message@ == server_hello_bytes(e_s, st, pl) {
                            assert(false);
                        }
                    }
                }
                return Err(e);
            },
        };
        let (server_ephemeral, server_static_ct, certificate_ct) = parsed;
        if server_ephemeral.len() != 32 {
            proof {
                assert forall|e_s: Seq<u8>, st: Seq<u8>, pl: Seq<u8>|
                    !(message@ == #[trigger] server_hello_bytes(e_s, st, pl) && e_s.len() == 32)
                by {
                    if message@ == server_hello_bytes(e_s, st, pl) && e_s.len() == 32 {
                        assert(false);
                    }
                }
            }
            return Err(Error::ProtocolError);
        }
        let mut nhs = NoiseHandShake::default();
        nhs.start(crate::frame::conn_header());
        nhs.authenticate(&ephemeral.public);
        nhs.authenticate(&server_ephemeral);
        nhs.mix_shared_secret(ephemeral.private.clone(), server_ephemeral.clone());
        let static_decrypted = match nhs.decrypt(&server_static_ct) {
            Ok(p) => p,
            Err(e) => {
                proof {
                    assert forall|e_s: Seq<u8>, st: Seq<u8>, pl: Seq<u8>|
                        message@ == #[trigger] server_hello_bytes(e_s, st, pl) && e_s.len() == 32
                            implies handshake_outcome(
                        ephemeral.private@,
                        ephemeral.public@,
                        old(self).device.noise_key.private@,
                        old(self).device.noise_key.public@,
                        crate::device::spec_client_payload(old(self).device),
                        e_s,
                        st,
                        pl,
                    ) is None by {
                        if handshake_outcome(
                            ephemeral.private@,
                            ephemeral.public@,
                            old(self).device.noise_key.private@,
                            old(self).device.noise_key.public@,
                            crate::device::spec_client_payload(old(self).device),
                            e_s,
                            st,
                            pl,
                        ) is Some {
                            assert(false);
                        }
                    }
                }
                self.state = SessionState::Closed;
                return Err(e);
            },
        };
        if static_decrypted.len() != 32 {
            proof {
                assert forall|e_s: Seq<u8>, st: Seq<u8>, pl: Seq<u8>|
                    message@ == #[trigger] server_hello_bytes(e_s, st, pl) && e_s.len() == 32
                        implies handshake_outcome(
                    ephemeral.private@,
                    ephemeral.public@,
                    old(self).device.noise_key.private@,
                    old(self).device.noise_key.public@,
                    crate::device::spec_client_payload(old(self).device),
                    e_s,
                    st,
                    pl,
                ) is None by {
                    if handshake_outcome(
                        ephemeral.private@,
                        ephemeral.public@,
                        old(self).device.noise_key.private@,
                        old(self).device.noise_key.public@,
                        crate::device::spec_client_payload(old(self).device),
                        e_s,
                        st,
                        pl,
                    ) is Some {
                        assert(false);
                    }
                }
            }
            self.state = SessionState::Closed;
            return Err(Error::ProtocolError);
        }
        nhs.mix_shared_secret(ephemeral.private.clone(), static_decrypted);
        if let Err(e) = nhs.decrypt(&certificate_ct) {
            proof {
                assert forall|e_s: Seq<u8>, st: Seq<u8>, pl: Seq<u8>|
                    message@ == #[trigger] server_hello_bytes(e_s, st, pl) && e_s.len() == 32
                        implies handshake_outcome(
                    ephemeral.private@,
                    ephemeral.public@,
                    old(self).device.noise_key.private@,
                    old(self).device.noise_key.public@,
                    crate::device::spec_client_payload(old(self).device),
                    e_s,
                    st,
                    pl,
                ) is None by {
                    if handshake_outcome(
                        ephemeral.private@,
                        ephemeral.public@,
                        old(self).device.noise_key.private@,
                        old(self).device.noise_key.public@,
                        crate::device::spec_client_payload(old(self).device),
                        e_s,
                        st,
                        pl,
                    ) is Some {
                        assert(false);
                    }
                }
            }
            self.state = SessionState::Closed;
            return Err(e);
        }
        let encrypted_pubkey = match nhs.encrypt(&self.device.noise_key.public) {
            Ok(c) => c,
            Err(e) => {
                proof {
                    assert(false);
                }
                self.state = SessionState::Closed;
                return Err(e);
            },
        };
        nhs.mix_shared_secret(self.device.noise_key.private.clone(), server_ephemeral);
        let register_payload = self.device.create_register_payload();
        let encrypted_payload = match nhs.encrypt(&register_payload) {
            Ok(c) => c,
            Err(e) => {
                proof {
                    assert(false);
                }
                self.state = SessionState::Closed;
                return Err(e);
            },
        };
        let finish = crate::hsproto::encode_client_finish(&encrypted_pubkey, &encrypted_payload);
        proof {
            crate::hsproto::lemma_client_finish_len(encrypted_pubkey@, encrypted_payload@);
        }
        let frame = match self.fs.make_frame(finish) {
            Ok(f) => f,
            Err(e) => {
                proof {
                    assert(false);
                }
                self.state = SessionState::Closed;
                return Err(e);
            },
        };
        let keys = nhs.extract_and_expand(None);
        self.ns = Some(NoiseSocket::new(keys.0, keys.1));
        self.state = SessionState::Authenticated;
        Ok(frame)
    }

    /// Serialises a node, encrypts it under the write key and frames it:
    /// the exact bytes to hand the carrier.
    pub fn send_node_and_get_data(&mut self, node: &Node) -> (r: Result<Vec<u8>, Error>)
        requires
            old(self).fs.wf(),
            old(self).ns matches Some(ns) && ns.wf() && ns.spec_write_counter() < 0x1_0000_0000,
        ensures
            final(self).fs.wf(),
            final(self).device == old(self).device,
            final(self).id_counter == old(self).id_counter,
            final(self).unique_id == old(self).unique_id,
            final(self).state == old(self).state,
            wf_node_enc(node@) && enc_node(node@).len() + 17 < 0x1000000 ==> r is Ok,
            r is Ok ==> final(self).fs.sending() == FrameSocketState::Authenticated,
            r is Ok && wf_node_enc(node@) ==> {
                &&& final(self).ns matches Some(ns2)
                &&& ns2.spec_write_counter() == old(self).ns.unwrap().spec_write_counter() + 1
                &&& ns2.spec_write_key() == old(self).ns.unwrap().spec_write_key()
                &&& ns2.spec_read_key() == old(self).ns.unwrap().spec_read_key()
                &&& ns2.wf()
                &&& outbound_frame_ok(*old(self), node@, r.unwrap()@)
            },
    {
        let mut encoder = crate::encoder::BinaryEncoder::new();
        let data = match encoder.write_node(node) {
            Ok(d) => d,
            Err(e) => {
                return Err(e);
            },
        };
        let ns = match &mut self.ns {
            Some(ns) => ns,
            None => {
                return Err(Error::ProtocolError);
            },
        };
        let frame = match ns.make_frame(data) {
            Ok(f) => f,
            Err(e) => {
                return Err(e);
            },
        };
        match self.fs.make_frame(frame) {
            Ok(f) => Ok(f),
            Err(e) => Err(e),
        }
    }

    /// Builds and serialises an `iq` request: a fresh id, the namespace,
    /// type and optional addressees, and the optional content.
    pub fn send_iq(&mut self, query: InfoQuery) -> (r: Result<Vec<u8>, Error>)
        requires
            old(self).fs.wf(),
            old(self).ns matches Some(ns) && ns.wf() && ns.spec_write_counter() < 0x1_0000_0000,
            old(self).id_counter < u64::MAX,
            query.namespace is Some,
            query.query_type is Some,
        ensures
            final(self).fs.wf(),
            final(self).device == old(self).device,
            final(self).id_counter == old(self).id_counter + 1,
            final(self).unique_id == old(self).unique_id,
            r is Ok ==> final(self).fs.sending() == FrameSocketState::Authenticated,
            ({
                let nv = iq_node_view(query, old(self).unique_id@ + dec_chars(
                    old(self).id_counter as int,
                ));
                &&& (wf_node_enc(nv) && enc_node(nv).len() + 17 < 0x1000000 ==> r is Ok)
                &&& r is Ok && wf_node_enc(nv) ==> {
                    &&& final(self).ns matches Some(ns2)
                    &&& ns2.spec_write_counter() == old(self).ns.unwrap().spec_write_counter() + 1
                    &&& outbound_frame_ok(
                        Client { id_counter: (old(self).id_counter + 1) as u64, ..*old(self) },
                        nv,
                        r.unwrap()@,
                    )
                }
            }),
    {
        let ghost nv = iq_node_view(query, old(self).unique_id@ + dec_chars(
            old(self).id_counter as int,
        ));
        let request_id = self.generate_request_id();
        let mut attr: Vec<(String, Value)> = Vec::new();
        attr.push((String::from_str("id"), Value::Str(request_id)));
        let namespace = match query.namespace {
            Some(n) => n,
            None => {
                return Err(Error::ProtocolError);
            },
        };
        attr.push((String::from_str("xmlns"), Value::Str(namespace)));
        let query_type = match query.query_type {
            Some(t) => t,
            None => {
                return Err(Error::ProtocolError);
            },
        };
        attr.push((String::from_str("type"), Value::Str(query_type)));
        match query.to {
            Some(to) => {
                attr.push((String::from_str("to"), Value::Jid(to)));
            },
            None => {},
        }
        match query.target {
            Some(target) => {
                attr.push((String::from_str("target"), Value::Jid(target)));
            },
            None => {},
        }
        let node = Node::new(String::from_str("iq"), attr, query.content);
        proof {
            lemma_attrs_view(attr@);
            assert(node@.attributes =~= nv.attributes);
            assert(node@ == nv);
        }
        self.send_node_and_get_data(&node)
    }

    /// The pairing code for one `ref` payload: the reference text and the
    /// base64 forms of the noise public key, the identity public key and
    /// the advertising secret, comma-separated.
    pub fn make_qr_data(&self, data: String) -> (r: String)
        ensures
            r@ == data@ + ","@ + base64_of(self.device.noise_key.public@) + ","@ + base64_of(
                self.device.identity_key.public@,
            ) + ","@ + base64_of(self.device.adv_secret_key@),
    {
        let noise = b64_encode(&self.device.noise_key.public);
        let identity = b64_encode(&self.device.identity_key.public);
        let adv = b64_encode(&self.device.adv_secret_key);
        let mut out = data;
        out.append(",");
        out.append(noise.as_str());
        out.append(",");
        out.append(identity.as_str());
        out.append(",");
        out.append(adv.as_str());
        out
    }

    /// Deep copy of a value.
    #[verifier::loop_isolation(false)]
    fn clone_value(v: &Value) -> (r: Value)
        ensures
            r@ == v@,
        decreases v,
    {
        match v {
            Value::Null => Value::Null,
            Value::Str(s) => Value::Str(s.clone()),
            Value::Bytes(b) => Value::Bytes(b.clone()),
            Value::Jid(j) => Value::Jid(
                JID {
                    user: match &j.user {
                        Some(u) => Some(u.clone()),
                        None => None,
                    },
                    raw_agent: j.raw_agent,
                    device: j.device,
                    integrator: j.integrator,
                    server: match &j.server {
                        Some(s) => Some(s.clone()),
                        None => None,
                    },
                },
            ),
            Value::List(nodes) => {
                let mut out: Vec<Node> = Vec::new();
                let n = nodes.len();
                let mut i: usize = 0;
                while i < n
                    invariant
                        n == nodes@.len(),
                        i <= n,
                        out@.len() == i,
                        nodes_view(out@) =~= nodes_view(nodes@).take(i as int),
                    decreases n - i,
                {
                    proof {
                        crate::node::lemma_nodes_view(nodes@);
                        assert(decreases_to!(*v => nodes@)) by {
                            assert(decreases_to!(*v => *nodes));
                            assert(decreases_to!(*nodes => nodes@));
                        }
                        assert(decreases_to!(*v => nodes@[i as int])) by {
                            assert(decreases_to!(nodes@ => nodes@[i as int]));
                        }
                    }
                    let ghost prev = out@;
                    let cloned = Self::clone_node(&nodes[i]);
                    out.push(cloned);
                    proof {
                        crate::node::lemma_nodes_view_push(prev, cloned);
                        assert(nodes_view(out@) =~= nodes_view(nodes@).take(i + 1));
                    }
                    i = i + 1;
                }
                proof {
                    crate::node::lemma_nodes_view(nodes@);
                    assert(nodes_view(nodes@).take(n as int) =~= nodes_view(nodes@));
                }
                Value::List(out)
            },
            Value::Node(inner) => {
                proof {
                    assert(decreases_to!(*v => **inner)) by {
                        assert(decreases_to!(*v => *inner));
                    }
                }
                Value::Node(Box::new(Self::clone_node(&*inner)))
            },
        }
    }

    /// Deep copy of a node.
    #[verifier::loop_isolation(false)]
    fn clone_node(node: &Node) -> (r: Node)
        ensures
            r@ == node@,
        decreases node,
    {
        let mut attrs: Vec<(String, Value)> = Vec::new();
        let n = node.attributes.len();
        let mut i: usize = 0;
        while i < n
            invariant
                n == node.attributes@.len(),
                i <= n,
                attrs@.len() == i,
                attrs_view(attrs@) =~= attrs_view(node.attributes@).take(i as int),
            decreases n - i,
        {
            proof {
                crate::node::lemma_attrs_view(node.attributes@);
                assert(decreases_to!(*node => node.attributes@)) by {
                    assert(decreases_to!(*node => node.attributes));
                    assert(decreases_to!(node.attributes => node.attributes@));
                }
                assert(decreases_to!(*node => node.attributes@[i as int])) by {
                    assert(decreases_to!(node.attributes@ => node.attributes@[i as int]));
                }
            }
            let key = node.attributes[i].0.clone();
            let value = Self::clone_value(&node.attributes[i].1);
            let ghost prev = attrs@;
            attrs.push((key, value));
            proof {
                crate::node::lemma_attrs_view_push(prev, (attrs@[i as int].0, attrs@[i as int].1));
                assert(attrs_view(attrs@) =~= attrs_view(node.attributes@).take(i + 1));
            }
            i = i + 1;
        }
        proof {
            crate::node::lemma_attrs_view(node.attributes@);
            assert(attrs_view(node.attributes@).take(n as int) =~= attrs_view(node.attributes@));
        }
        let content = match &node.content {
            Some(v) => Some(Self::clone_value(v)),
            None => None,
        };
        Node { tag: node.tag.clone(), attributes: attrs, content }
    }

    /// Handles a `pair-device` request: acknowledges it with an `iq`
    /// result addressed back to the sender, and derives one pairing code
    /// per `ref` child, in order. A `pair-success` node belongs to the
    /// next pairing phase and is ignored; any other shape is a protocol
    /// error.
    pub fn handle_qr(&mut self, node: &Node) -> (r: Result<
        Option<(Vec<u8>, Vec<String>)>,
        Error,
    >)
        requires
            old(self).fs.wf(),
            old(self).ns matches Some(ns) && ns.wf() && ns.spec_write_counter() < 0x1_0000_0000,
        ensures
            final(self).fs.wf(),
            final(self).device == old(self).device,
            ({
                let reply = pair_reply_view(
                    first_attr_in(node@.attributes, "from"@).unwrap(),
                    first_attr_in(node@.attributes, "id"@).unwrap(),
                );
                pair_device_request(node@) && wf_node_enc(reply) && enc_node(reply).len() + 17
                    < 0x1000000 ==> (r matches Ok(o) && o is Some)
            }),
            (node@.content matches Some(ValueView::List(ch)) && ch.len() >= 1 && ch[0].tag
                == "pair-success"@) ==> r == Ok::<Option<(Vec<u8>, Vec<String>)>, Error>(None)
                && *final(self) == *old(self),
            r matches Ok(Some(out)) ==> ({
                &&& node@.content matches Some(ValueView::List(children))
                &&& children.len() >= 1
                &&& children[0].tag == "pair-device"@
                &&& children[0].content matches Some(ValueView::List(refs)) && {
                    let codes = ref_payloads(refs);
                    &&& out.1@.len() == codes.len()
                    &&& forall|i: int|
                        0 <= i < codes.len() && vstd::utf8::valid_utf8(#[trigger] codes[i])
                            ==> out.1@[i]@ == qr_code_of(*old(self), codes[i])
                }
                &&& first_attr_in(node@.attributes, "from"@) matches Some(from_v)
                &&& first_attr_in(node@.attributes, "id"@) matches Some(id_v)
                &&& (wf_node_enc(pair_reply_view(from_v, id_v)) ==> outbound_frame_ok(
                    *old(self),
                    pair_reply_view(from_v, id_v),
                    out.0@,
                ))
            }),
    {
        proof {
            reveal_strlit("from");
            reveal_strlit("id");
            reveal_strlit("pair-device");
            reveal_strlit("pair-success");
            assert("pair-device"@.len() == 11);
            assert("pair-success"@.len() == 12);
        }
        let ghost reply_hyp = pair_device_request(node@) && wf_node_enc(
            pair_reply_view(
                first_attr_in(node@.attributes, "from"@).unwrap(),
                first_attr_in(node@.attributes, "id"@).unwrap(),
            ),
        ) && enc_node(
            pair_reply_view(
                first_attr_in(node@.attributes, "from"@).unwrap(),
                first_attr_in(node@.attributes, "id"@).unwrap(),
            ),
        ).len() + 17 < 0x1000000;
        let children = match &node.content {
            Some(Value::List(children)) => children,
            _ => {
                return Err(Error::ProtocolError);
            },
        };
        proof {
            crate::node::lemma_nodes_view(children@);
        }
        if children.len() == 0 {
            return Err(Error::ProtocolError);
        }
        if children[0].tag == String::from_str("pair-device") {
            let pair_device = match &children[0].content {
                Some(Value::List(refs)) => refs,
                _ => {
                    proof {
                        if reply_hyp {
                            assert(false);
                        }
                    }
                    return Err(Error::ProtocolError);
                },
            };
            let mut from_value: Option<Value> = None;
            let mut id_value: Option<Value> = None;
            let n_attrs = node.attributes.len();
            let mut i: usize = 0;
            proof {
                lemma_attrs_view(node.attributes@);
                assert(attrs_view(node.attributes@).take(0) =~= Seq::<(Seq<char>, ValueView)>::empty());
            }
            #[verifier::loop_isolation(false)]
            while i < n_attrs
                invariant
                    n_attrs == node.attributes@.len(),
                    i <= n_attrs,
                    *self == *old(self),
                    (match from_value {
                        Some(v) => first_attr_in(
                            attrs_view(node.attributes@).take(i as int),
                            "from"@,
                        ) == Some(v@),
                        None => first_attr_in(
                            attrs_view(node.attributes@).take(i as int),
                            "from"@,
                        ) is None,
                    }),
                    (match id_value {
                        Some(v) => first_attr_in(
                            attrs_view(node.attributes@).take(i as int),
                            "id"@,
                        ) == Some(v@),
                        None => first_attr_in(
                            attrs_view(node.attributes@).take(i as int),
                            "id"@,
                        ) is None,
                    }),
                decreases n_attrs - i,
            {
                proof {
                    let av = attrs_view(node.attributes@);
                    assert(av.take(i + 1) =~= av.take(i as int).push(av[i as int]));
                    lemma_first_attr_push(av.take(i as int), av[i as int], "from"@);
                    lemma_first_attr_push(av.take(i as int), av[i as int], "id"@);
                }
                if from_value.is_none() && node.attributes[i].0 == String::from_str("from") {
                    from_value = Some(Self::clone_value(&node.attributes[i].1));
                }
                if id_value.is_none() && node.attributes[i].0 == String::from_str("id") {
                    id_value = Some(Self::clone_value(&node.attributes[i].1));
                }
                i = i + 1;
            }
            proof {
                assert(attrs_view(node.attributes@).take(n_attrs as int) =~= attrs_view(
                    node.attributes@,
                ));
            }
            let from_value = match from_value {
                Some(v) => v,
                None => {
                    proof {
                        if reply_hyp {
                            assert(false);
                        }
                    }
                    return Err(Error::ProtocolError);
                },
            };
            let id_value = match id_value {
                Some(v) => v,
                None => {
                    proof {
                        if reply_hyp {
                            assert(false);
                        }
                    }
                    return Err(Error::ProtocolError);
                },
            };
            let ghost from_v = from_value@;
            let ghost id_v = id_value@;
            let mut pair_attr: Vec<(String, Value)> = Vec::new();
            pair_attr.push((String::from_str("to"), from_value));
            pair_attr.push((String::from_str("id"), id_value));
            pair_attr.push((String::from_str("type"), Value::Str(String::from_str("result"))));
            let pair_node = Node::new(String::from_str("iq"), pair_attr, None);
            proof {
                lemma_attrs_view(pair_attr@);
                assert(pair_node@.attributes =~= pair_reply_view(from_v, id_v).attributes);
                assert(pair_node@ == pair_reply_view(from_v, id_v));
            }
            let reply = match self.send_node_and_get_data(&pair_node) {
                Ok(f) => f,
                Err(e) => {
                    proof {
                        if reply_hyp {
                            assert(false);
                        }
                    }
                    return Err(e);
                },
            };
            let ghost self_after = *self;
            let mut codes: Vec<String> = Vec::new();
            let n_refs = pair_device.len();
            let mut k: usize = 0;
            proof {
                crate::node::lemma_nodes_view(pair_device@);
                assert(ref_payloads(nodes_view(pair_device@).take(0)) =~= Seq::<Seq<u8>>::empty());
            }
            #[verifier::loop_isolation(false)]
            while k < n_refs
                invariant
                    n_refs == pair_device@.len(),
                    k <= n_refs,
                    *self == self_after,
                    self.fs.wf(),
                    self.device == old(self).device,
                    ({
                        let done = ref_payloads(nodes_view(pair_device@).take(k as int));
                        &&& codes@.len() == done.len()
                        &&& forall|m: int|
                            0 <= m < done.len() && vstd::utf8::valid_utf8(#[trigger] done[m])
                                ==> codes@[m]@ == qr_code_of(*old(self), done[m])
                    }),
                decreases n_refs - k,
            {
                proof {
                    let nv = nodes_view(pair_device@);
                    assert(nv.take(k + 1) =~= nv.take(k as int).push(nv[k as int]));
                    lemma_ref_payloads_push(nv.take(k as int), nv[k as int]);
                }
                if pair_device[k].tag == String::from_str("ref") {
                    let bytes = match &pair_device[k].content {
                        Some(Value::Bytes(b)) => b,
                        _ => {
                            proof {
                                if reply_hyp {
                                    assert(false);
                                }
                            }
                            return Err(Error::ProtocolError);
                        },
                    };
                    let text = string_from_bytes(bytes);
                    let code = self.make_qr_data(text);
                    codes.push(code);
                }
                k = k + 1;
            }
            proof {
                assert(nodes_view(pair_device@).take(n_refs as int) =~= nodes_view(pair_device@));
            }
            Ok(Some((reply, codes)))
        } else if children[0].tag == String::from_str("pair-success") {
            Ok(None)
        } else {
            Err(Error::ProtocolError)
        }
    }

    /// Dispatches one inbound node: `iq` nodes go to the pairing
    /// responder, everything else is ignored at this stage.
    pub fn process(&mut self, node: &Node) -> (r: Result<Option<(Vec<u8>, Vec<String>)>, Error>)
        requires
            old(self).fs.wf(),
            old(self).ns matches Some(ns) && ns.wf() && ns.spec_write_counter() < 0x1_0000_0000,
        ensures
            final(self).fs.wf(),
            final(self).device == old(self).device,
            node@.tag != "iq"@ ==> r == Ok::<Option<(Vec<u8>, Vec<String>)>, Error>(None)
                && *final(self) == *old(self),

    {
        if node.tag == String::from_str("iq") {
            match self.handle_qr(node) {
                Ok(out) => Ok(out),
                Err(e) => Err(e),
            }
        } else {
            Ok(None)
        }
    }
}

} // verus!
