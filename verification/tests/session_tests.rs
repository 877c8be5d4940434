//! Handshake, session driver and key-material behaviour.

use base64::Engine;
use sha2::Digest;
use ed25519_dalek::Verifier;
use whatsrusty::device::Device;
use whatsrusty::error::Error;
use whatsrusty::frame::FrameSocket;
use whatsrusty::handshake::NoiseHandShake;
use whatsrusty::hsproto::{encode_server_hello, parse_server_hello};
use whatsrusty::keys::Key;
use whatsrusty::node::{Node, Value};
use whatsrusty::noise_socket::NoiseSocket;
use whatsrusty::decoder::BinaryDecoder;
use whatsrusty::session::{u64_to_string, unique_prefix, Client, InfoQuery};

fn conn_header() -> Vec<u8> {
    vec![b'W', b'A', 6, 3]
}

#[test]
fn request_ids_concatenate_prefix_and_counter() {
    let device = Device::new();
    let mut client = Client::new(device, unique_prefix(17, 53));
    assert_eq!(client.generate_request_id(), "17.53-0");
    assert_eq!(client.generate_request_id(), "17.53-1");
    assert_eq!(client.id_counter, 2);
    assert_eq!(u64_to_string(0), "0");
    assert_eq!(u64_to_string(1022419966), "1022419966");
}

#[test]
fn authenticate_chains_sha256() {
    let mut nhs = NoiseHandShake::default();
    nhs.start(conn_header());
    let h0 = nhs.hash_bytes();
    let x = b"first".to_vec();
    let y = b"second".to_vec();
    nhs.authenticate(&x);
    nhs.authenticate(&y);
    let mut inner = sha2::Sha256::new();
    inner.update(&h0);
    inner.update(&x);
    let mut outer = sha2::Sha256::new();
    outer.update(inner.finalize());
    outer.update(&y);
    assert_eq!(nhs.hash_bytes(), outer.finalize().to_vec());
}

#[test]
fn extract_and_expand_matches_hkdf() {
    let mut nhs = NoiseHandShake::default();
    nhs.start(conn_header());
    let (w, r) = nhs.extract_and_expand(None);
    // After start the chaining salt is the 32-byte protocol name.
    let salt = b"Noise_XX_25519_AESGCM_SHA256\0\0\0\0";
    let hk = hkdf::Hkdf::<sha2::Sha256>::new(Some(&salt[..]), &[]);
    let mut okm = [0u8; 64];
    hk.expand(&[], &mut okm).unwrap();
    assert_eq!(w, okm[..32].to_vec());
    assert_eq!(r, okm[32..].to_vec());
}

#[test]
fn signed_pre_key_verifies_under_derived_ed25519_key() {
    let identity = Key::new();
    let pre = identity.create_signed_pre_key(1);
    let seed: [u8; 32] = sha2::Sha512::digest(&identity.private)[..32].try_into().unwrap();
    let signing = ed25519_dalek::SigningKey::from_bytes(&seed);
    let verifying = signing.verifying_key();
    let mut message = vec![0x05];
    message.extend_from_slice(&pre.key.public);
    let signature = ed25519_dalek::Signature::from_bytes(&pre.signature.clone().try_into().unwrap());
    assert!(verifying.verify(&message, &signature).is_ok());
}

#[test]
fn register_payload_embeds_identity_and_pre_key() {
    let device = Device::new();
    let payload = device.create_register_payload();
    // The payload carries the identity public key, the pre-key public key
    // and the 64-byte signature as length-delimited fields.
    assert!(windows_contains(&payload, &device.identity_key.public));
    assert!(windows_contains(&payload, &device.signed_pre_key.key.public));
    assert!(windows_contains(&payload, &device.signed_pre_key.signature));
    let build_hash = md5::compute(b"2.3000.1022419966").0;
    assert!(windows_contains(&payload, &build_hash));
}

fn windows_contains(haystack: &[u8], needle: &[u8]) -> bool {
    haystack.windows(needle.len()).any(|w| w == needle)
}

#[test]
fn server_hello_parses_its_own_encoding() {
    let e = vec![1u8; 32];
    let st = vec![2u8; 48];
    let pl = vec![3u8; 99];
    let bytes = encode_server_hello(&e, &st, &pl);
    let (pe, pst, ppl) = parse_server_hello(&bytes).unwrap();
    assert_eq!(pe, e);
    assert_eq!(pst, st);
    assert_eq!(ppl, pl);
}

#[test]
fn garbled_server_hello_is_rejected() {
    assert!(parse_server_hello(&vec![0xFF, 0x01, 0x02]).is_err());
}

/// Plays both ends of the Noise XX handshake in memory: the client side
/// through the session driver, the server side through the handshake
/// primitives, and checks the derived transport keys agree by exchanging
/// application frames in both directions.
#[test]
fn handshake_derives_mirrored_transport_keys() {
    let device = Device::new();
    let ephemeral = Key::new();
    let server_ephemeral = Key::new();
    let server_static = Key::new();
    let certificate = b"server certificate chain".to_vec();

    let mut client = Client::new(device, unique_prefix(1, 2));
    let hello_frame = client.start_handshake(&ephemeral).unwrap();
    // Prologue, then the 3-byte length, then the ClientHello message.
    assert_eq!(&hello_frame[..4], &[b'W', b'A', 6, 3]);

    // Server side of the pattern.
    let mut shs = NoiseHandShake::default();
    shs.start(conn_header());
    shs.authenticate(&ephemeral.public);
    shs.authenticate(&server_ephemeral.public);
    shs.mix_shared_secret(server_ephemeral.private.clone(), ephemeral.public.clone());
    let static_ct = shs.encrypt(&server_static.public).unwrap();
    shs.mix_shared_secret(server_static.private.clone(), ephemeral.public.clone());
    let cert_ct = shs.encrypt(&certificate).unwrap();
    let server_hello = encode_server_hello(&server_ephemeral.public, &static_ct, &cert_ct);

    let finish_frame = client.finish_handshake(&ephemeral, server_hello).unwrap();

    // Server consumes the ClientFinish: no prologue on the second frame.
    let mut server_fs = FrameSocket::new();
    let frames = server_fs.process_data(finish_frame);
    assert_eq!(frames.len(), 1);
    // ClientFinish: field 4, then static (1) and payload (2); reuse the
    // ServerHello parser shape by hand here.
    let finish = frames[0].clone();
    assert_eq!(finish[0], 4 * 8 + 2);
    // Walk the two inner fields manually.
    let (static_ct2, payload_ct2) = split_client_finish(&finish);
    let client_static = shs.decrypt(&static_ct2).unwrap();
    assert_eq!(client_static, client.device.noise_key.public);
    shs.mix_shared_secret(server_ephemeral.private.clone(), client_static);
    let register = shs.decrypt(&payload_ct2).unwrap();
    assert_eq!(register, client.device.create_register_payload());

    // The split runs with the roles swapped on the server.
    let (server_write, server_read) = shs.extract_and_expand(None);
    let mut server_socket = NoiseSocket::new(server_read, server_write);

    // Client sends an application node; the server decrypts and decodes it.
    let node = Node::new(
        "iq".to_string(),
        vec![("type".to_string(), Value::Str("get".to_string()))],
        None,
    );
    let wire = client.send_node_and_get_data(&node).unwrap();
    let mut server_frames = FrameSocket::new();
    let payloads = server_frames.process_data(wire);
    assert_eq!(payloads.len(), 1);
    let plain = server_socket.receive_encrypted_frame(&payloads[0]).unwrap();
    let got = BinaryDecoder::new(plain).unwrap().decode().unwrap();
    assert_eq!(got.tag, "iq");

    // And the other direction.
    let reply_ct = server_socket.make_frame(vec![0x00, 0xF8, 0x01, 0x08]).unwrap();
    let ns = client.ns.as_mut().unwrap();
    let reply_plain = ns.receive_encrypted_frame(&reply_ct).unwrap();
    let reply = BinaryDecoder::new(reply_plain).unwrap().decode().unwrap();
    assert_eq!(reply.tag, "iq");
}

/// Splits a ClientFinish message into its two encrypted fields; panics on
/// any other shape, which fails the test.
fn split_client_finish(finish: &[u8]) -> (Vec<u8>, Vec<u8>) {
    // outer: key (1 byte for small fields), varint length, body
    let (outer_len, mut at) = read_varint(finish, 1);
    assert_eq!(at + outer_len, finish.len());
    assert_eq!(finish[at], 1 * 8 + 2);
    let (len1, p1) = read_varint(finish, at + 1);
    let static_ct = finish[p1..p1 + len1].to_vec();
    at = p1 + len1;
    assert_eq!(finish[at], 2 * 8 + 2);
    let (len2, p2) = read_varint(finish, at + 1);
    let payload_ct = finish[p2..p2 + len2].to_vec();
    assert_eq!(p2 + len2, finish.len());
    (static_ct, payload_ct)
}

fn read_varint(data: &[u8], mut pos: usize) -> (usize, usize) {
    let mut value: usize = 0;
    let mut shift = 0;
    loop {
        let b = data[pos];
        pos += 1;
        value |= ((b & 0x7F) as usize) << shift;
        if b < 0x80 {
            return (value, pos);
        }
        shift += 7;
    }
}

#[test]
fn tampered_handshake_message_fails_with_handshake_auth() {
    let ephemeral = Key::new();
    let peer = Key::new();
    let mut alice = NoiseHandShake::default();
    alice.start(conn_header());
    alice.mix_shared_secret(ephemeral.private.clone(), peer.public.clone());
    let mut ct = alice.encrypt(&b"hello".to_vec()).unwrap();
    let mut bob = NoiseHandShake::default();
    bob.start(conn_header());
    bob.mix_shared_secret(peer.private.clone(), ephemeral.public.clone());
    ct[0] ^= 0x80;
    assert!(matches!(bob.decrypt(&ct), Err(Error::HandshakeAuth)));
    ct[0] ^= 0x80;
    assert_eq!(bob.decrypt(&ct).unwrap(), b"hello".to_vec());
}

#[test]
fn qr_codes_join_reference_and_key_material() {
    let device = Device::new();
    let noise_b64 = base64::engine::general_purpose::STANDARD.encode(&device.noise_key.public);
    let ident_b64 = base64::engine::general_purpose::STANDARD.encode(&device.identity_key.public);
    let adv_b64 = base64::engine::general_purpose::STANDARD.encode(&device.adv_secret_key);
    let mut client = Client::new(device, unique_prefix(3, 4));
    // Give the client a transport socket so it can frame the reply.
    client.ns = Some(NoiseSocket::new(vec![1u8; 32], vec![2u8; 32]));
    let reference = Node::new(
        "ref".to_string(),
        Vec::new(),
        Some(Value::Bytes(b"REFDATA".to_vec())),
    );
    let pair_device = Node::new(
        "pair-device".to_string(),
        Vec::new(),
        Some(Value::List(vec![reference])),
    );
    let iq = Node::new(
        "iq".to_string(),
        vec![
            ("from".to_string(), Value::Str("s.whatsapp.net".to_string())),
            ("id".to_string(), Value::Str("42".to_string())),
        ],
        Some(Value::List(vec![pair_device])),
    );
    let (reply, codes) = client.handle_qr(&iq).unwrap().expect("pair-device yields a reply");
    assert!(!reply.is_empty());
    assert_eq!(codes.len(), 1);
    assert_eq!(codes[0], format!("REFDATA,{},{},{}", noise_b64, ident_b64, adv_b64));
}

#[test]
fn non_iq_nodes_are_ignored() {
    let device = Device::new();
    let mut client = Client::new(device, unique_prefix(3, 4));
    client.ns = Some(NoiseSocket::new(vec![1u8; 32], vec![2u8; 32]));
    let node = Node::new("presence".to_string(), Vec::new(), None);
    assert!(matches!(client.process(&node), Ok(None)));
}

#[test]
fn pair_success_is_ignored() {
    let device = Device::new();
    let mut client = Client::new(device, unique_prefix(3, 4));
    client.ns = Some(NoiseSocket::new(vec![1u8; 32], vec![2u8; 32]));
    let child = Node::new("pair-success".to_string(), Vec::new(), None);
    let iq = Node::new(
        "iq".to_string(),
        Vec::new(),
        Some(Value::List(vec![child])),
    );
    assert!(matches!(client.handle_qr(&iq), Ok(None)));
}

#[test]
fn malformed_pair_device_is_a_protocol_error() {
    let device = Device::new();
    let mut client = Client::new(device, unique_prefix(3, 4));
    client.ns = Some(NoiseSocket::new(vec![1u8; 32], vec![2u8; 32]));
    let iq = Node::new("iq".to_string(), Vec::new(), None);
    assert!(matches!(client.handle_qr(&iq), Err(Error::ProtocolError)));
}

#[test]
fn send_iq_frames_an_encrypted_request() {
    let device = Device::new();
    let mut client = Client::new(device, unique_prefix(5, 6));
    client.ns = Some(NoiseSocket::new(vec![1u8; 32], vec![2u8; 32]));
    let wire = client
        .send_iq(InfoQuery {
            namespace: Some("md".to_string()),
            query_type: Some("set".to_string()),
            to: None,
            target: None,
            id: None,
            content: None,
        })
        .unwrap();
    // Prologue (first frame), 3-byte length, then ciphertext.
    assert_eq!(&wire[..4], &[b'W', b'A', 6, 3]);
    // The mirrored reader gets the node back.
    let mut reader = NoiseSocket::new(vec![2u8; 32], vec![1u8; 32]);
    let ct = wire[7..].to_vec();
    let plain = reader.receive_encrypted_frame(&ct).unwrap();
    let node = BinaryDecoder::new(plain).unwrap().decode().unwrap();
    assert_eq!(node.tag, "iq");
    // Wire emission orders attribute keys lexicographically.
    let keys: Vec<&str> = node.attributes.iter().map(|a| a.0.as_str()).collect();
    assert_eq!(keys, vec!["id", "type", "xmlns"]);
}

#[test]
fn sha256_wrapper_matches_known_vector() {
    // Checked through the handshake hash: h = SHA256(pattern ‖ header).
    let mut nhs = NoiseHandShake::default();
    nhs.start(conn_header());
    let mut reference = sha2::Sha256::new();
    reference.update(b"Noise_XX_25519_AESGCM_SHA256\0\0\0\0");
    reference.update(&conn_header());
    assert_eq!(nhs.hash_bytes(), reference.finalize().to_vec());
}

#[test]
fn decimal_rendering_handles_extremes() {
    assert_eq!(u64_to_string(u64::MAX), u64::MAX.to_string());
    assert_eq!(unique_prefix(0, 255), "0.255-");
}
