//! Binary XML codec behaviour: scenarios and round trips.

use whatsrusty::decoder::{codec_round_trip, string_round_trip, BinaryDecoder};
use whatsrusty::encoder::BinaryEncoder;
use whatsrusty::error::Error;
use whatsrusty::jid::JID;
use whatsrusty::node::{Node, Value};
use std::io::Write;

fn encode(node: &Node) -> Vec<u8> {
    BinaryEncoder::new().write_node(node).unwrap()
}

fn assert_same_node(a: &Node, b: &Node) {
    assert_eq!(a.tag, b.tag);
    assert_eq!(a.attributes.len(), b.attributes.len());
    for (x, y) in a.attributes.iter().zip(b.attributes.iter()) {
        assert_eq!(x.0, y.0);
        assert_same_value(&x.1, &y.1);
    }
    match (&a.content, &b.content) {
        (None, None) => {}
        (Some(x), Some(y)) => assert_same_value(x, y),
        _ => panic!("content presence differs"),
    }
}

fn assert_same_value(a: &Value, b: &Value) {
    match (a, b) {
        (Value::Null, Value::Null) => {}
        (Value::Str(x), Value::Str(y)) => assert_eq!(x, y),
        (Value::Bytes(x), Value::Bytes(y)) => assert_eq!(x, y),
        (Value::Jid(x), Value::Jid(y)) => {
            assert_eq!(x.user, y.user);
            assert_eq!(x.raw_agent, y.raw_agent);
            assert_eq!(x.device, y.device);
            assert_eq!(x.integrator, y.integrator);
            assert_eq!(x.server, y.server);
        }
        (Value::List(x), Value::List(y)) => {
            assert_eq!(x.len(), y.len());
            for (m, n) in x.iter().zip(y.iter()) {
                assert_same_node(m, n);
            }
        }
        _ => panic!("value kinds differ"),
    }
}

#[test]
fn list8_header_parses_with_arity_three() {
    // LIST_8 with arity 3: tag, then one key/value attribute pair.
    // 8 is the dictionary token of "iq", 2 of "type", 7 of "result";
    // a leading zero byte is the uncompressed flags header.
    let buffer = vec![0x00, 0xF8, 0x03, 0x08, 0x02, 0x07];
    let node = BinaryDecoder::new(buffer).unwrap().decode().unwrap();
    assert_eq!(node.tag, "iq");
    assert_eq!(node.attributes.len(), 1);
    assert_eq!(node.attributes[0].0, "type");
    assert!(matches!(&node.attributes[0].1, Value::Str(s) if s == "result"));
    assert!(node.content.is_none());
}

#[test]
fn nibble_pack_of_mixed_digits() {
    // "123-45" packs to length byte 0x03 and one byte per character
    // pair in string order: (1,2), (3,-), (4,5).
    let node = Node::new(
        "x1".to_string(),
        Vec::new(),
        Some(Value::Str("123-45".to_string())),
    );
    let bytes = encode(&node);
    // flags, LIST_8, arity 2, tag ("x1" is no token: BINARY_8 len 2 "x1"),
    // then the packed form.
    assert_eq!(
        bytes,
        vec![0x00, 0xF8, 0x02, 0xFC, 0x02, b'x', b'1', 0xFF, 0x03, 0x12, 0x3A, 0x45]
    );
}

#[test]
fn odd_nibble_pack_sets_high_bit_and_pads() {
    let node = Node::new(
        "x1".to_string(),
        Vec::new(),
        Some(Value::Str("123".to_string())),
    );
    let bytes = encode(&node);
    assert_eq!(
        bytes,
        vec![0x00, 0xF8, 0x02, 0xFC, 0x02, b'x', b'1', 0xFF, 0x82, 0x12, 0x3F]
    );
}

#[test]
fn ad_jid_emits_agent_device_and_user() {
    let jid = JID::new(
        Some("u".to_string()),
        Some(0),
        Some(7),
        None,
        Some("s.whatsapp.net".to_string()),
    );
    let node = Node::new("x1".to_string(), Vec::new(), Some(Value::Jid(jid)));
    let bytes = encode(&node);
    // AD_JID, agent 0x00, device 0x07, then "u" as BINARY_8.
    assert_eq!(
        bytes,
        vec![0x00, 0xF8, 0x02, 0xFC, 0x02, b'x', b'1', 0xF7, 0x00, 0x07, 0xFC, 0x01, b'u']
    );
}

#[test]
fn single_byte_token_strings_use_one_byte() {
    let node = Node::new(
        "iq".to_string(),
        vec![("to".to_string(), Value::Str("s.whatsapp.net".to_string()))],
        None,
    );
    let bytes = encode(&node);
    assert_eq!(bytes, vec![0x00, 0xF8, 0x03, 0x08, 0x04, 0x01]);
}

#[test]
fn double_byte_token_strings_use_dictionary_row() {
    let node = Node::new(
        "iq".to_string(),
        vec![("class".to_string(), Value::Str("receipt".to_string()))],
        None,
    );
    let bytes = encode(&node);
    // "receipt" sits in row 3 at index 1: DICTIONARY_3 is 239.
    assert_eq!(bytes, vec![0x00, 0xF8, 0x03, 0x08, 0x0C, 0xEF, 0x01]);
}

#[test]
fn node_tree_round_trips_exactly() {
    let inner = Node::new(
        "ref".to_string(),
        Vec::new(),
        Some(Value::Bytes(vec![1, 2, 3, 254, 255])),
    );
    // Attribute lists are given in lexicographic key order, matching the
    // deterministic wire emission, so the round trip is an exact equality.
    let other = Node::new(
        "pair-device".to_string(),
        vec![
            ("hexfield".to_string(), Value::Str("0AF3".to_string())),
            ("jid".to_string(), Value::Jid(JID::new(
                Some("someone".to_string()),
                None,
                None,
                None,
                Some("s.whatsapp.net".to_string()),
            ))),
        ],
        Some(Value::List(vec![inner])),
    );
    let root = Node::new(
        "iq".to_string(),
        vec![
            ("from".to_string(), Value::Str("s.whatsapp.net".to_string())),
            ("id".to_string(), Value::Str("17.53-1".to_string())),
            ("type".to_string(), Value::Str("result".to_string())),
        ],
        Some(Value::List(vec![other])),
    );
    let back = codec_round_trip(&root).unwrap();
    assert_same_node(&root, &back);

    // The same equality through the raw encoder and decoder.
    let bytes = encode(&root);
    let again = BinaryDecoder::new(bytes).unwrap().decode().unwrap();
    assert_same_node(&root, &again);
}

#[test]
fn packed_and_dictionary_strings_round_trip() {
    for s in ["123-45", "1.2.3", "", "0AF3", "DEADBEEF", "s.whatsapp.net", "media", "hello world"] {
        let back = string_round_trip(&s.to_string()).unwrap();
        assert_eq!(back, s);
    }
}

#[test]
fn empty_buffer_is_a_decode_error() {
    assert!(matches!(BinaryDecoder::new(Vec::new()), Err(Error::DecodeError)));
}

#[test]
fn truncated_buffer_is_a_decode_error() {
    // Announces an arity of 3 and stops.
    let r = BinaryDecoder::new(vec![0x00, 0xF8, 0x03]).unwrap().decode();
    assert!(matches!(r, Err(Error::DecodeError)));
}

#[test]
fn zero_arity_node_is_a_decode_error() {
    let r = BinaryDecoder::new(vec![0x00, 0xF8, 0x00]).unwrap().decode();
    assert!(matches!(r, Err(Error::DecodeError)));
}

#[test]
fn compressed_payload_inflates_before_decoding() {
    let node = Node::new(
        "iq".to_string(),
        vec![("type".to_string(), Value::Str("result".to_string()))],
        None,
    );
    let plain = encode(&node);
    // Re-wrap the body (after the flags byte) as a zlib stream under flags bit 2.
    let mut enc = flate2::write::ZlibEncoder::new(Vec::new(), flate2::Compression::default());
    enc.write_all(&plain[1..]).unwrap();
    let compressed_body = enc.finish().unwrap();
    let mut buffer = vec![0x02];
    buffer.extend_from_slice(&compressed_body);
    let back = BinaryDecoder::new(buffer).unwrap().decode().unwrap();
    assert_same_node(&node, &back);
}

#[test]
fn corrupt_zlib_stream_is_a_decode_error() {
    let r = BinaryDecoder::new(vec![0x02, 0x99, 0x99, 0x99]);
    assert!(matches!(r, Err(Error::DecodeError)));
}

#[test]
fn lid_keyed_pair_jid_is_promoted() {
    // An AD_JID with agent 1 decodes to the lid server under a "lid" key.
    let jid = JID::new(Some("u2".to_string()), Some(1), Some(3), None, Some("lid".to_string()));
    let node = Node::new(
        "iq".to_string(),
        vec![("lid".to_string(), Value::Jid(jid))],
        None,
    );
    let back = codec_round_trip(&node).unwrap();
    assert_same_node(&node, &back);
}

#[test]
fn to_xml_renders_tags_attributes_and_content() {
    let node = Node::new(
        "iq".to_string(),
        vec![("type".to_string(), Value::Str("result".to_string()))],
        Some(Value::Str("ok".to_string())),
    );
    assert_eq!(node.to_xml(), "<iq type=\u{22}result\u{22}>ok</iq>");
    let empty = Node::new("presence".to_string(), Vec::new(), None);
    assert_eq!(empty.to_xml(), "<presence />");
}

#[test]
fn to_xml_renders_unprintable_bytes_as_hex() {
    let node = Node::new(
        "enc".to_string(),
        Vec::new(),
        Some(Value::Bytes(vec![0x00, 0xFF, 0x10])),
    );
    assert_eq!(node.to_xml(), "<enc>00ff10</enc>");
}

#[test]
fn msgr_and_interop_jids_round_trip() {
    let fb = JID::new(Some("fbuser".to_string()), None, Some(300), None, Some("msgr".to_string()));
    let interop = JID::new(
        Some("iuser".to_string()),
        None,
        Some(5),
        Some(77),
        Some("interop".to_string()),
    );
    let node = Node::new(
        "iq".to_string(),
        vec![
            ("from".to_string(), Value::Jid(fb)),
            ("to".to_string(), Value::Jid(interop)),
        ],
        None,
    );
    let back = codec_round_trip(&node).unwrap();
    assert_same_node(&node, &back);
}

#[test]
fn hosted_jid_round_trips_through_agent_byte() {
    let jid = JID::new(Some("h".to_string()), Some(2), Some(9), None, Some("hosted".to_string()));
    let node = Node::new("iq".to_string(), Vec::new(), Some(Value::Jid(jid)));
    let back = codec_round_trip(&node).unwrap();
    assert_same_node(&node, &back);
}

#[test]
fn pair_jid_without_user_round_trips() {
    let jid = JID::new(None, None, None, None, Some("g.us".to_string()));
    let node = Node::new("iq".to_string(), Vec::new(), Some(Value::Jid(jid)));
    let back = codec_round_trip(&node).unwrap();
    assert_same_node(&node, &back);
}

#[test]
fn attribute_emission_sorts_keys_and_skips_empty_values() {
    let node = Node::new(
        "iq".to_string(),
        vec![
            ("type".to_string(), Value::Str("get".to_string())),
            ("silent".to_string(), Value::Str(String::new())),
            ("id".to_string(), Value::Str("7".to_string())),
            ("gone".to_string(), Value::Null),
        ],
        None,
    );
    let bytes = encode(&node);
    let back = BinaryDecoder::new(bytes).unwrap().decode().unwrap();
    // Null and empty-string values are skipped on the wire, and the
    // surviving keys come back in lexicographic order.
    let keys: Vec<&str> = back.attributes.iter().map(|a| a.0.as_str()).collect();
    assert_eq!(keys, vec!["id", "type"]);
    assert!(matches!(&back.attributes[0].1, Value::Str(s) if s == "7"));
    assert!(matches!(&back.attributes[1].1, Value::Str(s) if s == "get"));
}
