//! Frame transport and AEAD socket behaviour.

use whatsrusty::error::Error;
use whatsrusty::frame::{FrameSocket, FrameSocketState};
use whatsrusty::noise_socket::{relay_frames, NoiseSocket};

fn mirrored_pair() -> (NoiseSocket, NoiseSocket) {
    let wk = vec![7u8; 32];
    let rk = vec![9u8; 32];
    let a = NoiseSocket::new(wk.clone(), rk.clone());
    let b = NoiseSocket::new(rk, wk);
    (a, b)
}

#[test]
fn first_frame_carries_prologue() {
    let mut fs = FrameSocket::new();
    let frame = fs.make_frame(vec![0xAA, 0xBB, 0xCC]).unwrap();
    assert_eq!(frame, vec![0x57, 0x41, 0x06, 0x03, 0x00, 0x00, 0x03, 0xAA, 0xBB, 0xCC]);
    let second = fs.make_frame(vec![0x01]).unwrap();
    assert_eq!(second, vec![0x00, 0x00, 0x01, 0x01]);
    assert!(matches!(fs.get_state(), FrameSocketState::Authenticated));
}

#[test]
fn frame_of_max_size_encodes_and_larger_is_refused() {
    let mut fs = FrameSocket::new();
    let _ = fs.make_frame(Vec::new()).unwrap();
    let big = vec![0u8; (1 << 24) - 1];
    let frame = fs.make_frame(big).unwrap();
    assert_eq!(frame.len(), 3 + (1 << 24) - 1);
    assert_eq!(&frame[0..3], &[0xFF, 0xFF, 0xFF]);
    let too_big = vec![0u8; 1 << 24];
    assert!(matches!(fs.make_frame(too_big), Err(Error::FrameTooLarge)));
}

#[test]
fn parser_reassembles_across_arbitrary_chunks() {
    let mut fs = FrameSocket::new();
    let first = fs.process_data(vec![0x00, 0x00, 0x03, 0xAA]);
    assert_eq!(first.len(), 0);
    let second = fs.process_data(vec![0xBB, 0xCC]);
    assert_eq!(second, vec![vec![0xAA, 0xBB, 0xCC]]);
}

#[test]
fn parser_splits_coalesced_frames() {
    let mut fs = FrameSocket::new();
    let frames = fs.process_data(vec![0x00, 0x00, 0x01, 0x11, 0x00, 0x00, 0x02, 0x22, 0x33]);
    assert_eq!(frames, vec![vec![0x11], vec![0x22, 0x33]]);
}

#[test]
fn round_trip_through_own_parser() {
    let mut sender = FrameSocket::new();
    let mut receiver = FrameSocket::new();
    let payload = vec![1u8, 2, 3, 4, 5];
    let frame = sender.make_frame(payload.clone()).unwrap();
    // The receiver never sees the prologue; it is consumed by the carrier
    // handshake on the server side.
    let frames = receiver.process_data(frame[4..].to_vec());
    assert_eq!(frames, vec![payload]);
}

#[test]
fn mirrored_sockets_invert_every_send() {
    let (mut tx, mut rx) = mirrored_pair();
    let plaintexts = vec![b"one".to_vec(), b"two".to_vec(), Vec::new(), vec![0u8; 1000]];
    let out = relay_frames(&mut tx, &mut rx, &plaintexts).unwrap();
    assert_eq!(out, plaintexts);
    assert_eq!(tx.get_write_counter(), 4);
    assert_eq!(rx.get_read_counter(), 4);
}

#[test]
fn counters_advance_once_per_frame() {
    let (mut tx, mut rx) = mirrored_pair();
    for i in 0..5u8 {
        let ct = tx.make_frame(vec![i]).unwrap();
        let pt = rx.receive_encrypted_frame(&ct).unwrap();
        assert_eq!(pt, vec![i]);
        assert_eq!(tx.get_write_counter(), (i + 1) as u64);
        assert_eq!(rx.get_read_counter(), (i + 1) as u64);
    }
}

#[test]
fn tampered_frame_is_rejected_as_transport_auth() {
    let (mut tx, mut rx) = mirrored_pair();
    let mut ct = tx.make_frame(vec![1, 2, 3]).unwrap();
    ct[0] ^= 1;
    assert!(matches!(rx.receive_encrypted_frame(&ct), Err(Error::TransportAuth)));
    // The read counter did not advance, so the genuine frame still decrypts.
    assert_eq!(rx.get_read_counter(), 0);
    ct[0] ^= 1;
    assert_eq!(rx.receive_encrypted_frame(&ct).unwrap(), vec![1, 2, 3]);
}

#[test]
fn wrong_counter_fails_to_decrypt() {
    let (mut tx, mut rx) = mirrored_pair();
    let _first = tx.make_frame(vec![9]).unwrap();
    let second = tx.make_frame(vec![8]).unwrap();
    // The receiver is still at counter 0; frame two must not decrypt.
    assert!(rx.receive_encrypted_frame(&second).is_err());
}

#[test]
fn generate_iv_places_counter_big_endian() {
    let iv = NoiseSocket::generate_iv(0x01020304);
    assert_eq!(iv, vec![0, 0, 0, 0, 0, 0, 0, 0, 1, 2, 3, 4]);
}
