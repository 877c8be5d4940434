//! Length-prefixed framing over a binary carrier.
//!
//! An outbound frame is `[prologue?] ‖ len24_be ‖ payload`, where the
//! four-byte prologue `W A 0x06 0x03` is emitted only on the first frame
//! after connect. Inbound carrier messages may be coalesced or split
//! arbitrarily; the receiver reassembles them with a small state machine
//! that first accumulates a 3-byte big-endian length header and then the
//! announced number of payload bytes.

use vstd::prelude::*;
use crate::error::Error;
use crate::wire::{be24_val, spec_be24, push_be24, read_be24};

verus! {

/// Largest frame payload plus one: lengths must fit in 24 bits.
pub const FRAME_MAX_SIZE: usize = 0x1000000;

/// The four prologue bytes `W A 0x06 0x03`.
pub open spec fn prologue() -> Seq<u8> {
    seq![87u8, 65u8, 6u8, 3u8]
}

/// Splits a byte stream into the complete frames it holds and the
/// remaining bytes of a trailing partial frame.
pub open spec fn frame_split(s: Seq<u8>) -> (Seq<Seq<u8>>, Seq<u8>)
    decreases s.len(),
{
    if s.len() < 3 {
        (Seq::empty(), s)
    } else {
        let l = be24_val(s.take(3));
        if s.len() >= 3 + l {
            let rest = frame_split(s.skip(3 + l));
            (seq![s.subrange(3, 3 + l)] + rest.0, rest.1)
        } else {
            (Seq::empty(), s)
        }
    }
}

/// A stream that is one well-formed frame splits into exactly that
/// frame's payload, with nothing left over.
pub proof fn lemma_frame_roundtrip(b: Seq<u8>)
    requires
        b.len() < 0x1000000,
    ensures
        frame_split(spec_be24(b.len() as int) + b) == (seq![b], Seq::<u8>::empty()),
{
    let s = spec_be24(b.len() as int) + b;
    crate::wire::lemma_be24_roundtrip(b.len() as int);
    assert(s.take(3) =~= spec_be24(b.len() as int));
    assert(be24_val(s.take(3)) == b.len() as int);
    assert(s.subrange(3, 3 + b.len() as int) =~= b);
    assert(s.skip(3 + b.len() as int) =~= Seq::<u8>::empty());
    assert(frame_split(Seq::<u8>::empty()) == (Seq::<Seq<u8>>::empty(), Seq::<u8>::empty()));
    assert(frame_split(s).0 =~= seq![b]);
    assert(frame_split(s).1 =~= Seq::<u8>::empty());
}

/// Feeding a stream in two pieces yields the same frames as feeding it
/// whole: the frames of `a ‖ b` are the frames of `a` followed by the
/// frames of `a`'s leftover prefixed to `b`.
pub proof fn lemma_frame_split_concat(a: Seq<u8>, b: Seq<u8>)
    ensures
        frame_split(a + b).0 == frame_split(a).0 + frame_split(frame_split(a).1 + b).0,
        frame_split(a + b).1 == frame_split(frame_split(a).1 + b).1,
    decreases a.len(),
{
    if a.len() < 3 {
        assert(frame_split(a).1 =~= a);
        assert(frame_split(a).0 + frame_split(a + b).0 =~= frame_split(a + b).0);
    } else {
        let l = be24_val(a.take(3));
        assert((a + b).take(3) =~= a.take(3));
        if a.len() >= 3 + l {
            let a2 = a.skip(3 + l);
            assert((a + b).len() >= 3 + l);
            assert((a + b).subrange(3, 3 + l) =~= a.subrange(3, 3 + l));
            assert((a + b).skip(3 + l) =~= a2 + b);
            lemma_frame_split_concat(a2, b);
            assert(frame_split(a + b).0 =~= frame_split(a).0 + frame_split(
                frame_split(a).1 + b,
            ).0);
        } else {
            assert(frame_split(a).1 =~= a);
            if (a + b).len() >= 3 + l {
                assert(frame_split(a).0 + frame_split(a + b).0 =~= frame_split(a + b).0);
            } else {
                assert(frame_split(a).0 + frame_split(a + b).0 =~= frame_split(a + b).0);
            }
        }
    }
}

/// Builds the prologue bytes.
pub fn conn_header() -> (r: Vec<u8>)
    ensures
        r@ == prologue(),
{
    let mut v: Vec<u8> = Vec::new();
    v.push(87);
    v.push(65);
    v.push(6);
    v.push(3);
    proof {
        assert(v@ =~= prologue());
    }
    v
}

/// Whether the prologue has been sent yet: `Handshake` until the first
/// outbound frame, `Authenticated` afterwards.
#[derive(Clone, Copy, Debug, PartialEq, Eq, Structural)]
pub enum FrameSocketState {
    Handshake,
    Authenticated,
}

/// Frame transport state: the sending flag and the inbound reassembly
/// buffer holding the bytes of a partial frame.
pub struct FrameSocket {
    state: FrameSocketState,
    buffer: Vec<u8>,
}

impl FrameSocket {
    /// The buffered bytes of the trailing partial inbound frame.
    pub closed spec fn pending(self) -> Seq<u8> {
        self.buffer@
    }

    /// Whether the prologue is still owed to the carrier.
    pub closed spec fn sending(self) -> FrameSocketState {
        self.state
    }

    /// Reports the sending state.
    pub fn get_state(&self) -> (st: FrameSocketState)
        ensures
            st == self.sending(),
    {
        self.state
    }

    /// The buffer never holds a complete frame.
    pub closed spec fn wf(self) -> bool {
        frame_split(self.buffer@) == (Seq::<Seq<u8>>::empty(), self.buffer@)
    }

    /// A fresh transport: prologue not yet sent, nothing buffered.
    pub fn new() -> (s: Self)
        ensures
            s.wf(),
            s.sending() == FrameSocketState::Handshake,
            s.pending() == Seq::<u8>::empty(),
    {
        let s = FrameSocket { state: FrameSocketState::Handshake, buffer: Vec::new() };
        proof {
            assert(s.buffer@ =~= Seq::<u8>::empty());
        }
        s
    }

    /// Wraps a payload as `[prologue?] ‖ len24_be ‖ payload`; the prologue
    /// is included exactly on the first frame. Payloads of `2^24` bytes or
    /// more are rejected with `FrameTooLarge` and leave the state alone.
    pub fn make_frame(&mut self, data: Vec<u8>) -> (r: Result<Vec<u8>, Error>)
        ensures
            data@.len() >= FRAME_MAX_SIZE ==> {
                &&& r == Err::<Vec<u8>, Error>(Error::FrameTooLarge)
                &&& *final(self) == *old(self)
            },
            data@.len() < FRAME_MAX_SIZE ==> {
                &&& r is Ok
                &&& r.unwrap()@ == (if old(self).sending() == FrameSocketState::Handshake {
                    prologue()
                } else {
                    Seq::<u8>::empty()
                }) + spec_be24(data@.len() as int) + data@
                &&& final(self).sending() == FrameSocketState::Authenticated
                &&& final(self).pending() == old(self).pending()
                &&& final(self).wf() == old(self).wf()
            },
    {
        let len = data.len();
        if len >= FRAME_MAX_SIZE {
            return Err(Error::FrameTooLarge);
        }
        let mut frame: Vec<u8> = Vec::new();
        if self.state == FrameSocketState::Handshake {
            frame.push(87);
            frame.push(65);
            frame.push(6);
            frame.push(3);
            proof {
                assert(frame@ =~= prologue());
            }
        }
        self.state = FrameSocketState::Authenticated;
        push_be24(&mut frame, len as u32);
        let ghost before = frame@;
        frame.extend_from_slice(data.as_slice());
        proof {
            assert(frame@ =~= before + data@);
            if old(self).state == FrameSocketState::Handshake {
                assert(frame@ =~= prologue() + spec_be24(data@.len() as int) + data@);
            } else {
                assert(frame@ =~= Seq::<u8>::empty() + spec_be24(data@.len() as int) + data@);
            }
        }
        Ok(frame)
    }

    /// Absorbs one carrier message and emits every frame it completes, in
    /// order. The machine is chunking-independent: the emitted frames are
    /// exactly the complete frames of the buffered bytes followed by the
    /// new data, and the leftover stays buffered.
    pub fn process_data(&mut self, data: Vec<u8>) -> (frames: Vec<Vec<u8>>)
        requires
            old(self).wf(),
        ensures
            final(self).wf(),
            final(self).sending() == old(self).sending(),
            frames@.map_values(|f: Vec<u8>| f@) == frame_split(old(self).pending() + data@).0,
            final(self).pending() == frame_split(old(self).pending() + data@).1,
    {
        let ghost stream = old(self).buffer@ + data@;
        self.buffer.extend_from_slice(data.as_slice());
        proof {
            assert(self.buffer@ =~= stream);
        }
        let mut frames: Vec<Vec<u8>> = Vec::new();
        loop
            invariant
                frame_split(stream).0 =~= frames@.map_values(|f: Vec<u8>| f@) + frame_split(
                    self.buffer@,
                ).0,
                frame_split(stream).1 == frame_split(self.buffer@).1,
                self.state == old(self).state,
            ensures
                frame_split(stream).0 =~= frames@.map_values(|f: Vec<u8>| f@),
                frame_split(stream).1 == self.buffer@,
                frame_split(self.buffer@) == (Seq::<Seq<u8>>::empty(), self.buffer@),
                self.state == old(self).state,
            decreases self.buffer@.len(),
        {
            let blen = self.buffer.len();
            if blen < 3 {
                proof {
                    assert(frame_split(self.buffer@).0 =~= Seq::<Seq<u8>>::empty());
                }
                break;
            }
            let l = read_be24(self.buffer[0], self.buffer[1], self.buffer[2]) as usize;
            proof {
                assert(self.buffer@.take(3) =~= seq![self.buffer@[0], self.buffer@[1], self.buffer@[2]]);
            }
            if blen < 3 + l {
                proof {
                    assert(frame_split(self.buffer@).0 =~= Seq::<Seq<u8>>::empty());
                }
                break;
            }
            let payload = vstd::slice::slice_to_vec(
                vstd::slice::slice_subrange(self.buffer.as_slice(), 3, 3 + l),
            );
            let rest = vstd::slice::slice_to_vec(
                vstd::slice::slice_subrange(self.buffer.as_slice(), 3 + l, blen),
            );
            let ghost prev = self.buffer@;
            let ghost prev_frames = frames@;
            frames.push(payload);
            self.buffer = rest;
            proof {
                assert(self.buffer@ =~= prev.skip(3 + l as int));
                assert(frame_split(prev).0 =~= seq![prev.subrange(3, 3 + l as int)] + frame_split(
                    self.buffer@,
                ).0);
                assert(frames@.map_values(|f: Vec<u8>| f@) =~= prev_frames.map_values(
                    |f: Vec<u8>| f@,
                ) + seq![prev.subrange(3, 3 + l as int)]);
                assert(frame_split(stream).0 =~= frames@.map_values(|f: Vec<u8>| f@) + frame_split(
                    self.buffer@,
                ).0);
            }
        }
        proof {
            assert(frames@.map_values(|f: Vec<u8>| f@) =~= frame_split(stream).0);
        }
        frames
    }
}

} // verus!
