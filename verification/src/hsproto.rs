//! The three handshake messages, as protocol buffers.
//!
//! A `HandshakeMessage` carries one of `ClientHello` (field 2),
//! `ServerHello` (field 3) or `ClientFinish` (field 4); each submessage
//! carries byte fields `ephemeral`, `static` and `payload` as the
//! pattern requires.

use vstd::prelude::*;
use crate::decoder::{lemma_prefix_first, lemma_prefix_split, prefix_at};
use crate::error::Error;
use crate::protobuf::{pb_bytes, pb_varint, write_bytes_field};

verus! {

broadcast use vstd::std_specs::vec::group_vec_axioms, vstd::seq::group_seq_axioms;

/// Image of a `ClientHello` carrying the client ephemeral.
pub open spec fn client_hello_bytes(ephemeral: Seq<u8>) -> Seq<u8> {
    pb_bytes(2, pb_bytes(1, ephemeral))
}

/// Image of a `ClientFinish` carrying the encrypted static and payload.
pub open spec fn client_finish_bytes(static_enc: Seq<u8>, payload_enc: Seq<u8>) -> Seq<u8> {
    pb_bytes(4, pb_bytes(1, static_enc) + pb_bytes(2, payload_enc))
}

/// Image of a `ServerHello` carrying the server ephemeral and the
/// encrypted static and payload.
pub open spec fn server_hello_bytes(
    ephemeral: Seq<u8>,
    static_enc: Seq<u8>,
    payload_enc: Seq<u8>,
) -> Seq<u8> {
    pb_bytes(3, pb_bytes(1, ephemeral) + pb_bytes(2, static_enc) + pb_bytes(3, payload_enc))
}

/// A finish message over bounded ciphertexts stays far below the frame
/// cap.
pub proof fn lemma_client_finish_len(static_enc: Seq<u8>, payload_enc: Seq<u8>)
    requires
        static_enc.len() <= 0x10000,
        payload_enc.len() <= 0x10000,
    ensures
        client_finish_bytes(static_enc, payload_enc).len() < 0x30000,
{
    crate::protobuf::lemma_pb_varint_len(10int);
    crate::protobuf::lemma_pb_varint_len(18int);
    crate::protobuf::lemma_pb_varint_len(34int);
    crate::protobuf::lemma_pb_varint_len(static_enc.len() as int);
    crate::protobuf::lemma_pb_varint_len(payload_enc.len() as int);
    crate::protobuf::lemma_pb_varint_len(
        (pb_bytes(1, static_enc) + pb_bytes(2, payload_enc)).len() as int,
    );
}

/// Serialises a `ClientHello`.
pub fn encode_client_hello(ephemeral: &Vec<u8>) -> (r: Vec<u8>)
    ensures
        r@ == client_hello_bytes(ephemeral@),
{
    let mut inner: Vec<u8> = Vec::new();
    write_bytes_field(&mut inner, 1, ephemeral);
    let mut out: Vec<u8> = Vec::new();
    write_bytes_field(&mut out, 2, &inner);
    out
}

/// Serialises a `ClientFinish`.
pub fn encode_client_finish(static_enc: &Vec<u8>, payload_enc: &Vec<u8>) -> (r: Vec<u8>)
    ensures
        r@ == client_finish_bytes(static_enc@, payload_enc@),
{
    let mut inner: Vec<u8> = Vec::new();
    write_bytes_field(&mut inner, 1, static_enc);
    write_bytes_field(&mut inner, 2, payload_enc);
    let mut out: Vec<u8> = Vec::new();
    write_bytes_field(&mut out, 4, &inner);
    proof {
        assert(inner@ =~= pb_bytes(1, static_enc@) + pb_bytes(2, payload_enc@));
    }
    out
}

/// Serialises a `ServerHello`; the server's half of the exchange, used
/// to exercise both directions of the handshake.
pub fn encode_server_hello(
    ephemeral: &Vec<u8>,
    static_enc: &Vec<u8>,
    payload_enc: &Vec<u8>,
) -> (r: Vec<u8>)
    ensures
        r@ == server_hello_bytes(ephemeral@, static_enc@, payload_enc@),
{
    let mut inner: Vec<u8> = Vec::new();
    write_bytes_field(&mut inner, 1, ephemeral);
    write_bytes_field(&mut inner, 2, static_enc);
    write_bytes_field(&mut inner, 3, payload_enc);
    let mut out: Vec<u8> = Vec::new();
    write_bytes_field(&mut out, 3, &inner);
    proof {
        assert(inner@ =~= pb_bytes(1, ephemeral@) + pb_bytes(2, static_enc@) + pb_bytes(
            3,
            payload_enc@,
        ));
    }
    out
}

/// Parses one varint.
fn parse_varint(data: &Vec<u8>, pos: usize) -> (r: Result<(u64, usize), Error>)
    requires
        pos <= data@.len(),
    ensures
        r matches Ok(p) ==> pos < p.1 <= data@.len(),
        forall|n: int|
            0 <= n <= u64::MAX && #[trigger] prefix_at(data@, pos as int, pb_varint(n)) ==> (
            r matches Ok(p) && p.0 == n && p.1 == pos + pb_varint(n).len()),
    decreases data@.len() - pos,
{
    if pos >= data.len() {
        proof {
            assert forall|n: int|
                0 <= n <= u64::MAX implies !prefix_at(data@, pos as int, pb_varint(n)) by {
                assert(pb_varint(n).len() >= 1);
            }
        }
        return Err(Error::DecodeError);
    }
    let b = data[pos];
    if b < 0x80 {
        proof {
            assert forall|n: int|
                0 <= n <= u64::MAX && #[trigger] prefix_at(data@, pos as int, pb_varint(n))
                    implies n == b by {
                lemma_prefix_first(data@, pos as int, pb_varint(n));
            }
        }
        Ok((b as u64, pos + 1))
    } else {
        let rest = match parse_varint(data, pos + 1) {
            Ok(p) => p,
            Err(e) => {
                proof {
                    assert forall|n: int|
                        0 <= n <= u64::MAX implies !prefix_at(data@, pos as int, pb_varint(n)) by {
                        if prefix_at(data@, pos as int, pb_varint(n)) {
                            lemma_prefix_first(data@, pos as int, pb_varint(n));
                            assert(n >= 0x80);
                            assert(pb_varint(n) =~= seq![(n % 0x80 + 0x80) as u8] + pb_varint(
                                n / 0x80,
                            ));
                            crate::decoder::lemma_prefix_split(
                                data@,
                                pos as int,
                                seq![(n % 0x80 + 0x80) as u8],
                                pb_varint(n / 0x80),
                            );
                            assert(false);
                        }
                    }
                }
                return Err(e);
            },
        };
        if rest.0 > (u64::MAX - 127) / 128 {
            proof {
                assert forall|n: int|
                    0 <= n <= u64::MAX implies !prefix_at(data@, pos as int, pb_varint(n)) by {
                    if prefix_at(data@, pos as int, pb_varint(n)) {
                        lemma_prefix_first(data@, pos as int, pb_varint(n));
                        assert(n >= 0x80);
                        assert(pb_varint(n) =~= seq![(n % 0x80 + 0x80) as u8] + pb_varint(
                            n / 0x80,
                        ));
                        crate::decoder::lemma_prefix_split(
                            data@,
                            pos as int,
                            seq![(n % 0x80 + 0x80) as u8],
                            pb_varint(n / 0x80),
                        );
                        assert(0 <= n / 0x80 <= u64::MAX);
                        assert(rest.0 == n / 0x80);
                        assert(n / 0x80 <= (u64::MAX - 127) / 128) by (nonlinear_arith)
                            requires
                                0 <= n <= u64::MAX,
                        ;
                        assert(false);
                    }
                }
            }
            return Err(Error::DecodeError);
        }
        let value = rest.0 * 128 + (b - 128) as u64;
        proof {
            assert forall|n: int|
                0 <= n <= u64::MAX && #[trigger] prefix_at(data@, pos as int, pb_varint(n))
                    implies (value == n && rest.1 == pos + pb_varint(n).len()) by {
                lemma_prefix_first(data@, pos as int, pb_varint(n));
                assert(n >= 0x80);
                assert(pb_varint(n) =~= seq![(n % 0x80 + 0x80) as u8] + pb_varint(n / 0x80));
                crate::decoder::lemma_prefix_split(
                    data@,
                    pos as int,
                    seq![(n % 0x80 + 0x80) as u8],
                    pb_varint(n / 0x80),
                );
                assert(0 <= n / 0x80 <= u64::MAX);
                assert(rest.0 == n / 0x80);
                assert(b == (n % 0x80 + 0x80) as u8);
                assert((n / 0x80) * 128 + (n % 0x80) == n) by (nonlinear_arith)
                    requires
                        n >= 0,
                ;
            }
        }
        Ok((value, rest.1))
    }
}

/// Parses one length-delimited field with the expected key, returning
/// its bytes and the following position.
fn parse_bytes_field(data: &Vec<u8>, pos: usize, field: u32) -> (r: Result<(Vec<u8>, usize), Error>)
    requires
        pos <= data@.len(),
        field < 0x1000_0000,
    ensures
        r matches Ok(p) ==> pos < p.1 <= data@.len(),
        forall|b: Seq<u8>|
            #[trigger] prefix_at(data@, pos as int, pb_bytes(field as int, b)) ==> (r matches Ok(p)
                && p.0@ == b && p.1 == pos + pb_bytes(field as int, b).len()),
    decreases data@.len() - pos, 1int,
{
    let ghost data0 = data@;
    let ghost pos0 = pos as int;
    proof {
        assert forall|b: Seq<u8>|
            #[trigger] prefix_at(data0, pos0, pb_bytes(field as int, b)) implies (prefix_at(
            data0,
            pos0,
            pb_varint(field as int * 8 + 2),
        ) && prefix_at(
            data0,
            pos0 + pb_varint(field as int * 8 + 2).len(),
            pb_varint(b.len() as int) + b,
        )) by {
            assert(pb_bytes(field as int, b) =~= pb_varint(field as int * 8 + 2) + (pb_varint(
                b.len() as int,
            ) + b));
            lemma_prefix_split(
                data0,
                pos0,
                pb_varint(field as int * 8 + 2),
                pb_varint(b.len() as int) + b,
            );
        }
    }
    let key = match parse_varint(data, pos) {
        Ok(k) => k,
        Err(e) => {
            return Err(e);
        },
    };
    if key.0 != field as u64 * 8 + 2 {
        proof {
            assert forall|b: Seq<u8>|
                !prefix_at(data0, pos0, pb_bytes(field as int, b)) by {
                if prefix_at(data0, pos0, pb_bytes(field as int, b)) {
                    assert(false);
                }
            }
        }
        return Err(Error::DecodeError);
    }
    let ghost p1 = key.1 as int;
    proof {
        assert forall|b: Seq<u8>|
            #[trigger] prefix_at(data0, pos0, pb_bytes(field as int, b)) implies (p1 == pos0
            + pb_varint(field as int * 8 + 2).len() && prefix_at(
            data0,
            p1,
            pb_varint(b.len() as int),
        ) && prefix_at(data0, p1 + pb_varint(b.len() as int).len(), b)) by {
            lemma_prefix_split(data0, p1, pb_varint(b.len() as int), b);
        }
    }
    let dlen = data.len();
    let len = match parse_varint(data, key.1) {
        Ok(l) => l,
        Err(e) => {
            proof {
                assert forall|b: Seq<u8>|
                    !prefix_at(data0, pos0, pb_bytes(field as int, b)) by {
                    if prefix_at(data0, pos0, pb_bytes(field as int, b)) {
                        assert(b.len() <= data0.len() <= usize::MAX);
                        assert(false);
                    }
                }
            }
            return Err(e);
        },
    };
    if len.0 > (dlen - len.1) as u64 {
        proof {
            assert forall|b: Seq<u8>|
                !prefix_at(data0, pos0, pb_bytes(field as int, b)) by {
                if prefix_at(data0, pos0, pb_bytes(field as int, b)) {
                    assert(b.len() <= data0.len() <= usize::MAX);
                    assert(len.0 == b.len());
                    assert(false);
                }
            }
        }
        return Err(Error::DecodeError);
    }
    let end = len.1 + len.0 as usize;
    let body = vstd::slice::slice_to_vec(
        vstd::slice::slice_subrange(data.as_slice(), len.1, end),
    );
    proof {
        assert forall|b: Seq<u8>|
            #[trigger] prefix_at(data0, pos0, pb_bytes(field as int, b)) implies (body@ == b && end
            == pos0 + pb_bytes(field as int, b).len()) by {
            assert(b.len() <= data0.len() <= usize::MAX);
            assert(len.0 == b.len());
            assert(body@ =~= b);
        }
    }
    Ok((body, end))
}

/// Parses a `ServerHello`: the oneof field and its three byte fields, in
/// their canonical order, occupying the whole buffer.
pub fn parse_server_hello(data: &Vec<u8>) -> (r: Result<(Vec<u8>, Vec<u8>, Vec<u8>), Error>)
    ensures
        forall|e: Seq<u8>, st: Seq<u8>, pl: Seq<u8>|
            data@ == #[trigger] server_hello_bytes(e, st, pl) ==> (r matches Ok(out) && out.0@ == e
                && out.1@ == st && out.2@ == pl),
{
    let ghost data0 = data@;
    proof {
        assert forall|e: Seq<u8>, st: Seq<u8>, pl: Seq<u8>|
            data0 == #[trigger] server_hello_bytes(e, st, pl) implies prefix_at(
            data0,
            0,
            pb_bytes(3, pb_bytes(1, e) + pb_bytes(2, st) + pb_bytes(3, pl)),
        ) by {
            assert(data0.subrange(0, data0.len() as int) =~= data0);
        }
    }
    let outer = match parse_bytes_field(data, 0, 3) {
        Ok(o) => o,
        Err(e) => {
            return Err(e);
        },
    };
    let inner = outer.0;
    let ghost inner0 = inner@;
    proof {
        assert forall|e: Seq<u8>, st: Seq<u8>, pl: Seq<u8>|
            data0 == #[trigger] server_hello_bytes(e, st, pl) implies (prefix_at(
            inner0,
            0,
            pb_bytes(1, e),
        ) && prefix_at(inner0, pb_bytes(1, e).len() as int, pb_bytes(2, st)) && prefix_at(
            inner0,
            pb_bytes(1, e).len() as int + pb_bytes(2, st).len() as int,
            pb_bytes(3, pl),
        )) by {
            assert(inner0 =~= pb_bytes(1, e) + (pb_bytes(2, st) + pb_bytes(3, pl)));
            assert(inner0.subrange(0, inner0.len() as int) =~= inner0);
            assert(prefix_at(inner0, 0, pb_bytes(1, e) + (pb_bytes(2, st) + pb_bytes(3, pl))));
            lemma_prefix_split(inner0, 0, pb_bytes(1, e), pb_bytes(2, st) + pb_bytes(3, pl));
            lemma_prefix_split(
                inner0,
                pb_bytes(1, e).len() as int,
                pb_bytes(2, st),
                pb_bytes(3, pl),
            );
            assert(inner0.subrange(0, inner0.len() as int) =~= inner0);
        }
    }
    let ephemeral = match parse_bytes_field(&inner, 0, 1) {
        Ok(p) => p,
        Err(e) => {
            return Err(e);
        },
    };
    let statics = match parse_bytes_field(&inner, ephemeral.1, 2) {
        Ok(p) => p,
        Err(e) => {
            return Err(e);
        },
    };
    let payload = match parse_bytes_field(&inner, statics.1, 3) {
        Ok(p) => p,
        Err(e) => {
            return Err(e);
        },
    };
    Ok((ephemeral.0, statics.0, payload.0))
}

} // verus!
