//! Binary XML decoder.
//!
//! Reads the byte image specified in `codec` back into a node tree. The
//! decoder is proved to invert the encoder: on any buffer that starts
//! with the image of a well-formed node it returns exactly that node and
//! consumes exactly its image. Malformed input is reported as
//! `DecodeError`.

use vstd::prelude::*;
use std::io::Read;
use crate::codec::{
    ad_form, enc_attrs, enc_bytes, enc_jid, enc_len_prefix, enc_list_start, enc_node, enc_nodes,
    enc_str, enc_value, fb_form, hex_char, hex_ok, hex_val, interop_form, nib_char, nib_val,
    nibble_ok, node_arity, packable_str, packed_body, packed_len_byte, pair_form, wf_attr_value,
    wf_content, wf_jid, wf_node, wf_nodes, wf_str,
};
use crate::error::Error;
use crate::jid::{JID, JidView};
use crate::node::{attrs_view, lemma_attrs_view, lemma_nodes_view, nodes_view, node_view, value_view, Node, NodeView, Value, ValueView};
use crate::token::{
    double_token_at, single_token_at, spec_double_token_at, spec_double_token_index,
    spec_single_token_at, spec_single_token_index, AD_JID, BINARY_20, BINARY_32, BINARY_8,
    DICTIONARY_0, DICTIONARY_3, FB_JID, HEX_8, INTEROP_JID, JID_PAIR, LIST_16, LIST_8, LIST_EMPTY,
    NIBBLE_8,
};
use crate::wire::{be16_val, spec_be16};

verus! {

broadcast use vstd::std_specs::vec::group_vec_axioms, vstd::seq::group_seq_axioms, vstd::utf8::group_utf8_lib;

/// What zlib inflation of a byte string yields.
pub uninterp spec fn zlib_inflated(b: Seq<u8>) -> Seq<u8>;

/// Relies on flate2::read::ZlibDecoder: inflation is a function of the
/// input bytes alone; malformed input reports an error.
#[verifier::external_body]
pub fn unpack(data: &Vec<u8>) -> (r: Option<Vec<u8>>)
    ensures
        r matches Some(v) ==> v@ == zlib_inflated(data@),
{
    let mut decoder = flate2::read::ZlibDecoder::new(data.as_slice());
    let mut out: Vec<u8> = Vec::new();
    match decoder.read_to_end(&mut out) {
        Ok(_) => Some(out),
        Err(_) => None,
    }
}

/// Relies on String::from_utf8_lossy: on valid UTF-8 it returns exactly
/// the string the bytes encode.
#[verifier::external_body]
pub(crate) fn string_from_bytes(data: &Vec<u8>) -> (r: String)
    ensures
        vstd::utf8::valid_utf8(data@) ==> r@ == vstd::utf8::decode_utf8(data@),
{
    String::from_utf8_lossy(data.as_slice()).into_owned()
}

/// The bytes at `pos` start with `p`.
pub open spec fn prefix_at(data: Seq<u8>, pos: int, p: Seq<u8>) -> bool {
    &&& 0 <= pos
    &&& pos + p.len() <= data.len()
    &&& data.subrange(pos, pos + p.len()) == p
}

/// A prefix made of two parts gives a prefix at each part's position.
pub proof fn lemma_prefix_split(data: Seq<u8>, pos: int, a: Seq<u8>, b: Seq<u8>)
    requires
        prefix_at(data, pos, a + b),
    ensures
        prefix_at(data, pos, a),
        prefix_at(data, pos + a.len(), b),
{
    assert(data.subrange(pos, pos + a.len()) =~= a) by {
        assert forall|i: int| 0 <= i < a.len() implies data.subrange(pos, pos + a.len())[i] == a[i]
        by {
            assert(data.subrange(pos, pos + (a + b).len() as int)[i] == (a + b)[i]);
        }
    }
    assert(data.subrange(pos + a.len(), pos + a.len() + b.len()) =~= b) by {
        assert forall|i: int|
            0 <= i < b.len() implies data.subrange(pos + a.len(), pos + a.len() + b.len())[i]
            == b[i] by {
            assert(data.subrange(pos, pos + (a + b).len() as int)[a.len() + i] == (a + b)[a.len()
                + i]);
        }
    }
}

/// The first byte of a prefix is the byte at its position.
pub proof fn lemma_prefix_first(data: Seq<u8>, pos: int, p: Seq<u8>)
    requires
        prefix_at(data, pos, p),
        p.len() >= 1,
    ensures
        pos < data.len(),
        data[pos] == p[0],
{
    assert(data.subrange(pos, pos + p.len())[0] == p[0]);
}

/// Cursor over one message's bytes.
pub struct BinaryDecoder {
    data: Vec<u8>,
    pos: usize,
}

impl BinaryDecoder {
    /// The bytes being decoded.
    pub closed spec fn spec_data(self) -> Seq<u8> {
        self.data@
    }

    /// The read position.
    pub closed spec fn spec_pos(self) -> int {
        self.pos as int
    }

    /// The position never passes the end.
    pub closed spec fn wf(self) -> bool {
        self.pos <= self.data@.len()
    }

    /// Strips the one-byte flags header; if its second bit is set the
    /// rest is zlib-inflated first. An empty buffer, or one whose
    /// compressed body does not inflate, is malformed.
    pub fn new(buffer: Vec<u8>) -> (r: Result<Self, Error>)
        ensures
            buffer@.len() == 0 ==> r == Err::<Self, Error>(Error::DecodeError),
            buffer@.len() >= 1 && buffer@[0] & 2 == 0 ==> (r matches Ok(d) && d.spec_data()
                == buffer@.skip(1) && d.spec_pos() == 0 && d.wf()),
            buffer@.len() >= 1 && buffer@[0] & 2 != 0 ==> (r matches Ok(d) ==> (d.spec_data()
                == zlib_inflated(buffer@.skip(1)) && d.spec_pos() == 0 && d.wf())),
    {
        if buffer.len() == 0 {
            return Err(Error::DecodeError);
        }
        let token = buffer[0] & 2;
        let rest = vstd::slice::slice_to_vec(
            vstd::slice::slice_subrange(buffer.as_slice(), 1, buffer.len()),
        );
        proof {
            assert(rest@ =~= buffer@.skip(1));
        }
        if token == 0 {
            Ok(BinaryDecoder { data: rest, pos: 0 })
        } else {
            match unpack(&rest) {
                Some(inflated) => Ok(BinaryDecoder { data: inflated, pos: 0 }),
                None => Err(Error::DecodeError),
            }
        }
    }

    /// Reads one byte.
    fn read_u8(&mut self) -> (r: Result<u8, Error>)
        requires
            old(self).wf(),
        ensures
            final(self).wf(),
            final(self).spec_data() == old(self).spec_data(),
            old(self).spec_pos() <= final(self).spec_pos() <= old(self).spec_data().len(),
            old(self).spec_pos() < old(self).spec_data().len() ==> (r matches Ok(b) && b == old(self).spec_data()[old(self).spec_pos()] && final(self).spec_pos() == old(self).spec_pos()
                + 1),
            old(self).spec_pos() >= old(self).spec_data().len() ==> r == Err::<u8, Error>(
                Error::DecodeError,
            ) && *final(self) == *old(self),
        decreases self.data@.len() - self.pos, 0int,
    {
        if self.pos < self.data.len() {
            let b = self.data[self.pos];
            self.pos = self.pos + 1;
            Ok(b)
        } else {
            Err(Error::DecodeError)
        }
    }

    /// Reads the list size that follows a list token: nothing for the
    /// empty list, one byte for the 8-bit form, two big-endian bytes for
    /// the 16-bit form. Any other token is malformed.
    fn read_size(&mut self, token: u8) -> (r: Result<usize, Error>)
        requires
            old(self).wf(),
        ensures
            final(self).wf(),
            final(self).spec_data() == old(self).spec_data(),
            old(self).spec_pos() <= final(self).spec_pos() <= old(self).spec_data().len(),
            token == crate::token::LIST_EMPTY ==> r == Ok::<usize, Error>(0) && *final(self)
                == *old(self),
            token == crate::token::LIST_8 ==> {
                &&& old(self).spec_pos() < old(self).spec_data().len() ==> (r matches Ok(n) && n
                    == old(self).spec_data()[old(self).spec_pos()] && final(self).spec_pos() == old(self).spec_pos() + 1)
                &&& old(self).spec_pos() >= old(self).spec_data().len() ==> r is Err
            },
            token == crate::token::LIST_16 ==> {
                &&& old(self).spec_pos() + 2 <= old(self).spec_data().len() ==> (r matches Ok(n)
                    && n == be16_val(
                    old(self).spec_data().subrange(old(self).spec_pos(), old(self).spec_pos() + 2),
                ) && final(self).spec_pos() == old(self).spec_pos() + 2)
                &&& old(self).spec_pos() + 2 > old(self).spec_data().len() ==> r is Err
            },
            token != crate::token::LIST_EMPTY && token != crate::token::LIST_8 && token
                != crate::token::LIST_16 ==> r == Err::<usize, Error>(Error::DecodeError)
                && *final(self) == *old(self),
        decreases self.data@.len() - self.pos, 0int,
    {
        if token == crate::token::LIST_EMPTY {
            Ok(0)
        } else if token == crate::token::LIST_8 {
            match self.read_u8() {
                Ok(b) => Ok(b as usize),
                Err(e) => Err(e),
            }
        } else if token == crate::token::LIST_16 {
            let b0 = match self.read_u8() {
                Ok(b) => b,
                Err(e) => {
                    return Err(e);
                },
            };
            let b1 = match self.read_u8() {
                Ok(b) => b,
                Err(e) => {
                    return Err(e);
                },
            };
            let n = crate::wire::read_be16(b0, b1) as usize;
            proof {
                assert(seq![b0, b1] =~= old(self).spec_data().subrange(
                    old(self).spec_pos(),
                    old(self).spec_pos() + 2,
                ));
            }
            Ok(n)
        } else {
            Err(Error::DecodeError)
        }
    }

    /// Reads the 20-bit length form: three bytes, the top four bits of
    /// the first masked off.
    fn read_string20_length(&mut self) -> (r: Result<usize, Error>)
        requires
            old(self).wf(),
        ensures
            final(self).wf(),
            final(self).spec_data() == old(self).spec_data(),
            old(self).spec_pos() <= final(self).spec_pos() <= old(self).spec_data().len(),
            old(self).spec_pos() + 3 <= old(self).spec_data().len() ==> (r matches Ok(n) && n
                == ((old(self).spec_data()[old(self).spec_pos()] & 0x0F) as int * 0x10000 + old(self).spec_data()[old(self).spec_pos() + 1] as int * 0x100 + old(self).spec_data()[old(self).spec_pos() + 2] as int) && final(self).spec_pos() == old(self).spec_pos() + 3),
            old(self).spec_pos() + 3 > old(self).spec_data().len() ==> r is Err,
        decreases self.data@.len() - self.pos, 0int,
    {
        let b1 = match self.read_u8() {
            Ok(b) => b,
            Err(e) => {
                return Err(e);
            },
        };
        let b2 = match self.read_u8() {
            Ok(b) => b,
            Err(e) => {
                return Err(e);
            },
        };
        let b3 = match self.read_u8() {
            Ok(b) => b,
            Err(e) => {
                return Err(e);
            },
        };
        Ok(((b1 & 0x0F) as usize) * 0x10000 + (b2 as usize) * 0x100 + (b3 as usize))
    }

    /// Reads `size` raw bytes.
    fn read_chunk(&mut self, size: usize) -> (r: Result<Vec<u8>, Error>)
        requires
            old(self).wf(),
        ensures
            final(self).wf(),
            final(self).spec_data() == old(self).spec_data(),
            old(self).spec_pos() <= final(self).spec_pos() <= old(self).spec_data().len(),
            old(self).spec_pos() + size <= old(self).spec_data().len() ==> (r matches Ok(v) && v@
                == old(self).spec_data().subrange(
                old(self).spec_pos(),
                old(self).spec_pos() + size,
            ) && final(self).spec_pos() == old(self).spec_pos() + size),
            old(self).spec_pos() + size > old(self).spec_data().len() ==> r == Err::<
                Vec<u8>,
                Error,
            >(Error::DecodeError) && *final(self) == *old(self),
        decreases self.data@.len() - self.pos, 0int,
    {
        if size <= self.data.len() - self.pos {
            let chunk = vstd::slice::slice_to_vec(
                vstd::slice::slice_subrange(self.data.as_slice(), self.pos, self.pos + size),
            );
            self.pos = self.pos + size;
            Ok(chunk)
        } else {
            Err(Error::DecodeError)
        }
    }
    /// Reverses a nibble code: digits, `-`, `.`, and the padding code 15,
    /// which maps to a NUL that the caller drops.
    fn unpack_nibble(&mut self, value: u8) -> (r: Result<u8, Error>)
        ensures
            *final(self) == *old(self),
            (r matches Ok(b)) == (spec_unpack_nibble(value) is Some),
            r matches Ok(b) ==> Some(b) == spec_unpack_nibble(value),
        decreases 0int, 0int,
    {
        if value <= 9 {
            Ok(48 + value)
        } else if value == 10 {
            Ok(45)
        } else if value == 11 {
            Ok(46)
        } else if value == 15 {
            Ok(0)
        } else {
            Err(Error::DecodeError)
        }
    }

    /// Reverses a hex code.
    fn unpack_hex(&mut self, value: u8) -> (r: Result<u8, Error>)
        ensures
            *final(self) == *old(self),
            (r matches Ok(b)) == (spec_unpack_hex(value) is Some),
            r matches Ok(b) ==> Some(b) == spec_unpack_hex(value),
        decreases 0int, 0int,
    {
        if value <= 9 {
            Ok(48 + value)
        } else if value <= 15 {
            Ok(65 + value - 10)
        } else {
            Err(Error::DecodeError)
        }
    }

    /// Reverses one 4-bit code under the packed-string token in `tag`.
    fn unpack_byte(&mut self, tag: u8, value: u8) -> (r: Result<u8, Error>)
        requires
            tag == NIBBLE_8 || tag == HEX_8,
        ensures
            *final(self) == *old(self),
            (r matches Ok(b)) == (spec_unpack(tag == HEX_8, value) is Some),
            r matches Ok(b) ==> Some(b) == spec_unpack(tag == HEX_8, value),
        decreases 0int, 1int,
    {
        if tag == NIBBLE_8 {
            self.unpack_nibble(value)
        } else {
            self.unpack_hex(value)
        }
    }

    /// Reads a packed string: a length byte whose low 7 bits count the
    /// packed bytes and whose top bit drops one trailing pad character,
    /// followed by the packed bytes, two 4-bit codes each.
    #[verifier::loop_isolation(false)]
    fn read_packed8(&mut self, tag: u8) -> (r: Result<Value, Error>)
        requires
            old(self).wf(),
            tag == NIBBLE_8 || tag == HEX_8,
        ensures
            final(self).wf(),
            final(self).spec_data() == old(self).spec_data(),
            old(self).spec_pos() <= final(self).spec_pos() <= old(self).spec_data().len(),
            tag == NIBBLE_8 ==> (forall|s: Seq<char>|
                #[trigger] packed_hyp(old(self).spec_data(), old(self).spec_pos(), false, s) ==> (
                r matches Ok(v) && v@ == ValueView::Str(s) && final(self).spec_pos() == old(self).spec_pos() + enc_packed_tail(s, false).len())),
            tag == HEX_8 ==> (forall|s: Seq<char>|
                #[trigger] packed_hyp(old(self).spec_data(), old(self).spec_pos(), true, s) ==> (
                r matches Ok(v) && v@ == ValueView::Str(s) && final(self).spec_pos() == old(self).spec_pos() + enc_packed_tail(s, true).len())),
        decreases self.data@.len() - self.pos, 2int,
    {
        let ghost data0 = old(self).spec_data();
        let ghost pos0 = old(self).spec_pos();
        let ghost hexmode = tag == HEX_8;
        let start_byte = match self.read_u8() {
            Ok(b) => b,
            Err(e) => {
                proof {
                    assert forall|s: Seq<char>| !packed_hyp(data0, pos0, hexmode, s) by {
                        assert(enc_packed_tail(s, hexmode).len() >= 1);
                    }
                }
                return Err(e);
            },
        };
        let count = (start_byte & 127) as usize;
        let packed = match self.read_chunk(count) {
            Ok(p) => p,
            Err(e) => {
                proof {
                    assert forall|s: Seq<char>| !packed_hyp(data0, pos0, hexmode, s) by {
                        if packed_hyp(data0, pos0, hexmode, s) {
                            lemma_prefix_first(data0, pos0, enc_packed_tail(s, hexmode));
                            lemma_packed_len_byte(s.len() as int);
                            assert(count == (s.len() + 1) / 2);
                            assert(enc_packed_tail(s, hexmode).len() == 1 + count);
                            assert(false);
                        }
                    }
                }
                return Err(e);
            },
        };
        let ghost pos_after = self.spec_pos();
        let mut codes: Vec<u8> = Vec::new();
        let mut i: usize = 0;
        while i < count
            invariant
                self.wf(),
                self.spec_data() == data0,
                self.spec_pos() == pos_after,
                count == packed@.len(),
                i <= count,
                codes@.len() == 2 * i,
                tag == NIBBLE_8 || tag == HEX_8,
                forall|k: int|
                    0 <= k < i ==> {
                        &&& spec_unpack(tag == HEX_8, (#[trigger] packed@[k] & 0xF0) >> 4)
                            matches Some(hi) && codes@[2 * k] == hi
                        &&& spec_unpack(tag == HEX_8, packed@[k] & 0x0F) matches Some(lo)
                            && codes@[2 * k + 1] == lo
                    },
            decreases count - i,
        {
            let b = packed[i];
            let hi_r = self.unpack_byte(tag, (b & 0xF0) >> 4);
            let lo_r = self.unpack_byte(tag, b & 0x0F);
            if hi_r.is_err() || lo_r.is_err() {
                proof {
                    assert forall|s: Seq<char>| !packed_hyp(data0, pos0, hexmode, s) by {
                        if packed_hyp(data0, pos0, hexmode, s) {
                            lemma_prefix_first(data0, pos0, enc_packed_tail(s, hexmode));
                            lemma_prefix_split(
                                data0,
                                pos0,
                                seq![packed_len_byte(s.len() as int)],
                                packed_body(s, hexmode),
                            );
                            lemma_packed_len_byte(s.len() as int);
                            assert(packed@ =~= packed_body(s, hexmode));
                            lemma_packed_byte_split(s, hexmode, i as int);
                            lemma_unpack_inverse(hexmode, s[2 * (i as int)]);
                            if 2 * (i as int) + 1 < s.len() {
                                lemma_unpack_inverse(hexmode, s[2 * (i as int) + 1]);
                            }
                            assert(false);
                        }
                    }
                }
                return Err(Error::DecodeError);
            }
            let hi = match hi_r {
                Ok(h) => h,
                Err(_) => {
                    return Err(Error::DecodeError);
                },
            };
            let lo = match lo_r {
                Ok(l) => l,
                Err(_) => {
                    return Err(Error::DecodeError);
                },
            };
            codes.push(hi);
            codes.push(lo);
            i = i + 1;
        }
        if start_byte >= 128 {
            if count == 0 {
                proof {
                    assert forall|s: Seq<char>| !packed_hyp(data0, pos0, hexmode, s) by {
                        if packed_hyp(data0, pos0, hexmode, s) {
                            lemma_prefix_first(data0, pos0, enc_packed_tail(s, hexmode));
                            lemma_packed_len_byte(s.len() as int);
                            assert(false);
                        }
                    }
                }
                return Err(Error::DecodeError);
            }
            codes.truncate(2 * count - 1);
        }
        let out = string_from_bytes(&codes);
        let ghost result_pos = self.spec_pos();
        proof {
            broadcast use vstd::utf8::group_utf8_lib;

            assert forall|s: Seq<char>|
                packed_hyp(data0, pos0, hexmode, s) implies (ValueView::Str(out@)
                == ValueView::Str(s) && result_pos == pos0 + enc_packed_tail(s, hexmode).len()) by {
                let tail = enc_packed_tail(s, hexmode);
                let n = s.len() as int;
                lemma_prefix_split(data0, pos0, seq![packed_len_byte(n)], packed_body(s, hexmode));
                lemma_prefix_first(data0, pos0, seq![packed_len_byte(n)]);
                assert(start_byte == packed_len_byte(n));
                lemma_packed_len_byte(n);
                assert(count == (n + 1) / 2);
                assert((start_byte >= 128) == (n % 2 == 1));
                assert(packed@ =~= packed_body(s, hexmode));
                assert forall|k: int| 0 <= k < n implies codes@[k] == (s[k] as u32) as u8 by {
                    let b = packed_body(s, hexmode)[k / 2];
                    lemma_packed_byte_split(s, hexmode, k / 2);
                    if k % 2 == 0 {
                        lemma_unpack_inverse(hexmode, s[k]);
                        assert(codes@[2 * (k / 2)] == (s[k] as u32) as u8);
                    } else {
                        lemma_unpack_inverse(hexmode, s[k]);
                        assert(codes@[2 * (k / 2) + 1] == (s[k] as u32) as u8);
                    }
                }
                assert(codes@.len() == n);
                lemma_ascii_codes_decode(s, codes@);
                assert(out@ == s);
            }
        }
        Ok(Value::Str(out))
    }

    /// Reads `size` raw bytes as a value: a string in attribute position,
    /// raw bytes in content position.
    fn read_binary(&mut self, size: usize, parse_bytes: bool) -> (r: Result<Value, Error>)
        requires
            old(self).wf(),
        ensures
            final(self).wf(),
            final(self).spec_data() == old(self).spec_data(),
            old(self).spec_pos() <= final(self).spec_pos() <= old(self).spec_data().len(),
            old(self).spec_pos() + size <= old(self).spec_data().len() ==> ({
                let chunk = old(self).spec_data().subrange(
                    old(self).spec_pos(),
                    old(self).spec_pos() + size,
                );
                &&& r is Ok
                &&& final(self).spec_pos() == old(self).spec_pos() + size
                &&& !parse_bytes ==> r.unwrap()@ == ValueView::Bytes(chunk)
                &&& (parse_bytes && vstd::utf8::valid_utf8(chunk)) ==> r.unwrap()@
                    == ValueView::Str(vstd::utf8::decode_utf8(chunk))
                &&& parse_bytes ==> r.unwrap() is Str
            }),
            old(self).spec_pos() + size > old(self).spec_data().len() ==> r is Err && *final(self)
                == *old(self),
        decreases self.data@.len() - self.pos, 1int,
    {
        let chunk = match self.read_chunk(size) {
            Ok(c) => c,
            Err(e) => {
                return Err(e);
            },
        };
        if parse_bytes {
            Ok(Value::Str(string_from_bytes(&chunk)))
        } else {
            Ok(Value::Bytes(chunk))
        }
    }

    /// Resolves a dictionary token: a single-byte index directly, or a
    /// row token followed by the index within the row. An unassigned
    /// index is malformed.
    fn read_string_from_token(&mut self, tag: u8) -> (r: Result<Value, Error>)
        requires
            old(self).wf(),
        ensures
            final(self).wf(),
            final(self).spec_data() == old(self).spec_data(),
            old(self).spec_pos() <= final(self).spec_pos() <= old(self).spec_data().len(),
            (tag < DICTIONARY_0 || tag > DICTIONARY_3) ==> {
                &&& spec_single_token_at(tag) matches Some(s) ==> (r matches Ok(v) && v@
                    == ValueView::Str(s) && *final(self) == *old(self))
                &&& spec_single_token_at(tag) is None ==> r == Err::<Value, Error>(
                    Error::DecodeError,
                ) && *final(self) == *old(self)
            },
            (DICTIONARY_0 <= tag <= DICTIONARY_3 && old(self).spec_pos() < old(self).spec_data().len()) ==> ({
                let index = old(self).spec_data()[old(self).spec_pos()];
                &&& spec_double_token_at((tag - DICTIONARY_0) as u8, index) matches Some(s) ==> (
                r matches Ok(v) && v@ == ValueView::Str(s) && final(self).spec_pos() == old(self).spec_pos() + 1)
                &&& spec_double_token_at((tag - DICTIONARY_0) as u8, index) is None ==> r is Err
            }),
            (DICTIONARY_0 <= tag <= DICTIONARY_3 && old(self).spec_pos() >= old(self).spec_data().len()) ==> r is Err,
        decreases self.data@.len() - self.pos, 1int,
    {
        if tag < DICTIONARY_0 || tag > DICTIONARY_3 {
            match crate::token::single_token_at(tag) {
                Some(s) => Ok(Value::Str(s)),
                None => Err(Error::DecodeError),
            }
        } else {
            let index = match self.read_u8() {
                Ok(b) => b,
                Err(e) => {
                    return Err(e);
                },
            };
            match crate::token::double_token_at(tag - DICTIONARY_0, index) {
                Some(s) => Ok(Value::Str(s)),
                None => Err(Error::DecodeError),
            }
        }
    }

    /// Reads the `user` and `server` strings of a plain identifier pair;
    /// an empty string stands for an absent part.
    fn read_jid_pair(&mut self) -> (r: Result<Value, Error>)
        requires
            old(self).wf(),
        ensures
            final(self).wf(),
            final(self).spec_data() == old(self).spec_data(),
            old(self).spec_pos() <= final(self).spec_pos() <= old(self).spec_data().len(),
            forall|j: JidView|
                #[trigger] pair_jid_hyp(old(self).spec_data(), old(self).spec_pos(), j) ==> (
                r matches Ok(out) && out@ == ValueView::Jid(j) && final(self).spec_pos() == old(self).spec_pos() + enc_jid(j).len() - 1),
        decreases self.data@.len() - self.pos, 3int,
    {
        let ghost data0 = old(self).spec_data();
        let ghost pos0 = old(self).spec_pos();
        let user = match self.read_string() {
            Ok(u) => u,
            Err(e) => {
                proof {
                    assert forall|j: JidView| !pair_jid_hyp(data0, pos0, j) by {
                        if pair_jid_hyp(data0, pos0, j) {
                            lemma_pair_parts(data0, pos0, j);
                            assert(false);
                        }
                    }
                }
                return Err(e);
            },
        };
        let ghost pos1 = self.spec_pos();
        let server = match self.read_string() {
            Ok(sv) => sv,
            Err(e) => {
                proof {
                    assert forall|j: JidView| !pair_jid_hyp(data0, pos0, j) by {
                        if pair_jid_hyp(data0, pos0, j) {
                            lemma_pair_parts(data0, pos0, j);
                            assert(false);
                        }
                    }
                }
                return Err(e);
            },
        };
        let user_opt: Option<String> = if user.as_str().is_empty() {
            None
        } else {
            Some(user)
        };
        let server_opt: Option<String> = if server.as_str().is_empty() {
            None
        } else {
            Some(server)
        };
        let out = JID {
            user: user_opt,
            raw_agent: None,
            device: None,
            integrator: None,
            server: server_opt,
        };
        proof {
            assert forall|j: JidView| #[trigger] pair_jid_hyp(data0, pos0, j) implies (
            ValueView::Jid(out@) == ValueView::Jid(j) && self.spec_pos() == pos0 + enc_jid(
                j,
            ).len() - 1) by {
                lemma_pair_parts(data0, pos0, j);
            }
        }
        Ok(Value::Jid(out))
    }

    /// Reads an agent-addressed identifier: the agent byte names the
    /// server, the device byte and the user string follow.
    fn read_ad_jid(&mut self) -> (r: Result<Value, Error>)
        requires
            old(self).wf(),
        ensures
            final(self).wf(),
            final(self).spec_data() == old(self).spec_data(),
            old(self).spec_pos() <= final(self).spec_pos() <= old(self).spec_data().len(),
            forall|j: JidView|
                #[trigger] ad_jid_hyp(old(self).spec_data(), old(self).spec_pos(), j) ==> (
                r matches Ok(out) && out@ == ValueView::Jid(j) && final(self).spec_pos() == old(self).spec_pos() + enc_jid(j).len() - 1),
        decreases self.data@.len() - self.pos, 3int,
    {
        let ghost data0 = old(self).spec_data();
        let ghost pos0 = old(self).spec_pos();
        let agent = match self.read_u8() {
            Ok(b) => b,
            Err(e) => {
                proof {
                    assert forall|j: JidView| !ad_jid_hyp(data0, pos0, j) by {
                        if ad_jid_hyp(data0, pos0, j) {
                            lemma_ad_parts(data0, pos0, j);
                            assert(false);
                        }
                    }
                }
                return Err(e);
            },
        };
        let device = match self.read_u8() {
            Ok(b) => b,
            Err(e) => {
                proof {
                    assert forall|j: JidView| !ad_jid_hyp(data0, pos0, j) by {
                        if ad_jid_hyp(data0, pos0, j) {
                            lemma_ad_parts(data0, pos0, j);
                            assert(false);
                        }
                    }
                }
                return Err(e);
            },
        };
        let user = match self.read_string() {
            Ok(u) => u,
            Err(e) => {
                proof {
                    assert forall|j: JidView| !ad_jid_hyp(data0, pos0, j) by {
                        if ad_jid_hyp(data0, pos0, j) {
                            lemma_ad_parts(data0, pos0, j);
                            assert(false);
                        }
                    }
                }
                return Err(e);
            },
        };
        let server: String = if agent == 0 {
            String::from_str("s.whatsapp.net")
        } else if agent == 1 {
            String::from_str("lid")
        } else if agent == 2 {
            String::from_str("hosted")
        } else {
            proof {
                assert forall|j: JidView| !ad_jid_hyp(data0, pos0, j) by {
                    if ad_jid_hyp(data0, pos0, j) {
                        lemma_ad_parts(data0, pos0, j);
                        assert(false);
                    }
                }
            }
            return Err(Error::DecodeError);
        };
        let out = JID {
            user: Some(user),
            raw_agent: Some(agent),
            device: Some(device as u16),
            integrator: None,
            server: Some(server),
        };
        proof {
            assert forall|j: JidView| #[trigger] ad_jid_hyp(data0, pos0, j) implies (
            ValueView::Jid(out@) == ValueView::Jid(j) && self.spec_pos() == pos0 + enc_jid(
                j,
            ).len() - 1) by {
                lemma_ad_parts(data0, pos0, j);
            }
        }
        Ok(Value::Jid(out))
    }

    /// Reads a `msgr` identifier: user, 16-bit device, server.
    fn read_fb_jid(&mut self) -> (r: Result<Value, Error>)
        requires
            old(self).wf(),
        ensures
            final(self).wf(),
            final(self).spec_data() == old(self).spec_data(),
            old(self).spec_pos() <= final(self).spec_pos() <= old(self).spec_data().len(),
            forall|j: JidView|
                #[trigger] fb_jid_hyp(old(self).spec_data(), old(self).spec_pos(), j) ==> (
                r matches Ok(out) && out@ == ValueView::Jid(j) && final(self).spec_pos() == old(self).spec_pos() + enc_jid(j).len() - 1),
        decreases self.data@.len() - self.pos, 3int,
    {
        let ghost data0 = old(self).spec_data();
        let ghost pos0 = old(self).spec_pos();
        let user = match self.read_string() {
            Ok(u) => u,
            Err(e) => {
                proof {
                    assert forall|j: JidView| !fb_jid_hyp(data0, pos0, j) by {
                        if fb_jid_hyp(data0, pos0, j) {
                            lemma_fb_parts(data0, pos0, j);
                            assert(false);
                        }
                    }
                }
                return Err(e);
            },
        };
        let b0 = match self.read_u8() {
            Ok(b) => b,
            Err(e) => {
                proof {
                    assert forall|j: JidView| !fb_jid_hyp(data0, pos0, j) by {
                        if fb_jid_hyp(data0, pos0, j) {
                            lemma_fb_parts(data0, pos0, j);
                            assert(false);
                        }
                    }
                }
                return Err(e);
            },
        };
        let b1 = match self.read_u8() {
            Ok(b) => b,
            Err(e) => {
                proof {
                    assert forall|j: JidView| !fb_jid_hyp(data0, pos0, j) by {
                        if fb_jid_hyp(data0, pos0, j) {
                            lemma_fb_parts(data0, pos0, j);
                            assert(false);
                        }
                    }
                }
                return Err(e);
            },
        };
        let device = crate::wire::read_be16(b0, b1);
        let server = match self.read_string() {
            Ok(sv) => sv,
            Err(e) => {
                proof {
                    assert forall|j: JidView| !fb_jid_hyp(data0, pos0, j) by {
                        if fb_jid_hyp(data0, pos0, j) {
                            lemma_fb_parts(data0, pos0, j);
                            assert(false);
                        }
                    }
                }
                return Err(e);
            },
        };
        let out = JID {
            user: Some(user),
            raw_agent: None,
            device: Some(device),
            integrator: None,
            server: Some(server),
        };
        proof {
            assert forall|j: JidView| #[trigger] fb_jid_hyp(data0, pos0, j) implies (
            ValueView::Jid(out@) == ValueView::Jid(j) && self.spec_pos() == pos0 + enc_jid(
                j,
            ).len() - 1) by {
                lemma_fb_parts(data0, pos0, j);
                crate::wire::lemma_be16_roundtrip(j.device.unwrap() as int);
                assert(seq![b0, b1] =~= spec_be16(j.device.unwrap() as int));
            }
        }
        Ok(Value::Jid(out))
    }

    /// Reads an `interop` identifier: user, 16-bit device, 16-bit
    /// integrator, server.
    fn read_interop_jid(&mut self) -> (r: Result<Value, Error>)
        requires
            old(self).wf(),
        ensures
            final(self).wf(),
            final(self).spec_data() == old(self).spec_data(),
            old(self).spec_pos() <= final(self).spec_pos() <= old(self).spec_data().len(),
            forall|j: JidView|
                #[trigger] interop_jid_hyp(old(self).spec_data(), old(self).spec_pos(), j) ==> (
                r matches Ok(out) && out@ == ValueView::Jid(j) && final(self).spec_pos() == old(self).spec_pos() + enc_jid(j).len() - 1),
        decreases self.data@.len() - self.pos, 3int,
    {
        let ghost data0 = old(self).spec_data();
        let ghost pos0 = old(self).spec_pos();
        let user = match self.read_string() {
            Ok(u) => u,
            Err(e) => {
                proof {
                    assert forall|j: JidView| !interop_jid_hyp(data0, pos0, j) by {
                        if interop_jid_hyp(data0, pos0, j) {
                            lemma_interop_parts(data0, pos0, j);
                            assert(false);
                        }
                    }
                }
                return Err(e);
            },
        };
        let b0 = match self.read_u8() {
            Ok(b) => b,
            Err(e) => {
                proof {
                    assert forall|j: JidView| !interop_jid_hyp(data0, pos0, j) by {
                        if interop_jid_hyp(data0, pos0, j) {
                            lemma_interop_parts(data0, pos0, j);
                            assert(false);
                        }
                    }
                }
                return Err(e);
            },
        };
        let b1 = match self.read_u8() {
            Ok(b) => b,
            Err(e) => {
                proof {
                    assert forall|j: JidView| !interop_jid_hyp(data0, pos0, j) by {
                        if interop_jid_hyp(data0, pos0, j) {
                            lemma_interop_parts(data0, pos0, j);
                            assert(false);
                        }
                    }
                }
                return Err(e);
            },
        };
        let b2 = match self.read_u8() {
            Ok(b) => b,
            Err(e) => {
                proof {
                    assert forall|j: JidView| !interop_jid_hyp(data0, pos0, j) by {
                        if interop_jid_hyp(data0, pos0, j) {
                            lemma_interop_parts(data0, pos0, j);
                            assert(false);
                        }
                    }
                }
                return Err(e);
            },
        };
        let b3 = match self.read_u8() {
            Ok(b) => b,
            Err(e) => {
                proof {
                    assert forall|j: JidView| !interop_jid_hyp(data0, pos0, j) by {
                        if interop_jid_hyp(data0, pos0, j) {
                            lemma_interop_parts(data0, pos0, j);
                            assert(false);
                        }
                    }
                }
                return Err(e);
            },
        };
        let device = crate::wire::read_be16(b0, b1);
        let integrator = crate::wire::read_be16(b2, b3);
        let server = match self.read_string() {
            Ok(sv) => sv,
            Err(e) => {
                proof {
                    assert forall|j: JidView| !interop_jid_hyp(data0, pos0, j) by {
                        if interop_jid_hyp(data0, pos0, j) {
                            lemma_interop_parts(data0, pos0, j);
                            assert(false);
                        }
                    }
                }
                return Err(e);
            },
        };
        let out = JID {
            user: Some(user),
            raw_agent: None,
            device: Some(device),
            integrator: Some(integrator),
            server: Some(server),
        };
        proof {
            assert forall|j: JidView| #[trigger] interop_jid_hyp(data0, pos0, j) implies (
            ValueView::Jid(out@) == ValueView::Jid(j) && self.spec_pos() == pos0 + enc_jid(
                j,
            ).len() - 1) by {
                lemma_interop_parts(data0, pos0, j);
                crate::wire::lemma_be16_roundtrip(j.device.unwrap() as int);
                crate::wire::lemma_be16_roundtrip(j.integrator.unwrap() as int);
                assert(seq![b0, b1] =~= spec_be16(j.device.unwrap() as int));
                assert(seq![b2, b3] =~= spec_be16(j.integrator.unwrap() as int));
            }
        }
        Ok(Value::Jid(out))
    }

    /// Reads one string value: a dictionary, packed, or raw form, or the
    /// empty-list token standing for the empty string.
    fn read_string(&mut self) -> (r: Result<String, Error>)
        requires
            old(self).wf(),
        ensures
            final(self).wf(),
            final(self).spec_data() == old(self).spec_data(),
            old(self).spec_pos() <= final(self).spec_pos() <= old(self).spec_data().len(),
            r is Ok ==> final(self).spec_pos() > old(self).spec_pos(),
            forall|s: Seq<char>|
                #[trigger] str_hyp(old(self).spec_data(), old(self).spec_pos(), s) ==> (
                r matches Ok(out) && out@ == s && final(self).spec_pos() == old(self).spec_pos()
                    + enc_str(s).len()),
            (old(self).spec_pos() < old(self).spec_data().len() && old(self).spec_data()[old(self).spec_pos()] == LIST_EMPTY) ==> (r matches Ok(out) && out@ == Seq::<char>::empty()
                && final(self).spec_pos() == old(self).spec_pos() + 1),
        decreases self.data@.len() - self.pos, 2int,
    {
        let ghost data0 = old(self).spec_data();
        let ghost pos0 = old(self).spec_pos();
        let v = match self.read(true) {
            Ok(v) => v,
            Err(e) => {
                proof {
                    assert forall|s: Seq<char>| !str_hyp(data0, pos0, s) by {
                        if str_hyp(data0, pos0, s) {
                            assert(value_hyp(data0, pos0, true, ValueView::Str(s)));
                            assert(false);
                        }
                    }
                }
                return Err(e);
            },
        };
        match v {
            Value::Str(out) => {
                proof {
                    assert forall|s: Seq<char>|
                        #[trigger] str_hyp(data0, pos0, s) implies (out@ == s && self.spec_pos()
                        == pos0 + enc_str(s).len()) by {
                        assert(value_hyp(data0, pos0, true, ValueView::Str(s)));
                    }
                }
                Ok(out)
            },
            Value::Null => {
                let out = String::new();
                proof {
                    assert forall|s: Seq<char>|
                        #[trigger] str_hyp(data0, pos0, s) implies (out@ == s && self.spec_pos()
                        == pos0 + enc_str(s).len()) by {
                        assert(value_hyp(data0, pos0, true, ValueView::Str(s)));
                    }
                }
                Ok(out)
            },
            _ => {
                proof {
                    assert forall|s: Seq<char>| !str_hyp(data0, pos0, s) by {
                        if str_hyp(data0, pos0, s) {
                            assert(value_hyp(data0, pos0, true, ValueView::Str(s)));
                            assert(false);
                        }
                    }
                }
                Err(Error::DecodeError)
            },
        }
    }

    /// Reads one value; in attribute position (`parse_bytes`) raw byte
    /// strings decode as strings, in content position as bytes.
    pub(crate) fn read(&mut self, parse_bytes: bool) -> (r: Result<Value, Error>)
        requires
            old(self).wf(),
        ensures
            final(self).wf(),
            final(self).spec_data() == old(self).spec_data(),
            old(self).spec_pos() <= final(self).spec_pos() <= old(self).spec_data().len(),
            r is Ok ==> final(self).spec_pos() > old(self).spec_pos(),
            (old(self).spec_pos() < old(self).spec_data().len() && old(self).spec_data()[old(self).spec_pos()] == LIST_EMPTY) ==> (r matches Ok(v) && v@ == ValueView::Null && final(self).spec_pos() == old(self).spec_pos() + 1),
            forall|v: ValueView|
                #[trigger] value_hyp(old(self).spec_data(), old(self).spec_pos(), parse_bytes, v)
                    ==> (r matches Ok(out) && out@ == v && final(self).spec_pos() == old(self).spec_pos() + enc_value(v).len()),
        decreases self.spec_data().len() - self.spec_pos(), 1int,
    {
        let ghost data0 = old(self).spec_data();
        let ghost pos0 = old(self).spec_pos();
        let tag = match self.read_u8() {
            Ok(b) => b,
            Err(e) => {
                proof {
                    assert forall|v: ValueView| !value_hyp(data0, pos0, parse_bytes, v) by {
                        if value_hyp(data0, pos0, parse_bytes, v) {
                            lemma_value_shape(v, parse_bytes);
                            lemma_prefix_first(data0, pos0, enc_value(v));
                            assert(false);
                        }
                    }
                }
                return Err(e);
            },
        };
        if tag == LIST_EMPTY {
            proof {
                assert forall|v: ValueView| !value_hyp(data0, pos0, parse_bytes, v) by {
                    if value_hyp(data0, pos0, parse_bytes, v) {
                        lemma_read_dispatch(data0, pos0, parse_bytes, v, tag);
                    }
                }
            }
            return Ok(Value::Null);
        }
        if tag == JID_PAIR {
            let res = self.read_jid_pair();
            proof {
                assert forall|v: ValueView|
                    #[trigger] value_hyp(data0, pos0, parse_bytes, v) implies (res matches Ok(out)
                    && out@ == v && self.spec_pos() == pos0 + enc_value(v).len()) by {
                    lemma_read_dispatch(data0, pos0, parse_bytes, v, tag);
                }
            }
            return res;
        }
        if tag == AD_JID {
            let res = self.read_ad_jid();
            proof {
                assert forall|v: ValueView|
                    #[trigger] value_hyp(data0, pos0, parse_bytes, v) implies (res matches Ok(out)
                    && out@ == v && self.spec_pos() == pos0 + enc_value(v).len()) by {
                    lemma_read_dispatch(data0, pos0, parse_bytes, v, tag);
                }
            }
            return res;
        }
        if tag == FB_JID {
            let res = self.read_fb_jid();
            proof {
                assert forall|v: ValueView|
                    #[trigger] value_hyp(data0, pos0, parse_bytes, v) implies (res matches Ok(out)
                    && out@ == v && self.spec_pos() == pos0 + enc_value(v).len()) by {
                    lemma_read_dispatch(data0, pos0, parse_bytes, v, tag);
                }
            }
            return res;
        }
        if tag == INTEROP_JID {
            let res = self.read_interop_jid();
            proof {
                assert forall|v: ValueView|
                    #[trigger] value_hyp(data0, pos0, parse_bytes, v) implies (res matches Ok(out)
                    && out@ == v && self.spec_pos() == pos0 + enc_value(v).len()) by {
                    lemma_read_dispatch(data0, pos0, parse_bytes, v, tag);
                }
            }
            return res;
        }
        if tag == LIST_8 {
            let size = match self.read_u8() {
                Ok(b) => b as usize,
                Err(e) => {
                    proof {
                        assert forall|v: ValueView| !value_hyp(data0, pos0, parse_bytes, v) by {
                            if value_hyp(data0, pos0, parse_bytes, v) {
                                lemma_read_dispatch(data0, pos0, parse_bytes, v, tag);
                            }
                        }
                    }
                    return Err(e);
                },
            };
            let res = self.read_list(size);
            proof {
                assert forall|v: ValueView|
                    #[trigger] value_hyp(data0, pos0, parse_bytes, v) implies (res matches Ok(out)
                    && out@ == v && self.spec_pos() == pos0 + enc_value(v).len()) by {
                    lemma_read_dispatch(data0, pos0, parse_bytes, v, tag);
                }
            }
            return res;
        }
        if tag == LIST_16 {
            let b0 = match self.read_u8() {
                Ok(b) => b,
                Err(e) => {
                    proof {
                        assert forall|v: ValueView| !value_hyp(data0, pos0, parse_bytes, v) by {
                            if value_hyp(data0, pos0, parse_bytes, v) {
                                lemma_read_dispatch(data0, pos0, parse_bytes, v, tag);
                            }
                        }
                    }
                    return Err(e);
                },
            };
            let b1 = match self.read_u8() {
                Ok(b) => b,
                Err(e) => {
                    proof {
                        assert forall|v: ValueView| !value_hyp(data0, pos0, parse_bytes, v) by {
                            if value_hyp(data0, pos0, parse_bytes, v) {
                                lemma_read_dispatch(data0, pos0, parse_bytes, v, tag);
                            }
                        }
                    }
                    return Err(e);
                },
            };
            let size = crate::wire::read_be16(b0, b1) as usize;
            let res = self.read_list(size);
            proof {
                assert forall|v: ValueView|
                    #[trigger] value_hyp(data0, pos0, parse_bytes, v) implies (res matches Ok(out)
                    && out@ == v && self.spec_pos() == pos0 + enc_value(v).len()) by {
                    lemma_read_dispatch(data0, pos0, parse_bytes, v, tag);
                    assert(seq![b0, b1] =~= data0.subrange(pos0 + 1, pos0 + 3));
                }
            }
            return res;
        }
        if tag == BINARY_8 {
            let size = match self.read_u8() {
                Ok(b) => b as usize,
                Err(e) => {
                    proof {
                        assert forall|v: ValueView| !value_hyp(data0, pos0, parse_bytes, v) by {
                            if value_hyp(data0, pos0, parse_bytes, v) {
                                lemma_read_dispatch(data0, pos0, parse_bytes, v, tag);
                            }
                        }
                    }
                    return Err(e);
                },
            };
            let res = self.read_binary(size, parse_bytes);
            proof {
                assert forall|v: ValueView|
                    #[trigger] value_hyp(data0, pos0, parse_bytes, v) implies (res matches Ok(out)
                    && out@ == v && self.spec_pos() == pos0 + enc_value(v).len()) by {
                    lemma_read_dispatch(data0, pos0, parse_bytes, v, tag);
                }
            }
            return res;
        }
        if tag == BINARY_20 {
            let size = match self.read_string20_length() {
                Ok(n) => n,
                Err(e) => {
                    proof {
                        assert forall|v: ValueView| !value_hyp(data0, pos0, parse_bytes, v) by {
                            if value_hyp(data0, pos0, parse_bytes, v) {
                                lemma_read_dispatch(data0, pos0, parse_bytes, v, tag);
                            }
                        }
                    }
                    return Err(e);
                },
            };
            let res = self.read_binary(size, parse_bytes);
            proof {
                assert forall|v: ValueView|
                    #[trigger] value_hyp(data0, pos0, parse_bytes, v) implies (res matches Ok(out)
                    && out@ == v && self.spec_pos() == pos0 + enc_value(v).len()) by {
                    lemma_read_dispatch(data0, pos0, parse_bytes, v, tag);
                }
            }
            return res;
        }
        if tag == BINARY_32 {
            let b0 = match self.read_u8() {
                Ok(b) => b,
                Err(e) => {
                    proof {
                        assert forall|v: ValueView| !value_hyp(data0, pos0, parse_bytes, v) by {
                            if value_hyp(data0, pos0, parse_bytes, v) {
                                lemma_read_dispatch(data0, pos0, parse_bytes, v, tag);
                            }
                        }
                    }
                    return Err(e);
                },
            };
            let b1 = match self.read_u8() {
                Ok(b) => b,
                Err(e) => {
                    proof {
                        assert forall|v: ValueView| !value_hyp(data0, pos0, parse_bytes, v) by {
                            if value_hyp(data0, pos0, parse_bytes, v) {
                                lemma_read_dispatch(data0, pos0, parse_bytes, v, tag);
                            }
                        }
                    }
                    return Err(e);
                },
            };
            let b2 = match self.read_u8() {
                Ok(b) => b,
                Err(e) => {
                    proof {
                        assert forall|v: ValueView| !value_hyp(data0, pos0, parse_bytes, v) by {
                            if value_hyp(data0, pos0, parse_bytes, v) {
                                lemma_read_dispatch(data0, pos0, parse_bytes, v, tag);
                            }
                        }
                    }
                    return Err(e);
                },
            };
            let b3 = match self.read_u8() {
                Ok(b) => b,
                Err(e) => {
                    proof {
                        assert forall|v: ValueView| !value_hyp(data0, pos0, parse_bytes, v) by {
                            if value_hyp(data0, pos0, parse_bytes, v) {
                                lemma_read_dispatch(data0, pos0, parse_bytes, v, tag);
                            }
                        }
                    }
                    return Err(e);
                },
            };
            let size32 = crate::wire::read_be32(b0, b1, b2, b3);
            let res = self.read_binary(size32 as usize, parse_bytes);
            proof {
                assert forall|v: ValueView|
                    #[trigger] value_hyp(data0, pos0, parse_bytes, v) implies (res matches Ok(out)
                    && out@ == v && self.spec_pos() == pos0 + enc_value(v).len()) by {
                    lemma_read_dispatch(data0, pos0, parse_bytes, v, tag);
                    assert(seq![b0, b1, b2, b3] =~= data0.subrange(pos0 + 1, pos0 + 5));
                }
            }
            return res;
        }
        if tag == NIBBLE_8 || tag == HEX_8 {
            let res = self.read_packed8(tag);
            proof {
                assert forall|v: ValueView|
                    #[trigger] value_hyp(data0, pos0, parse_bytes, v) implies (res matches Ok(out)
                    && out@ == v && self.spec_pos() == pos0 + enc_value(v).len()) by {
                    lemma_read_dispatch(data0, pos0, parse_bytes, v, tag);
                }
            }
            return res;
        }
        let res = self.read_string_from_token(tag);
        proof {
            assert forall|v: ValueView|
                #[trigger] value_hyp(data0, pos0, parse_bytes, v) implies (res matches Ok(out)
                && out@ == v && self.spec_pos() == pos0 + enc_value(v).len()) by {
                lemma_read_dispatch(data0, pos0, parse_bytes, v, tag);
            }
        }
        match res {
            Ok(out) => Ok(out),
            Err(e) => Err(e),
        }
    }

    /// Reads `size` nodes of a list value.
    #[verifier::loop_isolation(false)]
    fn read_list(&mut self, size: usize) -> (r: Result<Value, Error>)
        requires
            old(self).wf(),
        ensures
            final(self).wf(),
            final(self).spec_data() == old(self).spec_data(),
            old(self).spec_pos() <= final(self).spec_pos() <= old(self).spec_data().len(),
            forall|ns: Seq<NodeView>|
                #[trigger] nodes_hyp(old(self).spec_data(), old(self).spec_pos(), size as int, ns)
                    ==> (r matches Ok(out) && out@ == ValueView::List(ns) && final(self).spec_pos()
                    == old(self).spec_pos() + enc_nodes(ns).len()),
        decreases self.data@.len() - self.pos, 6int,
    {
        let ghost data0 = old(self).spec_data();
        let ghost pos0 = old(self).spec_pos();
        let mut list: Vec<Node> = Vec::new();
        let mut i: usize = 0;
        while i < size
            invariant
                self.wf(),
                self.spec_data() == data0,
                self.spec_pos() >= pos0,
                i <= size,
                list@.len() == i,
                forall|ns: Seq<NodeView>|
                    #[trigger] nodes_hyp(data0, pos0, size as int, ns) ==> (nodes_view(list@)
                        == ns.take(i as int) && self.spec_pos() == pos0 + enc_nodes(
                        ns.take(i as int),
                    ).len()),
            decreases size - i,
        {
            let ghost cur = self.spec_pos();
            let nd = match self.decode() {
                Ok(n) => n,
                Err(e) => {
                    proof {
                        assert forall|ns: Seq<NodeView>| !nodes_hyp(data0, pos0, size as int, ns)
                        by {
                            if nodes_hyp(data0, pos0, size as int, ns) {
                                lemma_nodes_step(data0, pos0, size as int, ns, i as int, cur);
                                assert(false);
                            }
                        }
                    }
                    return Err(e);
                },
            };
            let ghost prev = list@;
            list.push(nd);
            proof {
                assert forall|ns: Seq<NodeView>|
                    #[trigger] nodes_hyp(data0, pos0, size as int, ns) implies (nodes_view(list@)
                    == ns.take(i + 1) && self.spec_pos() == pos0 + enc_nodes(
                    ns.take(i + 1),
                ).len()) by {
                    lemma_nodes_step(data0, pos0, size as int, ns, i as int, cur);
                    crate::node::lemma_nodes_view_push(prev, nd);
                    assert(ns.take(i + 1) =~= ns.take(i as int).push(ns[i as int]));
                    assert(nodes_view(list@) =~= ns.take(i + 1));
                }
            }
            i = i + 1;
        }
        proof {
            assert forall|ns: Seq<NodeView>|
                #[trigger] nodes_hyp(data0, pos0, size as int, ns) implies (nodes_view(list@) == ns
                && self.spec_pos() == pos0 + enc_nodes(ns).len()) by {
                assert(ns.take(size as int) =~= ns);
            }
        }
        Ok(Value::List(list))
    }

    /// Reads the attribute entries of a node with the given tuple arity,
    /// applying the `lid` context rule to each value.
    #[verifier::loop_isolation(false)]
    fn read_attributes(&mut self, size: usize) -> (r: Result<Vec<(String, Value)>, Error>)
        requires
            old(self).wf(),
            size >= 1,
        ensures
            final(self).wf(),
            final(self).spec_data() == old(self).spec_data(),
            old(self).spec_pos() <= final(self).spec_pos() <= old(self).spec_data().len(),
            forall|attrs: Seq<(Seq<char>, ValueView)>|
                #[trigger] attrs_hyp(
                    old(self).spec_data(),
                    old(self).spec_pos(),
                    ((size - 1) / 2) as int,
                    attrs,
                ) ==> (r matches Ok(out) && attrs_view(out@) == attrs && final(self).spec_pos()
                    == old(self).spec_pos() + enc_attrs(attrs).len()),
        decreases self.data@.len() - self.pos, 4int,
    {
        let ghost data0 = old(self).spec_data();
        let ghost pos0 = old(self).spec_pos();
        let count = (size - 1) / 2;
        let mut out: Vec<(String, Value)> = Vec::new();
        let mut i: usize = 0;
        while i < count
            invariant
                self.wf(),
                self.spec_data() == data0,
                self.spec_pos() >= pos0,
                i <= count,
                out@.len() == i,
                forall|attrs: Seq<(Seq<char>, ValueView)>|
                    #[trigger] attrs_hyp(data0, pos0, count as int, attrs) ==> (attrs_view(out@)
                        == attrs.take(i as int) && self.spec_pos() == pos0 + enc_attrs(
                        attrs.take(i as int),
                    ).len()),
            decreases count - i,
        {
            let ghost cur = self.spec_pos();
            let key = match self.read_string() {
                Ok(k) => k,
                Err(e) => {
                    proof {
                        assert forall|attrs: Seq<(Seq<char>, ValueView)>|
                            !attrs_hyp(data0, pos0, count as int, attrs) by {
                            if attrs_hyp(data0, pos0, count as int, attrs) {
                                lemma_attrs_step(data0, pos0, count as int, attrs, i as int, cur);
                                assert(false);
                            }
                        }
                    }
                    return Err(e);
                },
            };
            let value = match self.read(true) {
                Ok(v) => v,
                Err(e) => {
                    proof {
                        assert forall|attrs: Seq<(Seq<char>, ValueView)>|
                            !attrs_hyp(data0, pos0, count as int, attrs) by {
                            if attrs_hyp(data0, pos0, count as int, attrs) {
                                lemma_attrs_step(data0, pos0, count as int, attrs, i as int, cur);
                                assert(false);
                            }
                        }
                    }
                    return Err(e);
                },
            };
            let value = get_value_with_context(&key, value);
            let ghost prev = out@;
            let ghost key_view = key@;
            let ghost value_view_g = value@;
            out.push((key, value));
            proof {
                assert forall|attrs: Seq<(Seq<char>, ValueView)>|
                    #[trigger] attrs_hyp(data0, pos0, count as int, attrs) implies (attrs_view(
                    out@,
                ) == attrs.take(i + 1) && self.spec_pos() == pos0 + enc_attrs(
                    attrs.take(i + 1),
                ).len()) by {
                    lemma_attrs_step(data0, pos0, count as int, attrs, i as int, cur);
                    assert(value_view_g == attrs[i as int].1);
                    crate::node::lemma_attrs_view_push(prev, (out@[i as int].0, out@[i as int].1));
                    assert(out@[i as int].0@ == attrs[i as int].0);
                    assert(attrs.take(i + 1) =~= attrs.take(i as int).push(attrs[i as int]));
                    assert(attrs_view(out@) =~= attrs.take(i + 1));
                }
            }
            i = i + 1;
        }
        proof {
            assert forall|attrs: Seq<(Seq<char>, ValueView)>|
                #[trigger] attrs_hyp(data0, pos0, count as int, attrs) implies (attrs_view(out@)
                == attrs && self.spec_pos() == pos0 + enc_attrs(attrs).len()) by {
                assert(attrs.take(count as int) =~= attrs);
            }
        }
        Ok(out)
    }

    /// Reads one node: its arity, tag, attribute entries, and, when the
    /// arity is even, its content. An arity of zero is malformed.
    pub fn decode(&mut self) -> (r: Result<Node, Error>)
        requires
            old(self).wf(),
        ensures
            final(self).wf(),
            final(self).spec_data() == old(self).spec_data(),
            old(self).spec_pos() <= final(self).spec_pos() <= old(self).spec_data().len(),
            r is Ok ==> final(self).spec_pos() > old(self).spec_pos(),
            ({
                let data = old(self).spec_data();
                let pos = old(self).spec_pos();
                &&& (pos < data.len() && data[pos] == LIST_EMPTY ==> r == Err::<Node, Error>(
                    Error::DecodeError,
                ))
                &&& (pos + 2 <= data.len() && data[pos] == LIST_8 && data[pos + 1] == 0 ==> r
                    == Err::<Node, Error>(Error::DecodeError))
                &&& (pos + 3 <= data.len() && data[pos] == LIST_16 && be16_val(
                    data.subrange(pos + 1, pos + 3),
                ) == 0 ==> r == Err::<Node, Error>(Error::DecodeError))
            }),
            forall|nv: NodeView|
                #[trigger] node_hyp(old(self).spec_data(), old(self).spec_pos(), nv) ==> (
                r matches Ok(n) && n@ == nv && final(self).spec_pos() == old(self).spec_pos()
                    + enc_node(nv).len()),
        decreases self.spec_data().len() - self.spec_pos(), 5int,
    {
        let ghost data0 = old(self).spec_data();
        let ghost pos0 = old(self).spec_pos();
        let token = match self.read_u8() {
            Ok(b) => b,
            Err(e) => {
                proof {
                    assert forall|nv: NodeView| !node_hyp(data0, pos0, nv) by {
                        if node_hyp(data0, pos0, nv) {
                            lemma_node_parts(data0, pos0, nv);
                            assert(false);
                        }
                    }
                }
                return Err(e);
            },
        };
        let size = match self.read_size(token) {
            Ok(n) => n,
            Err(e) => {
                proof {
                    assert forall|nv: NodeView| !node_hyp(data0, pos0, nv) by {
                        if node_hyp(data0, pos0, nv) {
                            lemma_node_parts(data0, pos0, nv);
                            assert(false);
                        }
                    }
                }
                return Err(e);
            },
        };
        proof {
            assert forall|nv: NodeView| #[trigger] node_hyp(data0, pos0, nv) implies (size
                == node_arity(nv) && self.spec_pos() == pos0 + enc_list_start(
                node_arity(nv),
            ).len()) by {
                lemma_node_parts(data0, pos0, nv);
                if node_arity(nv) >= 128 {
                    assert(seq![data0[pos0 + 1], data0[pos0 + 2]] =~= data0.subrange(
                        pos0 + 1,
                        pos0 + 3,
                    ));
                }
            }
        }
        if size == 0 {
            proof {
                assert forall|nv: NodeView| !node_hyp(data0, pos0, nv) by {
                    if node_hyp(data0, pos0, nv) {
                        lemma_node_parts(data0, pos0, nv);
                        assert(false);
                    }
                }
            }
            return Err(Error::DecodeError);
        }
        let ghost p1 = self.spec_pos();
        let description = match self.read_string() {
            Ok(d) => d,
            Err(e) => {
                proof {
                    assert forall|nv: NodeView| !node_hyp(data0, pos0, nv) by {
                        if node_hyp(data0, pos0, nv) {
                            lemma_node_parts(data0, pos0, nv);
                            assert(false);
                        }
                    }
                }
                return Err(e);
            },
        };
        let ghost p2 = self.spec_pos();
        let attrs = match self.read_attributes(size) {
            Ok(a) => a,
            Err(e) => {
                proof {
                    assert forall|nv: NodeView| !node_hyp(data0, pos0, nv) by {
                        if node_hyp(data0, pos0, nv) {
                            lemma_node_parts(data0, pos0, nv);
                            assert(false);
                        }
                    }
                }
                return Err(e);
            },
        };
        let ghost p3 = self.spec_pos();
        if size % 2 == 0 {
            let content = match self.read(false) {
                Ok(c) => c,
                Err(e) => {
                    proof {
                        assert forall|nv: NodeView| !node_hyp(data0, pos0, nv) by {
                            if node_hyp(data0, pos0, nv) {
                                lemma_node_parts(data0, pos0, nv);
                                assert(false);
                            }
                        }
                    }
                    return Err(e);
                },
            };
            let node = Node::new(description, attrs, Some(content));
            proof {
                assert forall|nv: NodeView| #[trigger] node_hyp(data0, pos0, nv) implies (node@
                    == nv && self.spec_pos() == pos0 + enc_node(nv).len()) by {
                    lemma_node_parts(data0, pos0, nv);
                }
            }
            Ok(node)
        } else {
            let node = Node::new(description, attrs, None);
            proof {
                assert forall|nv: NodeView| #[trigger] node_hyp(data0, pos0, nv) implies (node@
                    == nv && self.spec_pos() == pos0 + enc_node(nv).len()) by {
                    lemma_node_parts(data0, pos0, nv);
                }
            }
            Ok(node)
        }
    }

}

/// A plain identifier pair's bytes, minus its leading token, start at
/// `pos`.
pub open spec fn pair_jid_hyp(data: Seq<u8>, pos: int, j: JidView) -> bool {
    pair_form(j) && wf_jid(j) && prefix_at(data, pos, enc_jid(j).skip(1))
}

/// An agent-addressed identifier's bytes, minus its leading token, start
/// at `pos`.
pub open spec fn ad_jid_hyp(data: Seq<u8>, pos: int, j: JidView) -> bool {
    ad_form(j) && wf_jid(j) && prefix_at(data, pos, enc_jid(j).skip(1))
}

/// A `msgr` identifier's bytes, minus its leading token, start at `pos`.
pub open spec fn fb_jid_hyp(data: Seq<u8>, pos: int, j: JidView) -> bool {
    fb_form(j) && wf_jid(j) && prefix_at(data, pos, enc_jid(j).skip(1))
}

/// An `interop` identifier's bytes, minus its leading token, start at
/// `pos`.
pub open spec fn interop_jid_hyp(data: Seq<u8>, pos: int, j: JidView) -> bool {
    interop_form(j) && wf_jid(j) && prefix_at(data, pos, enc_jid(j).skip(1))
}

/// An encodable string's bytes start at `pos`.
pub open spec fn str_hyp(data: Seq<u8>, pos: int, s: Seq<char>) -> bool {
    wf_str(s) && prefix_at(data, pos, enc_str(s))
}

/// A value the decoder reconstructs in the given position: strings (with
/// a packed or dictionary form when raw bytes would decode as `Bytes`),
/// raw bytes and node lists in content position, and identifiers
/// anywhere.
pub open spec fn wf_read_value(v: ValueView, parse_bytes: bool) -> bool {
    match v {
        ValueView::Str(s) => wf_str(s) && (parse_bytes || packable_str(s)),
        ValueView::Bytes(b) => !parse_bytes && b.len() < 0x8000_0000,
        ValueView::Jid(j) => wf_jid(j),
        ValueView::List(ns) => !parse_bytes && 1 <= ns.len() < 0x8000 && wf_nodes(ns),
        _ => false,
    }
}

/// A reconstructible value's bytes start at `pos`.
pub open spec fn value_hyp(data: Seq<u8>, pos: int, parse_bytes: bool, v: ValueView) -> bool {
    wf_read_value(v, parse_bytes) && prefix_at(data, pos, enc_value(v))
}

/// A well-formed node's bytes start at `pos`.
pub open spec fn node_hyp(data: Seq<u8>, pos: int, nv: NodeView) -> bool {
    wf_node(nv) && prefix_at(data, pos, enc_node(nv))
}

/// `count` well-formed nodes' bytes start at `pos`.
pub open spec fn nodes_hyp(data: Seq<u8>, pos: int, count: int, ns: Seq<NodeView>) -> bool {
    wf_nodes(ns) && ns.len() == count && prefix_at(data, pos, enc_nodes(ns))
}

/// Attribute entries the decoder reconstructs: non-empty encodable keys
/// and attribute values, with identifier values under a `lid` key already
/// on the `lid` server.
pub open spec fn wf_attr_list(attrs: Seq<(Seq<char>, ValueView)>) -> bool {
    forall|i: int|
        0 <= i < attrs.len() ==> {
            &&& wf_str((#[trigger] attrs[i]).0)
            &&& attrs[i].0.len() > 0
            &&& wf_attr_value(attrs[i].1)
            &&& ((attrs[i].0 == "lid"@ && attrs[i].1 is Jid) ==> attrs[i].1->Jid_0.server == Some(
                "lid"@,
            ))
        }
}

/// `count` reconstructible attribute entries' bytes start at `pos`.
pub open spec fn attrs_hyp(data: Seq<u8>, pos: int, count: int, attrs: Seq<(Seq<char>, ValueView)>) -> bool {
    wf_attr_list(attrs) && attrs.len() == count && prefix_at(data, pos, enc_attrs(attrs))
}

/// Promotion applied to a decoded attribute value: under a `lid` key an
/// identifier is moved to the `lid` server.
pub open spec fn spec_with_context(key: Seq<char>, v: ValueView) -> ValueView {
    if key == "lid"@ && v is Jid {
        ValueView::Jid(JidView { server: Some("lid"@), ..v->Jid_0 })
    } else {
        v
    }
}

/// Applies the `lid` context rule to a decoded attribute value.
pub fn get_value_with_context(key: &String, value: Value) -> (r: Value)
    ensures
        r@ == spec_with_context(key@, value@),
{
    if *key == String::from_str("lid") {
        match value {
            Value::Jid(j) => {
                let promoted = JID { server: Some(String::from_str("lid")), ..j };
                proof {
                    assert(promoted@ == (JidView { server: Some("lid"@), ..j@ }));
                }
                Value::Jid(promoted)
            },
            other => other,
        }
    } else {
        value
    }
}

/// Splits a plain identifier pair's image into its parts.
proof fn lemma_pair_parts(data: Seq<u8>, pos: int, j: JidView)
    requires
        pair_jid_hyp(data, pos, j),
    ensures
        ({
            let up = match j.user {
                Some(u) => enc_str(u),
                None => seq![LIST_EMPTY],
            };
            let sp = match j.server {
                Some(sv) => enc_str(sv),
                None => enc_str(Seq::<char>::empty()),
            };
            &&& enc_jid(j) == seq![JID_PAIR] + up + sp
            &&& enc_jid(j).len() == 1 + up.len() + sp.len()
            &&& (j.user matches Some(u) ==> str_hyp(data, pos, u) && u.len() > 0)
            &&& (j.user is None ==> pos < data.len() && data[pos] == LIST_EMPTY)
            &&& (j.server matches Some(sv) ==> str_hyp(data, pos + up.len(), sv) && sv.len() > 0)
            &&& (j.server is None ==> str_hyp(data, pos + up.len(), Seq::<char>::empty())
                && enc_str(Seq::<char>::empty()).len() >= 1)
        }),
{
    let up = match j.user {
        Some(u) => enc_str(u),
        None => seq![LIST_EMPTY],
    };
    let sp = match j.server {
        Some(sv) => enc_str(sv),
        None => enc_str(Seq::<char>::empty()),
    };
    assert(!ad_form(j));
    assert(!fb_form(j));
    assert(!interop_form(j));
    assert(enc_jid(j) == seq![JID_PAIR] + up + sp);
    assert(enc_jid(j).skip(1) =~= up + sp);
    lemma_prefix_split(data, pos, up, sp);
    if j.user is None {
        lemma_prefix_first(data, pos, up);
    }
    if j.server is None {
        assert(vstd::utf8::encode_utf8(Seq::<char>::empty()) =~= Seq::<u8>::empty());
        assert(wf_str(Seq::<char>::empty()));
        assert(enc_str(Seq::<char>::empty()).len() >= 1);
    }
}

/// Splits an agent-addressed identifier's image into its parts.
proof fn lemma_ad_parts(data: Seq<u8>, pos: int, j: JidView)
    requires
        ad_jid_hyp(data, pos, j),
    ensures
        enc_jid(j) == seq![AD_JID, j.raw_agent.unwrap(), (j.device.unwrap() as u8)] + enc_str(
            j.user.unwrap(),
        ),
        enc_jid(j).len() == 3 + enc_str(j.user.unwrap()).len(),
        pos + 2 <= data.len(),
        data[pos] == j.raw_agent.unwrap(),
        data[pos + 1] == j.device.unwrap() as u8,
        str_hyp(data, pos + 2, j.user.unwrap()),
        j.user is Some,
        j.device matches Some(d) && d <= 255,
        j.raw_agent matches Some(a) && (a == 0 || a == 1 || a == 2),
        j.raw_agent == Some(0u8) ==> j.server == Some("s.whatsapp.net"@),
        j.raw_agent == Some(1u8) ==> j.server == Some("lid"@),
        j.raw_agent == Some(2u8) ==> j.server == Some("hosted"@),
{
    assert(enc_jid(j) == seq![AD_JID, j.raw_agent.unwrap(), (j.device.unwrap() as u8)] + enc_str(
        j.user.unwrap(),
    ));
    let head = seq![j.raw_agent.unwrap(), (j.device.unwrap() as u8)];
    assert(enc_jid(j).skip(1) =~= head + enc_str(j.user.unwrap()));
    lemma_prefix_split(data, pos, head, enc_str(j.user.unwrap()));
    lemma_prefix_first(data, pos, head);
    assert(data.subrange(pos, pos + 2)[1] == head[1]);
}

/// Splits a `msgr` identifier's image into its parts.
proof fn lemma_fb_parts(data: Seq<u8>, pos: int, j: JidView)
    requires
        fb_jid_hyp(data, pos, j),
    ensures
        enc_jid(j) == seq![FB_JID] + enc_str(j.user.unwrap()) + spec_be16(j.device.unwrap() as int)
            + enc_str(j.server.unwrap()),
        enc_jid(j).len() == 1 + enc_str(j.user.unwrap()).len() + 2 + enc_str(
            j.server.unwrap(),
        ).len(),
        str_hyp(data, pos, j.user.unwrap()),
        prefix_at(
            data,
            pos + enc_str(j.user.unwrap()).len(),
            spec_be16(j.device.unwrap() as int),
        ),
        str_hyp(data, pos + enc_str(j.user.unwrap()).len() + 2, j.server.unwrap()),
        j.user is Some,
        j.device is Some,
        j.server == Some("msgr"@),
{
    reveal_strlit("s.whatsapp.net");
    reveal_strlit("lid");
    reveal_strlit("hosted");
    reveal_strlit("msgr");
    assert("s.whatsapp.net"@.len() == 14);
    assert("lid"@.len() == 3);
    assert("hosted"@.len() == 6);
    assert("msgr"@.len() == 4);
    assert(!ad_form(j));
    crate::wire::lemma_be16_roundtrip(j.device.unwrap() as int);
    let u = enc_str(j.user.unwrap());
    let d = spec_be16(j.device.unwrap() as int);
    let sv = enc_str(j.server.unwrap());
    assert(enc_jid(j) == seq![FB_JID] + u + d + sv);
    assert(enc_jid(j).skip(1) =~= u + (d + sv));
    lemma_prefix_split(data, pos, u, d + sv);
    lemma_prefix_split(data, pos + u.len(), d, sv);
}

/// Splits an `interop` identifier's image into its parts.
proof fn lemma_interop_parts(data: Seq<u8>, pos: int, j: JidView)
    requires
        interop_jid_hyp(data, pos, j),
    ensures
        enc_jid(j).len() == 1 + enc_str(j.user.unwrap()).len() + 4 + enc_str(
            j.server.unwrap(),
        ).len(),
        str_hyp(data, pos, j.user.unwrap()),
        prefix_at(
            data,
            pos + enc_str(j.user.unwrap()).len(),
            spec_be16(j.device.unwrap() as int),
        ),
        prefix_at(
            data,
            pos + enc_str(j.user.unwrap()).len() + 2,
            spec_be16(j.integrator.unwrap() as int),
        ),
        str_hyp(data, pos + enc_str(j.user.unwrap()).len() + 4, j.server.unwrap()),
        j.user is Some,
        j.device is Some,
        j.integrator is Some,
        j.server == Some("interop"@),
{
    reveal_strlit("s.whatsapp.net");
    reveal_strlit("lid");
    reveal_strlit("hosted");
    reveal_strlit("msgr");
    reveal_strlit("interop");
    assert("s.whatsapp.net"@.len() == 14);
    assert("lid"@.len() == 3);
    assert("hosted"@.len() == 6);
    assert("msgr"@.len() == 4);
    assert("interop"@.len() == 7);
    assert(!ad_form(j));
    assert(!fb_form(j));
    crate::wire::lemma_be16_roundtrip(j.device.unwrap() as int);
    crate::wire::lemma_be16_roundtrip(j.integrator.unwrap() as int);
    let u = enc_str(j.user.unwrap());
    let d = spec_be16(j.device.unwrap() as int);
    let ig = spec_be16(j.integrator.unwrap() as int);
    let sv = enc_str(j.server.unwrap());
    assert(enc_jid(j) == seq![INTEROP_JID] + u + d + ig + sv);
    assert(enc_jid(j).skip(1) =~= u + (d + (ig + sv)));
    lemma_prefix_split(data, pos, u, d + (ig + sv));
    lemma_prefix_split(data, pos + u.len(), d, ig + sv);
    lemma_prefix_split(data, pos + u.len() + 2, ig, sv);
}

/// The packed-string bytes after the packed token: the length byte and
/// the packed body.
pub open spec fn enc_packed_tail(s: Seq<char>, hexmode: bool) -> Seq<u8> {
    seq![packed_len_byte(s.len() as int)] + packed_body(s, hexmode)
}

/// A packed string of the given alphabet starts at `pos`.
pub open spec fn packed_hyp(data: Seq<u8>, pos: int, hexmode: bool, s: Seq<char>) -> bool {
    (if hexmode {
        hex_ok(s)
    } else {
        nibble_ok(s)
    }) && prefix_at(data, pos, enc_packed_tail(s, hexmode))
}

/// Reversal of one 4-bit nibble code.
pub open spec fn spec_unpack_nibble(v: u8) -> Option<u8> {
    if v <= 9 {
        Some((48 + v) as u8)
    } else if v == 10 {
        Some(45u8)
    } else if v == 11 {
        Some(46u8)
    } else if v == 15 {
        Some(0u8)
    } else {
        None
    }
}

/// Reversal of one 4-bit hex code.
pub open spec fn spec_unpack_hex(v: u8) -> Option<u8> {
    if v <= 9 {
        Some((48 + v) as u8)
    } else if v <= 15 {
        Some((65 + v - 10) as u8)
    } else {
        None
    }
}

/// Reversal of one 4-bit code in either alphabet.
pub open spec fn spec_unpack(hexmode: bool, v: u8) -> Option<u8> {
    if hexmode {
        spec_unpack_hex(v)
    } else {
        spec_unpack_nibble(v)
    }
}

/// The length byte splits back into the rounded byte count and the odd
/// flag.
proof fn lemma_packed_len_byte(n: int)
    requires
        0 <= n <= 127,
    ensures
        (packed_len_byte(n) & 127) == (n + 1) / 2,
        (packed_len_byte(n) >= 128) == (n % 2 == 1),
{
    let a = ((n + 1) / 2) as u8;
    assert(a < 128);
    if n % 2 == 1 {
        assert((((a + 128) as u8) & 127) == a && ((a + 128) as u8) >= 128) by (bit_vector)
            requires
                a < 128,
        ;
    } else {
        assert((a & 127) == a && !(a >= 128)) by (bit_vector)
            requires
                a < 128,
        ;
    }
}

/// A packed byte splits back into its two 4-bit codes.
proof fn lemma_packed_byte_split(s: Seq<char>, hexmode: bool, k: int)
    requires
        0 <= k < (s.len() + 1) / 2,
        hexmode ==> hex_ok(s),
        !hexmode ==> nibble_ok(s),
    ensures
        ((packed_body(s, hexmode)[k] & 0xF0) >> 4) == (if hexmode {
            hex_val(s[2 * k])
        } else {
            nib_val(s[2 * k])
        }),
        (packed_body(s, hexmode)[k] & 0x0F) == (if 2 * k + 1 < s.len() {
            if hexmode {
                hex_val(s[2 * k + 1])
            } else {
                nib_val(s[2 * k + 1])
            }
        } else {
            15u8
        }),
{
    let hi = if hexmode {
        hex_val(s[2 * k])
    } else {
        nib_val(s[2 * k])
    };
    let lo = if 2 * k + 1 < s.len() {
        if hexmode {
            hex_val(s[2 * k + 1])
        } else {
            nib_val(s[2 * k + 1])
        }
    } else {
        15u8
    };
    assert(hi < 16 && lo < 16);
    assert(packed_body(s, hexmode)[k] == (hi * 16 + lo) as u8);
    assert(((((hi * 16 + lo) as u8) & 0xF0) >> 4) == hi && (((hi * 16 + lo) as u8) & 0x0F) == lo)
        by (bit_vector)
        requires
            hi < 16,
            lo < 16,
    ;
}

/// Unpacking the 4-bit code of an alphabet character gives the
/// character's code back.
proof fn lemma_unpack_inverse(hexmode: bool, c: char)
    requires
        hexmode ==> hex_char(c),
        !hexmode ==> nib_char(c),
    ensures
        spec_unpack(hexmode, if hexmode {
            hex_val(c)
        } else {
            nib_val(c)
        }) == Some((c as u32) as u8),
{
}

/// ASCII codes decode back to their characters.
pub(crate) proof fn lemma_ascii_codes_decode(s: Seq<char>, codes: Seq<u8>)
    requires
        codes.len() == s.len(),
        forall|i: int| 0 <= i < s.len() ==> nib_char(#[trigger] s[i]) || hex_char(s[i]),
        forall|i: int| 0 <= i < s.len() ==> #[trigger] codes[i] == (s[i] as u32) as u8,
    ensures
        vstd::utf8::valid_utf8(codes),
        vstd::utf8::decode_utf8(codes) == s,
{
    broadcast use vstd::utf8::group_utf8_lib;

    assert forall|i: int| 0 <= i < s.len() implies '\0' <= #[trigger] s[i] <= '\u{7f}' by {
        assert(s[i] as u32 <= 70);
        vstd::utf8::char_u32_cast(s[i], s[i] as u32);
    }
    assert(vstd::utf8::is_ascii_chars(s));
    vstd::utf8::is_ascii_chars_encode_utf8(s);
    assert(codes =~= vstd::utf8::encode_utf8(s));
    vstd::utf8::encode_utf8_valid_utf8(s);
    vstd::utf8::encode_utf8_decode_utf8(s);
}


/// Shape of a reconstructible value's image, by its kind.
proof fn lemma_value_shape(v: ValueView, pb: bool)
    requires
        wf_read_value(v, pb),
    ensures
        enc_value(v).len() >= 1,
        v matches ValueView::Str(s) ==> enc_value(v) == enc_str(s) && wf_str(s),
        v matches ValueView::Bytes(b) ==> enc_value(v) == enc_bytes(b) && b.len() < 0x8000_0000
            && !pb,
        v matches ValueView::Jid(jj) ==> enc_value(v) == enc_jid(jj) && wf_jid(jj),
        v matches ValueView::List(ns) ==> enc_value(v) == enc_list_start(ns.len() as int)
            + enc_nodes(ns) && 1 <= ns.len() < 0x8000 && wf_nodes(ns) && !pb,
{
    match v {
        ValueView::Str(s) => {
            crate::token::lemma_single_token_inverse(s);
            crate::token::lemma_double_token_inverse(s);
            assert(enc_value(v) == enc_str(s));
        },
        _ => {},
    }
}

/// What the first byte of a reconstructible value's image tells the
/// dispatcher: the shape of the value, the sub-reader's hypothesis, and
/// the image's length.
proof fn lemma_read_dispatch(data: Seq<u8>, pos: int, pb: bool, v: ValueView, tag: u8)
    requires
        value_hyp(data, pos, pb, v),
        pos < data.len(),
        data[pos] == tag,
    ensures
        tag != LIST_EMPTY,
        tag == JID_PAIR ==> (v matches ValueView::Jid(j) && pair_jid_hyp(data, pos + 1, j)
            && enc_value(v).len() == enc_jid(j).len()),
        tag == AD_JID ==> (v matches ValueView::Jid(j) && ad_jid_hyp(data, pos + 1, j)
            && enc_value(v).len() == enc_jid(j).len()),
        tag == FB_JID ==> (v matches ValueView::Jid(j) && fb_jid_hyp(data, pos + 1, j)
            && enc_value(v).len() == enc_jid(j).len()),
        tag == INTEROP_JID ==> (v matches ValueView::Jid(j) && interop_jid_hyp(data, pos + 1, j)
            && enc_value(v).len() == enc_jid(j).len()),
        tag == LIST_8 ==> (v matches ValueView::List(ns) && ns.len() < 128 && pos + 2 <= data.len()
            && data[pos + 1] == ns.len() && nodes_hyp(data, pos + 2, ns.len() as int, ns)
            && enc_value(v).len() == 2 + enc_nodes(ns).len()),
        tag == LIST_16 ==> (v matches ValueView::List(ns) && 128 <= ns.len() < 0x8000 && pos + 3
            <= data.len() && be16_val(data.subrange(pos + 1, pos + 3)) == ns.len() && nodes_hyp(
            data,
            pos + 3,
            ns.len() as int,
            ns,
        ) && enc_value(v).len() == 3 + enc_nodes(ns).len()),
        tag == NIBBLE_8 ==> (v matches ValueView::Str(s) && packed_hyp(data, pos + 1, false, s)
            && enc_value(v).len() == 1 + enc_packed_tail(s, false).len()),
        tag == HEX_8 ==> (v matches ValueView::Str(s) && packed_hyp(data, pos + 1, true, s)
            && enc_value(v).len() == 1 + enc_packed_tail(s, true).len()),
        tag == BINARY_8 ==> (pos + 2 <= data.len() && ({
            let size = data[pos + 1] as int;
            &&& pos + 2 + size <= data.len()
            &&& enc_value(v).len() == 2 + size
            &&& ((v matches ValueView::Str(s) && pb && data.subrange(pos + 2, pos + 2 + size)
                == vstd::utf8::encode_utf8(s)) || (v matches ValueView::Bytes(b) && data.subrange(
                pos + 2,
                pos + 2 + size,
            ) == b && !pb))
        })),
        tag == BINARY_20 ==> (pos + 4 <= data.len() && ({
            let size = (data[pos + 1] & 0x0F) as int * 0x10000 + data[pos + 2] as int * 0x100
                + data[pos + 3] as int;
            &&& pos + 4 + size <= data.len()
            &&& enc_value(v).len() == 4 + size
            &&& ((v matches ValueView::Str(s) && pb && data.subrange(pos + 4, pos + 4 + size)
                == vstd::utf8::encode_utf8(s)) || (v matches ValueView::Bytes(b) && data.subrange(
                pos + 4,
                pos + 4 + size,
            ) == b && !pb))
        })),
        tag == BINARY_32 ==> (pos + 5 <= data.len() && ({
            let size = crate::wire::be32_val(data.subrange(pos + 1, pos + 5));
            &&& pos + 5 + size <= data.len()
            &&& enc_value(v).len() == 5 + size
            &&& ((v matches ValueView::Str(s) && pb && data.subrange(pos + 5, pos + 5 + size)
                == vstd::utf8::encode_utf8(s)) || (v matches ValueView::Bytes(b) && data.subrange(
                pos + 5,
                pos + 5 + size,
            ) == b && !pb))
        })),
        1 <= tag <= 20 ==> (v matches ValueView::Str(s) && spec_single_token_at(tag) == Some(s)
            && enc_value(v).len() == 1),
        DICTIONARY_0 <= tag <= DICTIONARY_3 ==> (v matches ValueView::Str(s) && pos + 2
            <= data.len() && spec_double_token_at((tag - DICTIONARY_0) as u8, data[pos + 1])
            == Some(s) && enc_value(v).len() == 2),
        (21 <= tag <= 235 || 240 <= tag <= 244) ==> false,
{
    lemma_value_shape(v, pb);
    let e = enc_value(v);
    lemma_prefix_first(data, pos, e);
    match v {
        ValueView::Str(s) => {
            crate::token::lemma_single_token_inverse(s);
            crate::token::lemma_double_token_inverse(s);
            if spec_single_token_index(s) is Some {
                let i = spec_single_token_index(s).unwrap();
                assert(e == seq![i]);
                assert(tag == i);
            } else if spec_double_token_index(s) is Some {
                let p = spec_double_token_index(s).unwrap();
                assert(e == seq![(DICTIONARY_0 + p.0) as u8, p.1]);
                assert(tag == DICTIONARY_0 + p.0);
                assert(data.subrange(pos, pos + 2)[1] == e[1]);
                assert(data[pos + 1] == p.1);
            } else if nibble_ok(s) {
                assert(e == seq![NIBBLE_8] + enc_packed_tail(s, false));
                assert(tag == NIBBLE_8);
                lemma_prefix_split(data, pos, seq![NIBBLE_8], enc_packed_tail(s, false));
            } else if hex_ok(s) {
                assert(e == seq![HEX_8] + enc_packed_tail(s, true));
                assert(tag == HEX_8);
                lemma_prefix_split(data, pos, seq![HEX_8], enc_packed_tail(s, true));
            } else {
                let bytes = vstd::utf8::encode_utf8(s);
                assert(e == enc_bytes(bytes));
                lemma_prefix_split(data, pos, enc_len_prefix(bytes.len() as int), bytes);
                lemma_len_prefix_read(data, pos, bytes.len() as int);
                assert(pb);
            }
        },
        ValueView::Bytes(b) => {
            assert(e == enc_bytes(b));
            lemma_prefix_split(data, pos, enc_len_prefix(b.len() as int), b);
            lemma_len_prefix_read(data, pos, b.len() as int);
        },
        ValueView::Jid(j) => {
            if ad_form(j) {
                assert(tag == AD_JID);
                assert(e.skip(1) =~= enc_jid(j).skip(1));
                lemma_skip_prefix(data, pos, e);
            } else if fb_form(j) {
                assert(tag == FB_JID);
                lemma_skip_prefix(data, pos, e);
            } else if interop_form(j) {
                assert(tag == INTEROP_JID);
                lemma_skip_prefix(data, pos, e);
            } else {
                assert(pair_form(j));
                assert(tag == JID_PAIR);
                lemma_skip_prefix(data, pos, e);
            }
        },
        ValueView::List(ns) => {
            let n = ns.len() as int;
            if n < 128 {
                assert(e == seq![LIST_8, n as u8] + enc_nodes(ns));
                assert(tag == LIST_8);
                lemma_prefix_split(data, pos, seq![LIST_8, n as u8], enc_nodes(ns));
                assert(data.subrange(pos, pos + 2)[1] == (n as u8));
            } else {
                assert(e == (seq![LIST_16] + spec_be16(n)) + enc_nodes(ns));
                assert(tag == LIST_16);
                lemma_prefix_split(data, pos, seq![LIST_16] + spec_be16(n), enc_nodes(ns));
                assert((seq![LIST_16] + spec_be16(n)).skip(1) =~= spec_be16(n));
                lemma_skip_prefix(data, pos, seq![LIST_16] + spec_be16(n));
                crate::wire::lemma_be16_roundtrip(n);
                assert(data.subrange(pos + 1, pos + 3) =~= spec_be16(n));
            }
        },
        _ => {},
    }
}

/// A prefix minus its first byte is a prefix one byte later.
proof fn lemma_skip_prefix(data: Seq<u8>, pos: int, p: Seq<u8>)
    requires
        prefix_at(data, pos, p),
        p.len() >= 1,
    ensures
        prefix_at(data, pos + 1, p.skip(1)),
{
    assert(p =~= p.take(1) + p.skip(1));
    lemma_prefix_split(data, pos, p.take(1), p.skip(1));
}

/// Reading back a length prefix gives the length it was written for.
proof fn lemma_len_prefix_read(data: Seq<u8>, pos: int, n: int)
    requires
        0 <= n < 0x8000_0000,
        prefix_at(data, pos, enc_len_prefix(n)),
    ensures
        pos < data.len(),
        n < 0x100 ==> data[pos] == BINARY_8 && pos + 2 <= data.len() && data[pos + 1] == n,
        0x100 <= n < 0x100000 ==> data[pos] == BINARY_20 && pos + 4 <= data.len() && ((data[pos
            + 1] & 0x0F) as int * 0x10000 + data[pos + 2] as int * 0x100 + data[pos + 3] as int)
            == n,
        n >= 0x100000 ==> data[pos] == BINARY_32 && pos + 5 <= data.len()
            && crate::wire::be32_val(data.subrange(pos + 1, pos + 5)) == n,
{
    lemma_prefix_first(data, pos, enc_len_prefix(n));
    if n < 0x100 {
        assert(data.subrange(pos, pos + 2)[1] == enc_len_prefix(n)[1]);
    } else if n < 0x100000 {
        crate::wire::lemma_be24_roundtrip(n);
        assert(enc_len_prefix(n) =~= seq![BINARY_20] + crate::wire::spec_be24(n));
        lemma_skip_prefix(data, pos, enc_len_prefix(n));
        assert(enc_len_prefix(n).skip(1) =~= crate::wire::spec_be24(n));
        assert(data.subrange(pos + 1, pos + 4) =~= crate::wire::spec_be24(n));
        assert(data[pos + 1] == crate::wire::spec_be24(n)[0]);
        assert(data[pos + 2] == crate::wire::spec_be24(n)[1]);
        assert(data[pos + 3] == crate::wire::spec_be24(n)[2]);
        let b0 = (n / 0x10000) as u8;
        assert(b0 < 16);
        assert((b0 & 0x0F) == b0) by (bit_vector)
            requires
                b0 < 16,
        ;
    } else {
        crate::wire::lemma_be32_roundtrip(n);
        assert(enc_len_prefix(n) =~= seq![BINARY_32] + crate::wire::spec_be32(n));
        lemma_skip_prefix(data, pos, enc_len_prefix(n));
        assert(enc_len_prefix(n).skip(1) =~= crate::wire::spec_be32(n));
        assert(data.subrange(pos + 1, pos + 5) =~= crate::wire::spec_be32(n));
    }
}

/// Step of decoding a node list: the `i`th node's image starts where the
/// first `i` images end.
proof fn lemma_nodes_step(data: Seq<u8>, pos0: int, count: int, ns: Seq<NodeView>, i: int, cur: int)
    requires
        nodes_hyp(data, pos0, count, ns),
        0 <= i < ns.len(),
        cur == pos0 + enc_nodes(ns.take(i)).len(),
    ensures
        node_hyp(data, cur, ns[i]),
        enc_nodes(ns.take(i + 1)).len() == enc_nodes(ns.take(i)).len() + enc_node(ns[i]).len(),
{
    crate::codec::lemma_wf_nodes(ns);
    assert(ns =~= ns.take(i) + ns.skip(i));
    crate::codec::lemma_enc_nodes_append(ns.take(i), ns.skip(i));
    lemma_prefix_split(data, pos0, enc_nodes(ns.take(i)), enc_nodes(ns.skip(i)));
    assert(ns.skip(i)[0] == ns[i]);
    assert(ns.skip(i).subrange(1, ns.skip(i).len() as int) =~= ns.skip(i + 1));
    assert(enc_nodes(ns.skip(i)) == enc_node(ns[i]) + enc_nodes(ns.skip(i + 1)));
    lemma_prefix_split(data, cur, enc_node(ns[i]), enc_nodes(ns.skip(i + 1)));
    assert(ns.take(i + 1) =~= ns.take(i) + seq![ns[i]]);
    crate::codec::lemma_enc_nodes_append(ns.take(i), seq![ns[i]]);
    crate::codec::lemma_enc_nodes_one(ns[i]);
}

/// Step of decoding an attribute list.
proof fn lemma_attrs_step(
    data: Seq<u8>,
    pos0: int,
    count: int,
    attrs: Seq<(Seq<char>, ValueView)>,
    i: int,
    cur: int,
)
    requires
        attrs_hyp(data, pos0, count, attrs),
        0 <= i < attrs.len(),
        cur == pos0 + enc_attrs(attrs.take(i)).len(),
    ensures
        str_hyp(data, cur, attrs[i].0),
        attrs[i].0.len() > 0,
        wf_attr_value(attrs[i].1),
        value_hyp(data, cur + enc_str(attrs[i].0).len(), true, attrs[i].1),
        spec_with_context(attrs[i].0, attrs[i].1) == attrs[i].1,
        enc_attrs(attrs.take(i + 1)).len() == enc_attrs(attrs.take(i)).len() + enc_str(
            attrs[i].0,
        ).len() + enc_value(attrs[i].1).len(),
{
    assert(attrs =~= attrs.take(i) + attrs.skip(i));
    crate::codec::lemma_enc_attrs_append(attrs.take(i), attrs.skip(i));
    lemma_prefix_split(data, pos0, enc_attrs(attrs.take(i)), enc_attrs(attrs.skip(i)));
    assert(attrs.skip(i)[0] == attrs[i]);
    assert(attrs.skip(i).subrange(1, attrs.skip(i).len() as int) =~= attrs.skip(i + 1));
    assert(enc_attrs(attrs.skip(i)) == enc_str(attrs[i].0) + enc_value(attrs[i].1) + enc_attrs(
        attrs.skip(i + 1),
    ));
    assert(enc_str(attrs[i].0) + enc_value(attrs[i].1) + enc_attrs(attrs.skip(i + 1)) =~= enc_str(
        attrs[i].0,
    ) + (enc_value(attrs[i].1) + enc_attrs(attrs.skip(i + 1))));
    lemma_prefix_split(
        data,
        cur,
        enc_str(attrs[i].0),
        enc_value(attrs[i].1) + enc_attrs(attrs.skip(i + 1)),
    );
    lemma_prefix_split(
        data,
        cur + enc_str(attrs[i].0).len(),
        enc_value(attrs[i].1),
        enc_attrs(attrs.skip(i + 1)),
    );
    assert(wf_read_value(attrs[i].1, true));
    assert(attrs.take(i + 1) =~= attrs.take(i) + seq![attrs[i]]);
    crate::codec::lemma_enc_attrs_append(attrs.take(i), seq![attrs[i]]);
    crate::codec::lemma_enc_attrs_one(attrs[i]);
}

/// Splits a node's image into arity, tag, attributes and content, and
/// reads the arity back from its list opening.
proof fn lemma_node_parts(data: Seq<u8>, pos: int, nv: NodeView)
    requires
        node_hyp(data, pos, nv),
    ensures
        ({
            let ar = node_arity(nv);
            let p1 = pos + enc_list_start(ar).len();
            let p2 = p1 + enc_str(nv.tag).len();
            let p3 = p2 + enc_attrs(nv.attributes).len();
            &&& 1 <= ar < 0x8000
            &&& ar == 2 * nv.attributes.len() + 1 + (if nv.content is Some {
                1int
            } else {
                0int
            })
            &&& (nv.attributes.len() as int) == (ar - 1) / 2
            &&& (ar % 2 == 0) == (nv.content is Some)
            &&& (ar < 128 ==> pos + 2 <= data.len() && data[pos] == LIST_8 && data[pos + 1] == ar
                && enc_list_start(ar).len() == 2)
            &&& (ar >= 128 ==> pos + 3 <= data.len() && data[pos] == LIST_16 && be16_val(
                data.subrange(pos + 1, pos + 3),
            ) == ar && enc_list_start(ar).len() == 3)
            &&& str_hyp(data, p1, nv.tag)
            &&& attrs_hyp(data, p2, nv.attributes.len() as int, nv.attributes)
            &&& (nv.content matches Some(cv) ==> value_hyp(data, p3, false, cv) && enc_node(
                nv,
            ).len() == p3 - pos + enc_value(cv).len())
            &&& (nv.content is None ==> enc_node(nv).len() == p3 - pos)
        }),
{
    let ar = node_arity(nv);
    let cpart = match nv.content {
        Some(cv) => enc_value(cv),
        None => Seq::<u8>::empty(),
    };
    crate::codec::lemma_wire_attrs_id(nv);
    assert(ar == 2 * nv.attributes.len() + 1 + (if nv.content is Some {
        1int
    } else {
        0int
    }));
    assert(enc_node(nv) == enc_list_start(ar) + enc_str(nv.tag) + enc_attrs(nv.attributes)
        + cpart);
    assert(enc_node(nv) =~= enc_list_start(ar) + (enc_str(nv.tag) + (enc_attrs(nv.attributes)
        + cpart)));
    lemma_prefix_split(data, pos, enc_list_start(ar), enc_str(nv.tag) + (enc_attrs(nv.attributes)
        + cpart));
    let p1 = pos + enc_list_start(ar).len();
    lemma_prefix_split(data, p1, enc_str(nv.tag), enc_attrs(nv.attributes) + cpart);
    let p2 = p1 + enc_str(nv.tag).len();
    lemma_prefix_split(data, p2, enc_attrs(nv.attributes), cpart);
    lemma_prefix_first(data, pos, enc_list_start(ar));
    if ar < 128 {
        assert(data.subrange(pos, pos + 2)[1] == enc_list_start(ar)[1]);
    } else {
        assert(enc_list_start(ar) =~= seq![LIST_16] + spec_be16(ar));
        lemma_skip_prefix(data, pos, enc_list_start(ar));
        assert(enc_list_start(ar).skip(1) =~= spec_be16(ar));
        crate::wire::lemma_be16_roundtrip(ar);
        assert(data.subrange(pos + 1, pos + 3) =~= spec_be16(ar));
    }
    match nv.content {
        Some(cv) => {
            assert(wf_content(cv));
            assert(wf_read_value(cv, false));
        },
        None => {},
    }
}


/// The codec round-trips: decoding the encoder's image of any
/// well-formed node gives that node back, attribute order included.
pub fn codec_round_trip(node: &Node) -> (r: Result<Node, Error>)
    ensures
        wf_node(node@) ==> (r matches Ok(out) && out@ == node@),
{
    proof {
        if wf_node(node@) {
            crate::codec::lemma_wf_node_enc(node@);
        }
    }
    let mut encoder = crate::encoder::BinaryEncoder::new();
    let bytes = match encoder.write_node(node) {
        Ok(b) => b,
        Err(e) => {
            proof {
                if wf_node(node@) {
                    assert(false);
                }
            }
            return Err(e);
        },
    };
    proof {
        if wf_node(node@) {
            assert(bytes@[0] == 0u8);
            assert(0u8 & 2 == 0) by (bit_vector);
        }
    }
    let mut decoder = match BinaryDecoder::new(bytes) {
        Ok(d) => d,
        Err(e) => {
            proof {
                if wf_node(node@) {
                    assert(false);
                }
            }
            return Err(e);
        },
    };
    proof {
        if wf_node(node@) {
            assert(decoder.spec_data() =~= enc_node(node@));
            assert(decoder.spec_data().subrange(0, enc_node(node@).len() as int)
                =~= decoder.spec_data());
            assert(node_hyp(decoder.spec_data(), 0, node@));
        }
    }
    let out = match decoder.decode() {
        Ok(n) => n,
        Err(e) => {
            proof {
                if wf_node(node@) {
                    assert(false);
                }
            }
            return Err(e);
        },
    };
    Ok(out)
}


/// Strings round-trip through the codec: in particular a nibble- or
/// hex-packed string unpacks to itself, and dictionary and raw forms
/// decode to the string they were written for.
pub fn string_round_trip(s: &String) -> (r: Result<String, Error>)
    ensures
        wf_str(s@) ==> (r matches Ok(out) && out@ == s@),
{
    let mut encoder = crate::encoder::BinaryEncoder::new();
    if let Err(e) = encoder.write_string(s) {
        proof {
            if wf_str(s@) {
                assert(false);
            }
        }
        return Err(e);
    }
    let bytes = encoder.into_buffer();
    let mut decoder = BinaryDecoder { data: bytes, pos: 0 };
    proof {
        if wf_str(s@) {
            assert(decoder.spec_data().subrange(0, enc_str(s@).len() as int)
                =~= decoder.spec_data());
            assert(str_hyp(decoder.spec_data(), 0, s@));
        }
    }
    decoder.read_string()
}

} // verus!
