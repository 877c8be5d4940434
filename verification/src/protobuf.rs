//! A small protocol-buffer writer for the handshake and registration
//! messages: varints, varint fields and length-delimited fields, with
//! their exact byte images.

use vstd::prelude::*;

verus! {

/// Little-endian base-128 varint image of a value.
pub open spec fn pb_varint(n: int) -> Seq<u8>
    recommends
        n >= 0,
    decreases n,
{
    if n < 0x80 {
        seq![(if n >= 0 {
            n
        } else {
            0
        }) as u8]
    } else {
        seq![(n % 0x80 + 0x80) as u8] + pb_varint(n / 0x80)
    }
}

/// Field key: field number and wire type packed into one varint.
pub open spec fn pb_key(field: int, wire: int) -> Seq<u8> {
    pb_varint(field * 8 + wire)
}

/// A varint-typed field.
pub open spec fn pb_uint(field: int, n: int) -> Seq<u8> {
    pb_key(field, 0) + pb_varint(n)
}

/// A length-delimited field: nested messages, byte strings and text.
pub open spec fn pb_bytes(field: int, b: Seq<u8>) -> Seq<u8> {
    pb_key(field, 2) + pb_varint(b.len() as int) + b
}

/// Varint images are short: one byte per seven bits.
pub proof fn lemma_pb_varint_len(n: int)
    requires
        0 <= n,
    ensures
        pb_varint(n).len() >= 1,
        n < 0x80 ==> pb_varint(n).len() == 1,
        n < 0x4000 ==> pb_varint(n).len() <= 2,
        n < 0x20_0000 ==> pb_varint(n).len() <= 3,
        n < 0x1000_0000 ==> pb_varint(n).len() <= 4,
        n < 0x8_0000_0000 ==> pb_varint(n).len() <= 5,
    decreases n,
{
    if n >= 0x80 {
        lemma_pb_varint_len(n / 0x80);
    }
}

/// A varint field of a small field number and a 35-bit value takes at
/// most 7 bytes.
pub proof fn lemma_pb_uint_len(field: int, n: int)
    requires
        0 <= field < 0x400,
        0 <= n < 0x8_0000_0000,
    ensures
        pb_uint(field, n).len() <= 7,
{
    lemma_pb_varint_len(field * 8);
    lemma_pb_varint_len(n);
}

/// A length-delimited field of a small field number adds at most 5 bytes
/// around its body.
pub proof fn lemma_pb_bytes_len(field: int, b: Seq<u8>)
    requires
        0 <= field < 0x400,
        b.len() < 0x20_0000,
    ensures
        pb_bytes(field, b).len() <= b.len() + 5,
{
    lemma_pb_varint_len(field * 8 + 2);
    lemma_pb_varint_len(b.len() as int);
}

/// Appends the varint image of `n`.
pub fn write_varint(out: &mut Vec<u8>, n: u64)
    ensures
        final(out)@ == old(out)@ + pb_varint(n as int),
    decreases n,
{
    if n < 0x80 {
        out.push(n as u8);
        proof {
            assert(final(out)@ =~= old(out)@ + pb_varint(n as int));
        }
    } else {
        out.push((n % 0x80 + 0x80) as u8);
        write_varint(out, n / 0x80);
        proof {
            assert(final(out)@ =~= old(out)@ + pb_varint(n as int));
        }
    }
}

/// Appends a field key.
pub fn write_key(out: &mut Vec<u8>, field: u32, wire: u32)
    requires
        field < 0x1000_0000,
        wire < 8,
    ensures
        final(out)@ == old(out)@ + pb_key(field as int, wire as int),
{
    write_varint(out, field as u64 * 8 + wire as u64);
}

/// Appends a varint-typed field.
pub fn write_uint_field(out: &mut Vec<u8>, field: u32, n: u64)
    requires
        field < 0x1000_0000,
    ensures
        final(out)@ == old(out)@ + pb_uint(field as int, n as int),
{
    write_key(out, field, 0);
    write_varint(out, n);
    proof {
        assert(final(out)@ =~= old(out)@ + pb_uint(field as int, n as int));
    }
}

/// Appends a length-delimited field.
pub fn write_bytes_field(out: &mut Vec<u8>, field: u32, b: &Vec<u8>)
    requires
        field < 0x1000_0000,
    ensures
        final(out)@ == old(out)@ + pb_bytes(field as int, b@),
{
    write_key(out, field, 2);
    write_varint(out, b.len() as u64);
    out.extend_from_slice(b.as_slice());
    proof {
        assert(final(out)@ =~= old(out)@ + pb_bytes(field as int, b@));
    }
}

/// Appends a text field with the bytes of a string.
pub fn write_str_field(out: &mut Vec<u8>, field: u32, s: &str)
    requires
        field < 0x1000_0000,
    ensures
        final(out)@ == old(out)@ + pb_bytes(field as int, vstd::utf8::encode_utf8(s@)),
{
    let b = s.as_bytes_vec();
    write_bytes_field(out, field, &b)
}

} // verus!
