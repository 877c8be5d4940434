//! Big-endian integer layouts shared by the frame transport and the codec.

use vstd::prelude::*;

verus! {

/// Big-endian bytes of a 16-bit value.
pub open spec fn spec_be16(n: int) -> Seq<u8>
    recommends
        0 <= n < 0x10000,
{
    seq![(n / 0x100) as u8, (n % 0x100) as u8]
}

/// Value of two big-endian bytes.
pub open spec fn be16_val(s: Seq<u8>) -> int
    recommends
        s.len() >= 2,
{
    s[0] * 0x100 + s[1]
}

/// Big-endian bytes of a 24-bit value.
pub open spec fn spec_be24(n: int) -> Seq<u8>
    recommends
        0 <= n < 0x1000000,
{
    seq![(n / 0x10000) as u8, ((n / 0x100) % 0x100) as u8, (n % 0x100) as u8]
}

/// Value of three big-endian bytes.
pub open spec fn be24_val(s: Seq<u8>) -> int
    recommends
        s.len() >= 3,
{
    s[0] * 0x10000 + s[1] * 0x100 + s[2]
}

/// Big-endian bytes of a 32-bit value.
pub open spec fn spec_be32(n: int) -> Seq<u8>
    recommends
        0 <= n < 0x100000000,
{
    seq![
        (n / 0x1000000) as u8,
        ((n / 0x10000) % 0x100) as u8,
        ((n / 0x100) % 0x100) as u8,
        (n % 0x100) as u8,
    ]
}

/// Reading back the big-endian bytes of a 16-bit value gives the value.
pub proof fn lemma_be16_roundtrip(n: int)
    requires
        0 <= n < 0x10000,
    ensures
        spec_be16(n).len() == 2,
        be16_val(spec_be16(n)) == n,
{
    assert((n / 0x100) * 0x100 + n % 0x100 == n) by (nonlinear_arith)
        requires 0 <= n < 0x10000;
    assert(0 <= n / 0x100 < 0x100) by (nonlinear_arith)
        requires 0 <= n < 0x10000;
}

/// Reading back the big-endian bytes of a 24-bit value gives the value.
pub proof fn lemma_be24_roundtrip(n: int)
    requires
        0 <= n < 0x1000000,
    ensures
        spec_be24(n).len() == 3,
        be24_val(spec_be24(n)) == n,
{
    assert((n / 0x10000) * 0x10000 + ((n / 0x100) % 0x100) * 0x100 + n % 0x100 == n)
        by (nonlinear_arith)
        requires 0 <= n < 0x1000000;
    assert(0 <= n / 0x10000 < 0x100) by (nonlinear_arith)
        requires 0 <= n < 0x1000000;
}

/// Value of four big-endian bytes.
pub open spec fn be32_val(s: Seq<u8>) -> int
    recommends
        s.len() >= 4,
{
    s[0] * 0x1000000 + s[1] * 0x10000 + s[2] * 0x100 + s[3]
}

/// Reading back the big-endian bytes of a 32-bit value gives the value.
pub proof fn lemma_be32_roundtrip(n: int)
    requires
        0 <= n < 0x100000000,
    ensures
        spec_be32(n).len() == 4,
        be32_val(spec_be32(n)) == n,
{
    assert((n / 0x1000000) * 0x1000000 + ((n / 0x10000) % 0x100) * 0x10000 + ((n / 0x100) % 0x100)
        * 0x100 + n % 0x100 == n) by (nonlinear_arith)
        requires 0 <= n < 0x100000000;
    assert(0 <= n / 0x1000000 < 0x100) by (nonlinear_arith)
        requires 0 <= n < 0x100000000;
}

/// Reads the 32-bit value of four big-endian bytes.
pub fn read_be32(b0: u8, b1: u8, b2: u8, b3: u8) -> (n: u32)
    ensures
        n == be32_val(seq![b0, b1, b2, b3]),
{
    b0 as u32 * 0x1000000 + b1 as u32 * 0x10000 + b2 as u32 * 0x100 + b3 as u32
}

/// Writes a 16-bit value as two big-endian bytes.
pub fn push_be16(out: &mut Vec<u8>, n: u16)
    ensures
        final(out)@ == old(out)@ + spec_be16(n as int),
{
    out.push((n / 0x100) as u8);
    out.push((n % 0x100) as u8);
    assert(out@ =~= old(out)@ + spec_be16(n as int));
}

/// Writes a 24-bit value as three big-endian bytes.
pub fn push_be24(out: &mut Vec<u8>, n: u32)
    requires
        n < 0x1000000,
    ensures
        final(out)@ == old(out)@ + spec_be24(n as int),
{
    out.push((n / 0x10000) as u8);
    out.push((n / 0x100 % 0x100) as u8);
    out.push((n % 0x100) as u8);
    assert(out@ =~= old(out)@ + spec_be24(n as int));
}

/// Writes a 32-bit value as four big-endian bytes.
pub fn push_be32(out: &mut Vec<u8>, n: u32)
    ensures
        final(out)@ == old(out)@ + spec_be32(n as int),
{
    out.push((n / 0x1000000) as u8);
    out.push((n / 0x10000 % 0x100) as u8);
    out.push((n / 0x100 % 0x100) as u8);
    out.push((n % 0x100) as u8);
    assert(out@ =~= old(out)@ + spec_be32(n as int));
}

/// Reads the 16-bit value of two big-endian bytes.
pub fn read_be16(b0: u8, b1: u8) -> (n: u16)
    ensures
        n == be16_val(seq![b0, b1]),
{
    b0 as u16 * 0x100 + b1 as u16
}

/// Reads the 24-bit value of three big-endian bytes.
pub fn read_be24(b0: u8, b1: u8, b2: u8) -> (n: u32)
    ensures
        n == be24_val(seq![b0, b1, b2]),
        n < 0x1000000,
{
    b0 as u32 * 0x10000 + b1 as u32 * 0x100 + b2 as u32
}

} // verus!
