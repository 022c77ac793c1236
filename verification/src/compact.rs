//! The compact length codec used by the Tight encoding: a nonnegative
//! length below 2^22 is framed in 1, 2 or 3 bytes, seven value bits per
//! byte, the high bit of a byte marking that another byte follows.

use vstd::prelude::*;

verus! {

/// The bytes of the compact encoding of `n`.
pub open spec fn compact_bytes(n: int) -> Seq<u8> {
    if n < 128 {
        seq![n as u8]
    } else if n < 16384 {
        seq![(n % 128 + 128) as u8, (n / 128) as u8]
    } else {
        seq![(n % 128 + 128) as u8, ((n / 128) % 128 + 128) as u8, (n / 16384) as u8]
    }
}

/// The value a compact-length byte string denotes, when it is exactly one
/// well-formed encoding.
pub open spec fn compact_decode(s: Seq<u8>) -> Option<int> {
    if s.len() == 1 && s[0] < 128 {
        Some(s[0] as int)
    } else if s.len() == 2 && s[0] >= 128 && s[1] < 128 {
        Some((s[0] - 128) + 128 * (s[1] as int))
    } else if s.len() == 3 && s[0] >= 128 && s[1] >= 128 {
        Some((s[0] - 128) + 128 * (s[1] - 128) + 16384 * (s[2] as int))
    } else {
        None
    }
}

/// Decoding a compact length returns the length that was encoded, for every
/// length the codec admits.
pub proof fn lemma_compact_round_trip(n: int)
    requires
        0 <= n < 0x400000,
    ensures
        compact_decode(compact_bytes(n)) == Some(n),
{
    if n < 128 {
    } else if n < 16384 {
        assert(n % 128 + 128 * (n / 128) == n) by (nonlinear_arith)
            requires
                n >= 0,
        ;
    } else {
        assert(n % 128 + 128 * (n / 128) == n) by (nonlinear_arith)
            requires
                n >= 0,
        ;
        assert((n / 128) % 128 + 128 * ((n / 128) / 128) == n / 128) by (nonlinear_arith)
            requires
                n >= 0,
        ;
        assert((n / 128) / 128 == n / 16384) by (nonlinear_arith)
            requires
                n >= 0,
        ;
        assert(n / 16384 < 256);
    }
}

/// Appends the compact encoding of `len` to `buf`.
pub fn write_compact_length(buf: &mut Vec<u8>, len: usize)
    requires
        len < 0x400000,
    ensures
        final(buf)@ == old(buf)@ + compact_bytes(len as int),
{
    if len < 128 {
        buf.push(len as u8);
    } else if len < 16384 {
        buf.push((len % 128 + 128) as u8);
        buf.push((len / 128) as u8);
    } else {
        buf.push((len % 128 + 128) as u8);
        buf.push(((len / 128) % 128 + 128) as u8);
        buf.push((len / 16384) as u8);
    }
    assert(buf@ =~= old(buf)@ + compact_bytes(len as int));
}

/// The compact encoding of `n`, as its own buffer.
pub fn encode_compact(n: u32) -> (r: Vec<u8>)
    requires
        n < 0x400000,
    ensures
        r@ == compact_bytes(n as int),
{
    let mut out: Vec<u8> = Vec::new();
    write_compact_length(&mut out, n as usize);
    out
}

/// Reads back a compact length that fills `data` exactly; `None` when the
/// bytes are not one whole encoding.
pub fn decode_compact(data: &[u8]) -> (r: Option<u32>)
    ensures
        r is Some <==> compact_decode(data@) is Some,
        r is Some ==> r.unwrap() as int == compact_decode(data@).unwrap(),
{
    if data.len() == 1 && data[0] < 128 {
        Some(data[0] as u32)
    } else if data.len() == 2 && data[0] >= 128 && data[1] < 128 {
        Some((data[0] as u32 - 128) + 128 * (data[1] as u32))
    } else if data.len() == 3 && data[0] >= 128 && data[1] >= 128 {
        Some((data[0] as u32 - 128) + 128 * (data[1] as u32 - 128) + 16384 * (data[2] as u32))
    } else {
        None
    }
}

} // verus!
