//! Fixed-width integer images on the wire.
//!
//! Record fields are length-prefixed byte strings whose length travels as a
//! 64-bit integer in eight little-endian bytes, and collection identifiers
//! carry their name's length in eight big-endian bytes. Both images are
//! defined here as specification functions, together with executable
//! encoders and decoders proved against them.

use vstd::prelude::*;

verus! {

/// The eight-byte little-endian image of a 64-bit integer, least significant
/// byte first.
pub open spec fn le64(n: u64) -> Seq<u8> {
    seq![
        (n & 0xff) as u8,
        ((n >> 8) & 0xff) as u8,
        ((n >> 16) & 0xff) as u8,
        ((n >> 24) & 0xff) as u8,
        ((n >> 32) & 0xff) as u8,
        ((n >> 40) & 0xff) as u8,
        ((n >> 48) & 0xff) as u8,
        ((n >> 56) & 0xff) as u8,
    ]
}

/// The value carried by eight little-endian bytes.
pub open spec fn le64_val(s: Seq<u8>) -> u64
    recommends
        s.len() == 8,
{
    (s[0] as u64) | ((s[1] as u64) << 8) | ((s[2] as u64) << 16) | ((s[3] as u64) << 24)
        | ((s[4] as u64) << 32) | ((s[5] as u64) << 40) | ((s[6] as u64) << 48)
        | ((s[7] as u64) << 56)
}

/// The eight-byte big-endian image of a 64-bit integer, most significant
/// byte first.
pub open spec fn be64(n: u64) -> Seq<u8> {
    seq![
        ((n >> 56) & 0xff) as u8,
        ((n >> 48) & 0xff) as u8,
        ((n >> 40) & 0xff) as u8,
        ((n >> 32) & 0xff) as u8,
        ((n >> 24) & 0xff) as u8,
        ((n >> 16) & 0xff) as u8,
        ((n >> 8) & 0xff) as u8,
        (n & 0xff) as u8,
    ]
}

/// Reading the little-endian image back yields the integer it came from.
pub proof fn lemma_le64_round_trip(n: u64)
    ensures
        le64_val(le64(n)) == n,
{
    let b0 = (n & 0xff) as u8;
    let b1 = ((n >> 8) & 0xff) as u8;
    let b2 = ((n >> 16) & 0xff) as u8;
    let b3 = ((n >> 24) & 0xff) as u8;
    let b4 = ((n >> 32) & 0xff) as u8;
    let b5 = ((n >> 40) & 0xff) as u8;
    let b6 = ((n >> 48) & 0xff) as u8;
    let b7 = ((n >> 56) & 0xff) as u8;
    assert((b0 as u64) | ((b1 as u64) << 8) | ((b2 as u64) << 16) | ((b3 as u64) << 24)
        | ((b4 as u64) << 32) | ((b5 as u64) << 40) | ((b6 as u64) << 48)
        | ((b7 as u64) << 56) == n) by (bit_vector)
        requires
            b0 == (n & 0xff) as u8,
            b1 == ((n >> 8) & 0xff) as u8,
            b2 == ((n >> 16) & 0xff) as u8,
            b3 == ((n >> 24) & 0xff) as u8,
            b4 == ((n >> 32) & 0xff) as u8,
            b5 == ((n >> 40) & 0xff) as u8,
            b6 == ((n >> 48) & 0xff) as u8,
            b7 == ((n >> 56) & 0xff) as u8,
    ;
}

/// Re-encoding the value carried by eight little-endian bytes yields those
/// same bytes.
pub proof fn lemma_le64_canonical(s: Seq<u8>)
    requires
        s.len() == 8,
    ensures
        le64(le64_val(s)) == s,
{
    let b0 = s[0];
    let b1 = s[1];
    let b2 = s[2];
    let b3 = s[3];
    let b4 = s[4];
    let b5 = s[5];
    let b6 = s[6];
    let b7 = s[7];
    let v = le64_val(s);
    assert((v & 0xff) as u8 == b0 && ((v >> 8) & 0xff) as u8 == b1
        && ((v >> 16) & 0xff) as u8 == b2 && ((v >> 24) & 0xff) as u8 == b3
        && ((v >> 32) & 0xff) as u8 == b4 && ((v >> 40) & 0xff) as u8 == b5
        && ((v >> 48) & 0xff) as u8 == b6 && ((v >> 56) & 0xff) as u8 == b7) by (bit_vector)
        requires
            v == (b0 as u64) | ((b1 as u64) << 8) | ((b2 as u64) << 16) | ((b3 as u64) << 24)
                | ((b4 as u64) << 32) | ((b5 as u64) << 40) | ((b6 as u64) << 48)
                | ((b7 as u64) << 56),
    ;
    assert(le64(v) =~= s);
}

/// Two integers with the same big-endian image are the same integer.
pub proof fn lemma_be64_injective(a: u64, b: u64)
    requires
        be64(a) == be64(b),
    ensures
        a == b,
{
    assert(((a >> 56) & 0xff) as u8 == ((b >> 56) & 0xff) as u8 ==> ((a >> 48) & 0xff) as u8
        == ((b >> 48) & 0xff) as u8 ==> ((a >> 40) & 0xff) as u8 == ((b >> 40) & 0xff) as u8
        ==> ((a >> 32) & 0xff) as u8 == ((b >> 32) & 0xff) as u8 ==> ((a >> 24) & 0xff) as u8
        == ((b >> 24) & 0xff) as u8 ==> ((a >> 16) & 0xff) as u8 == ((b >> 16) & 0xff) as u8
        ==> ((a >> 8) & 0xff) as u8 == ((b >> 8) & 0xff) as u8 ==> (a & 0xff) as u8 == (b
        & 0xff) as u8 ==> a == b) by (bit_vector);
    assert(be64(a)[0] == be64(b)[0]);
    assert(be64(a)[1] == be64(b)[1]);
    assert(be64(a)[2] == be64(b)[2]);
    assert(be64(a)[3] == be64(b)[3]);
    assert(be64(a)[4] == be64(b)[4]);
    assert(be64(a)[5] == be64(b)[5]);
    assert(be64(a)[6] == be64(b)[6]);
    assert(be64(a)[7] == be64(b)[7]);
}

/// Appends the little-endian image of `n` to `out`.
pub fn push_le64(out: &mut Vec<u8>, n: u64)
    ensures
        final(out)@ == old(out)@ + le64(n),
{
    out.push((n & 0xff) as u8);
    out.push(((n >> 8) & 0xff) as u8);
    out.push(((n >> 16) & 0xff) as u8);
    out.push(((n >> 24) & 0xff) as u8);
    out.push(((n >> 32) & 0xff) as u8);
    out.push(((n >> 40) & 0xff) as u8);
    out.push(((n >> 48) & 0xff) as u8);
    out.push(((n >> 56) & 0xff) as u8);
    assert(out@ =~= old(out)@ + le64(n));
}

/// Appends the big-endian image of `n` to `out`.
pub fn push_be64(out: &mut Vec<u8>, n: u64)
    ensures
        final(out)@ == old(out)@ + be64(n),
{
    out.push(((n >> 56) & 0xff) as u8);
    out.push(((n >> 48) & 0xff) as u8);
    out.push(((n >> 40) & 0xff) as u8);
    out.push(((n >> 32) & 0xff) as u8);
    out.push(((n >> 24) & 0xff) as u8);
    out.push(((n >> 16) & 0xff) as u8);
    out.push(((n >> 8) & 0xff) as u8);
    out.push((n & 0xff) as u8);
    assert(out@ =~= old(out)@ + be64(n));
}

/// Reads the integer carried by the eight little-endian bytes of `buf`
/// starting at `pos`.
pub fn read_le64(buf: &Vec<u8>, pos: usize) -> (r: u64)
    requires
        pos + 8 <= buf@.len(),
    ensures
        r == le64_val(buf@.subrange(pos as int, pos as int + 8)),
{
    let _len: usize = buf.len();
    let r = (buf[pos] as u64) | ((buf[pos + 1] as u64) << 8) | ((buf[pos + 2] as u64) << 16)
        | ((buf[pos + 3] as u64) << 24) | ((buf[pos + 4] as u64) << 32)
        | ((buf[pos + 5] as u64) << 40) | ((buf[pos + 6] as u64) << 48)
        | ((buf[pos + 7] as u64) << 56);
    proof {
        let s = buf@.subrange(pos as int, pos as int + 8);
        assert(s[0] == buf@[pos as int]);
        assert(s[1] == buf@[pos as int + 1]);
        assert(s[2] == buf@[pos as int + 2]);
        assert(s[3] == buf@[pos as int + 3]);
        assert(s[4] == buf@[pos as int + 4]);
        assert(s[5] == buf@[pos as int + 5]);
        assert(s[6] == buf@[pos as int + 6]);
        assert(s[7] == buf@[pos as int + 7]);
    }
    r
}

} // verus!
