use vstd::prelude::*;
use crate::errors::Error;

verus! {

// Fixed-width big-endian integer fields, shared by every part of the codec.

/// The two big-endian bytes of a 16-bit field.
pub open spec fn u16_bytes(v: u16) -> Seq<u8> {
    seq![(v >> 8) as u8, (v & 0xff) as u8]
}

/// The 16-bit value read from two big-endian bytes.
pub open spec fn u16_of(hi: u8, lo: u8) -> u16 {
    (((hi as u16) << 8) | (lo as u16)) as u16
}

/// The four big-endian bytes of a 32-bit field.
pub open spec fn u32_bytes(v: u32) -> Seq<u8> {
    seq![
        (v >> 24) as u8,
        ((v >> 16) & 0xff) as u8,
        ((v >> 8) & 0xff) as u8,
        (v & 0xff) as u8,
    ]
}

/// The 32-bit value read from four big-endian bytes.
pub open spec fn u32_of(b0: u8, b1: u8, b2: u8, b3: u8) -> u32 {
    (((b0 as u32) << 24) | ((b1 as u32) << 16) | ((b2 as u32) << 8) | (b3 as u32)) as u32
}

/// Reading back the two bytes of a 16-bit field restores the value.
pub proof fn lemma_u16_roundtrip(v: u16)
    ensures
        u16_of((v >> 8) as u8, (v & 0xff) as u8) == v,
{
    assert(((((v >> 8) as u8) as u16) << 8 | (((v & 0xff) as u8) as u16)) as u16 == v)
        by (bit_vector);
}

/// Re-encoding the value read from two bytes restores the bytes.
pub proof fn lemma_u16_bytes_of(hi: u8, lo: u8)
    ensures
        u16_bytes(u16_of(hi, lo)) == seq![hi, lo],
{
    let v = u16_of(hi, lo);
    assert(((((hi as u16) << 8 | (lo as u16)) as u16) >> 8) as u8 == hi) by (bit_vector);
    assert(((((hi as u16) << 8 | (lo as u16)) as u16) & 0xff) as u8 == lo) by (bit_vector);
    assert(u16_bytes(v) =~= seq![hi, lo]);
}

/// Reading back the four bytes of a 32-bit field restores the value.
pub proof fn lemma_u32_roundtrip(v: u32)
    ensures
        u32_of((v >> 24) as u8, ((v >> 16) & 0xff) as u8, ((v >> 8) & 0xff) as u8, (v & 0xff) as u8)
            == v,
{
    assert(((((v >> 24) as u8) as u32) << 24 | ((((v >> 16) & 0xff) as u8) as u32) << 16
        | ((((v >> 8) & 0xff) as u8) as u32) << 8 | (((v & 0xff) as u8) as u32)) as u32 == v)
        by (bit_vector);
}

/// Appends all of `b` to `msg`.
pub fn append_bytes(msg: Vec<u8>, b: &[u8]) -> (r: Vec<u8>)
    ensures
        r@ == msg@ + b@,
{
    let mut m = msg;
    let ghost start = m@;
    for i in 0..b.len()
        invariant
            m@ == start + b@.subrange(0, i as int),
    {
        m.push(b[i]);
        proof {
            assert(m@ =~= start + b@.subrange(0, i + 1 as int));
        }
    }
    proof {
        assert(m@ =~= start + b@);
    }
    m
}

/// Appends a 16-bit field in big-endian order.
pub fn pack_uint16(msg: Vec<u8>, v: u16) -> (r: Vec<u8>)
    ensures
        r@ == msg@ + u16_bytes(v),
{
    let mut m = msg;
    let ghost start = m@;
    proof {
        assert(v >> 8 <= 0xff) by (bit_vector);
    }
    m.push((v >> 8) as u8);
    m.push((v & 0xff) as u8);
    proof {
        assert(m@ =~= start + u16_bytes(v));
    }
    m
}

/// Appends a 32-bit field in big-endian order.
pub fn pack_uint32(msg: Vec<u8>, v: u32) -> (r: Vec<u8>)
    ensures
        r@ == msg@ + u32_bytes(v),
{
    let mut m = msg;
    let ghost start = m@;
    proof {
        assert(v >> 24 <= 0xff) by (bit_vector);
    }
    m.push((v >> 24) as u8);
    m.push(((v >> 16) & 0xff) as u8);
    m.push(((v >> 8) & 0xff) as u8);
    m.push((v & 0xff) as u8);
    proof {
        assert(m@ =~= start + u32_bytes(v));
    }
    m
}

/// Reads a big-endian 16-bit field, returning the value and the offset past it.
pub fn unpack_uint16(msg: &[u8], off: usize) -> (r: Result<(u16, usize), Error>)
    ensures
        off + 2 <= msg@.len() ==> (r matches Ok(q) && q.0 == u16_of(
            msg@[off as int],
            msg@[off + 1],
        ) && q.1 == off + 2),
        off + 2 > msg@.len() ==> r == Err::<(u16, usize), Error>(Error::BufferTooSmall),
{
    if msg.len() < 2 || off > msg.len() - 2 {
        return Err(Error::BufferTooSmall);
    }
    let hi = msg[off];
    let lo = msg[off + 1];
    Ok((((hi as u16) << 8) | (lo as u16), off + 2))
}

/// Reads a big-endian 32-bit field, returning the value and the offset past it.
pub fn unpack_uint32(msg: &[u8], off: usize) -> (r: Result<(u32, usize), Error>)
    ensures
        off + 4 <= msg@.len() ==> (r matches Ok(q) && q.0 == u32_of(
            msg@[off as int],
            msg@[off + 1],
            msg@[off + 2],
            msg@[off + 3],
        ) && q.1 == off + 4),
        off + 4 > msg@.len() ==> r == Err::<(u32, usize), Error>(Error::BufferTooSmall),
{
    if msg.len() < 4 || off > msg.len() - 4 {
        return Err(Error::BufferTooSmall);
    }
    let b0 = msg[off];
    let b1 = msg[off + 1];
    let b2 = msg[off + 2];
    let b3 = msg[off + 3];
    Ok((((b0 as u32) << 24) | ((b1 as u32) << 16) | ((b2 as u32) << 8) | (b3 as u32), off + 4))
}

/// Advances past a 32-bit field without reading it.
pub fn skip_uint32(msg: &[u8], off: usize) -> (r: Result<usize, Error>)
    ensures
        off + 4 <= msg@.len() ==> (r matches Ok(e) && e == off + 4),
        off + 4 > msg@.len() ==> r == Err::<usize, Error>(Error::BufferTooSmall),
{
    if msg.len() < 4 || off > msg.len() - 4 {
        return Err(Error::BufferTooSmall);
    }
    Ok(off + 4)
}

/// Copies `n` bytes of `msg` starting at `off` into a fresh vector.
pub fn read_bytes(msg: &[u8], off: usize, n: usize) -> (r: Vec<u8>)
    requires
        off + n <= msg@.len(),
    ensures
        r@ == msg@.subrange(off as int, off + n),
{
    let mut out: Vec<u8> = Vec::new();
    let ml = msg.len();
    let mut i: usize = 0;
    while i < n
        invariant
            i <= n,
            ml == msg@.len(),
            off + n <= ml,
            out@ == msg@.subrange(off as int, off + i),
        decreases n - i,
    {
        out.push(msg[off + i]);
        proof {
            assert(out@ =~= msg@.subrange(off as int, off + i + 1));
        }
        i += 1;
    }
    out
}

/// A buffer that preserves a prefix preserves that prefix's first twelve
/// bytes.
pub proof fn lemma_prefix12(a: Seq<u8>, b: Seq<u8>)
    requires
        a.len() >= 12,
        b.len() >= a.len(),
        b.subrange(0, a.len() as int) == a,
    ensures
        b.subrange(0, 12) == a.subrange(0, 12),
{
    assert(b.subrange(0, 12) =~= a.subrange(0, 12)) by {
        assert forall|k: int| 0 <= k < 12 implies b[k] == a[k] by {
            assert(b.subrange(0, a.len() as int)[k] == b[k]);
        }
    }
}

} // verus!
