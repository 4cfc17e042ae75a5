//! Primitive big-endian writers on a growable byte buffer and readers on a
//! cursor position, together with the lemmas that make decoding invert
//! encoding.
use vstd::prelude::*;

verus! {

// ---------------------------------------------------------------------------
// Specification of the encodings
// ---------------------------------------------------------------------------
/// Big-endian bytes of a 32-bit integer.
pub open spec fn enc_u32(v: u32) -> Seq<u8> {
    seq![
        (v / 0x100_0000 % 256) as u8,
        (v / 0x1_0000 % 256) as u8,
        (v / 0x100 % 256) as u8,
        (v % 256) as u8,
    ]
}

/// Big-endian bytes of a 64-bit integer.
pub open spec fn enc_u64(v: u64) -> Seq<u8> {
    seq![
        (v / 0x100_0000_0000_0000 % 256) as u8,
        (v / 0x1_0000_0000_0000 % 256) as u8,
        (v / 0x100_0000_0000 % 256) as u8,
        (v / 0x1_0000_0000 % 256) as u8,
        (v / 0x100_0000 % 256) as u8,
        (v / 0x1_0000 % 256) as u8,
        (v / 0x100 % 256) as u8,
        (v % 256) as u8,
    ]
}

/// Big-endian bytes of a signed 64-bit integer (two's complement).
pub open spec fn enc_i64(v: i64) -> Seq<u8> {
    enc_u64(v as u64)
}

/// Length-prefixed bytes: a 32-bit length, then the bytes themselves.
pub open spec fn enc_var_bytes(b: Seq<u8>) -> Seq<u8> {
    enc_u32(b.len() as u32) + b
}

/// The 32-bit integer held big-endian at position `i`.
pub open spec fn be_u32_at(s: Seq<u8>, i: int) -> u32 {
    ((s[i] as int) * 0x100_0000 + (s[i + 1] as int) * 0x1_0000 + (s[i + 2] as int) * 0x100 + (s[i
        + 3] as int)) as u32
}

/// The 64-bit integer held big-endian at position `i`.
pub open spec fn be_u64_at(s: Seq<u8>, i: int) -> u64 {
    ((s[i] as int) * 0x100_0000_0000_0000 + (s[i + 1] as int) * 0x1_0000_0000_0000 + (s[i
        + 2] as int) * 0x100_0000_0000 + (s[i + 3] as int) * 0x1_0000_0000 + (s[i
        + 4] as int) * 0x100_0000 + (s[i + 5] as int) * 0x1_0000 + (s[i + 6] as int) * 0x100 + (s[i
        + 7] as int)) as u64
}

// ---------------------------------------------------------------------------
// Round-trip lemmas for the primitives
// ---------------------------------------------------------------------------
/// Reading four big-endian bytes back gives the encoded integer.
pub proof fn lemma_dec_u32(s: Seq<u8>, i: int, v: u32)
    requires
        0 <= i,
        i + 4 <= s.len(),
        s.subrange(i, i + 4) == enc_u32(v),
    ensures
        be_u32_at(s, i) == v,
{
    assert(s[i] == enc_u32(v)[0]);
    assert(s[i + 1] == enc_u32(v)[1]);
    assert(s[i + 2] == enc_u32(v)[2]);
    assert(s[i + 3] == enc_u32(v)[3]);
    assert((v / 0x100_0000 % 256) * 0x100_0000 + (v / 0x1_0000 % 256) * 0x1_0000 + (v / 0x100 % 256)
        * 0x100 + v % 256 == v) by (bit_vector);
}

/// Reading eight big-endian bytes back gives the encoded integer.
pub proof fn lemma_dec_u64(s: Seq<u8>, i: int, v: u64)
    requires
        0 <= i,
        i + 8 <= s.len(),
        s.subrange(i, i + 8) == enc_u64(v),
    ensures
        be_u64_at(s, i) == v,
{
    assert(s[i] == enc_u64(v)[0]);
    assert(s[i + 1] == enc_u64(v)[1]);
    assert(s[i + 2] == enc_u64(v)[2]);
    assert(s[i + 3] == enc_u64(v)[3]);
    assert(s[i + 4] == enc_u64(v)[4]);
    assert(s[i + 5] == enc_u64(v)[5]);
    assert(s[i + 6] == enc_u64(v)[6]);
    assert(s[i + 7] == enc_u64(v)[7]);
    assert((v / 0x100_0000_0000_0000 % 256) * 0x100_0000_0000_0000 + (v / 0x1_0000_0000_0000 % 256)
        * 0x1_0000_0000_0000 + (v / 0x100_0000_0000 % 256) * 0x100_0000_0000 + (v / 0x1_0000_0000
        % 256) * 0x1_0000_0000 + (v / 0x100_0000 % 256) * 0x100_0000 + (v / 0x1_0000 % 256)
        * 0x1_0000 + (v / 0x100 % 256) * 0x100 + v % 256 == v) by (bit_vector);
}

/// A signed 64-bit value survives the unsigned detour.
pub proof fn lemma_i64_u64_round_trip(v: i64)
    ensures
        (v as u64) as i64 == v,
{
    assert((v as u64) as i64 == v) by (bit_vector);
}

// ---------------------------------------------------------------------------
// Executable writers
// ---------------------------------------------------------------------------
/// Appends all bytes of `b`.
pub fn push_slice(buf: &mut Vec<u8>, b: &[u8])
    ensures
        final(buf)@ == old(buf)@ + b@,
{
    let mut i: usize = 0;
    while i < b.len()
        invariant
            i <= b@.len(),
            buf@ == old(buf)@ + b@.take(i as int),
        decreases b@.len() - i,
    {
        buf.push(b[i]);
        proof {
            assert(old(buf)@ + b@.take(i + 1) =~= (old(buf)@ + b@.take(i as int)).push(b@[i as int]));
        }
        i += 1;
    }
    proof {
        assert(b@.take(b@.len() as int) =~= b@);
    }
}

/// Appends a 32-bit integer, big-endian.
pub fn push_u32(buf: &mut Vec<u8>, v: u32)
    ensures
        final(buf)@ == old(buf)@ + enc_u32(v),
{
    buf.push((v / 0x100_0000 % 256) as u8);
    buf.push((v / 0x1_0000 % 256) as u8);
    buf.push((v / 0x100 % 256) as u8);
    buf.push((v % 256) as u8);
    proof {
        assert(buf@ =~= old(buf)@ + enc_u32(v));
    }
}

/// Appends a 64-bit integer, big-endian.
pub fn push_u64(buf: &mut Vec<u8>, v: u64)
    ensures
        final(buf)@ == old(buf)@ + enc_u64(v),
{
    buf.push((v / 0x100_0000_0000_0000 % 256) as u8);
    buf.push((v / 0x1_0000_0000_0000 % 256) as u8);
    buf.push((v / 0x100_0000_0000 % 256) as u8);
    buf.push((v / 0x1_0000_0000 % 256) as u8);
    buf.push((v / 0x100_0000 % 256) as u8);
    buf.push((v / 0x1_0000 % 256) as u8);
    buf.push((v / 0x100 % 256) as u8);
    buf.push((v % 256) as u8);
    proof {
        assert(buf@ =~= old(buf)@ + enc_u64(v));
    }
}

/// Appends a signed 64-bit integer, big-endian two's complement.
pub fn push_i64(buf: &mut Vec<u8>, v: i64)
    ensures
        final(buf)@ == old(buf)@ + enc_i64(v),
{
    proof {
        assert((v as u64) / 0x100_0000_0000_0000 % 256 < 256) by (bit_vector);
    }
    push_u64(buf, v as u64);
}

/// Appends length-prefixed bytes.
pub fn push_var_bytes(buf: &mut Vec<u8>, b: &[u8])
    requires
        b@.len() <= u32::MAX,
    ensures
        final(buf)@ == old(buf)@ + enc_var_bytes(b@),
{
    push_u32(buf, b.len() as u32);
    push_slice(buf, b);
    proof {
        assert(buf@ =~= old(buf)@ + enc_var_bytes(b@));
    }
}

// ---------------------------------------------------------------------------
// Executable readers
// ---------------------------------------------------------------------------
/// Reads one byte.
pub fn read_u8(buf: &[u8], pos: usize) -> (r: Option<(u8, usize)>)
    ensures
        match r {
            Some((v, n)) => pos + 1 <= buf@.len() && n == pos + 1 && v == buf@[pos as int],
            None => pos + 1 > buf@.len(),
        },
{
    if pos < buf.len() {
        Some((buf[pos], pos + 1))
    } else {
        None
    }
}

/// Reads a 32-bit big-endian integer.
pub fn read_u32(buf: &[u8], pos: usize) -> (r: Option<(u32, usize)>)
    ensures
        match r {
            Some((v, n)) => pos + 4 <= buf@.len() && n == pos + 4 && v == be_u32_at(buf@, pos as int),
            None => pos + 4 > buf@.len(),
        },
{
    if buf.len() >= 4 && pos <= buf.len() - 4 {
        let v: u32 = (buf[pos] as u32) * 0x100_0000 + (buf[pos + 1] as u32) * 0x1_0000 + (buf[pos
            + 2] as u32) * 0x100 + (buf[pos + 3] as u32);
        Some((v, pos + 4))
    } else {
        None
    }
}

/// Reads a 64-bit big-endian integer.
pub fn read_u64(buf: &[u8], pos: usize) -> (r: Option<(u64, usize)>)
    ensures
        match r {
            Some((v, n)) => pos + 8 <= buf@.len() && n == pos + 8 && v == be_u64_at(buf@, pos as int),
            None => pos + 8 > buf@.len(),
        },
{
    if buf.len() >= 8 && pos <= buf.len() - 8 {
        let v: u64 = (buf[pos] as u64) * 0x100_0000_0000_0000 + (buf[pos + 1] as u64)
            * 0x1_0000_0000_0000 + (buf[pos + 2] as u64) * 0x100_0000_0000 + (buf[pos + 3] as u64)
            * 0x1_0000_0000 + (buf[pos + 4] as u64) * 0x100_0000 + (buf[pos + 5] as u64) * 0x1_0000
            + (buf[pos + 6] as u64) * 0x100 + (buf[pos + 7] as u64);
        Some((v, pos + 8))
    } else {
        None
    }
}

/// Reads a signed 64-bit big-endian integer.
pub fn read_i64(buf: &[u8], pos: usize) -> (r: Option<(i64, usize)>)
    ensures
        match r {
            Some((v, n)) => pos + 8 <= buf@.len() && n == pos + 8 && v == be_u64_at(
                buf@,
                pos as int,
            ) as i64,
            None => pos + 8 > buf@.len(),
        },
{
    match read_u64(buf, pos) {
        Some((v, n)) => Some((v as i64, n)),
        None => None,
    }
}

/// Reads exactly `k` raw bytes.
pub fn read_exact(buf: &[u8], pos: usize, k: usize) -> (r: Option<(Vec<u8>, usize)>)
    ensures
        match r {
            Some((v, n)) => pos + k <= buf@.len() && n == pos + k && v@ == buf@.subrange(
                pos as int,
                pos + k,
            ),
            None => pos + k > buf@.len(),
        },
{
    if k <= buf.len() && pos <= buf.len() - k {
        let s = vstd::slice::slice_subrange(buf, pos, pos + k);
        Some((vstd::slice::slice_to_vec(s), pos + k))
    } else {
        None
    }
}

} // verus!
