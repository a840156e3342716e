use vstd::prelude::*;

verus! {

/// The eight little-endian bytes of `u`.
pub open spec fn u64_le(u: u64) -> Seq<u8> {
    seq![
        u as u8,
        (u >> 8u64) as u8,
        (u >> 16u64) as u8,
        (u >> 24u64) as u8,
        (u >> 32u64) as u8,
        (u >> 40u64) as u8,
        (u >> 48u64) as u8,
        (u >> 56u64) as u8,
    ]
}

/// The `u64` whose little-endian bytes start at `pos` in `b`.
pub open spec fn u64_at(b: Seq<u8>, pos: int) -> u64 {
    (b[pos] as u64) | ((b[pos + 1] as u64) << 8u64) | ((b[pos + 2] as u64) << 16u64) | ((b[pos
        + 3] as u64) << 24u64) | ((b[pos + 4] as u64) << 32u64) | ((b[pos + 5] as u64) << 40u64)
        | ((b[pos + 6] as u64) << 48u64) | ((b[pos + 7] as u64) << 56u64)
}

/// The eight little-endian bytes of `v` in two's complement.
pub open spec fn i64_le(v: i64) -> Seq<u8> {
    u64_le(v as u64)
}

pub open spec fn i64_at(b: Seq<u8>, pos: int) -> i64 {
    u64_at(b, pos) as i64
}

pub proof fn lemma_u64_read_write(u: u64, b: Seq<u8>, pos: int)
    requires
        0 <= pos,
        pos + 8 <= b.len(),
        b.subrange(pos, pos + 8) == u64_le(u),
    ensures
        u64_at(b, pos) == u,
{
    assert(b[pos] == b.subrange(pos, pos + 8)[0]);
    assert(b[pos + 1] == b.subrange(pos, pos + 8)[1]);
    assert(b[pos + 2] == b.subrange(pos, pos + 8)[2]);
    assert(b[pos + 3] == b.subrange(pos, pos + 8)[3]);
    assert(b[pos + 4] == b.subrange(pos, pos + 8)[4]);
    assert(b[pos + 5] == b.subrange(pos, pos + 8)[5]);
    assert(b[pos + 6] == b.subrange(pos, pos + 8)[6]);
    assert(b[pos + 7] == b.subrange(pos, pos + 8)[7]);
    let (b0, b1, b2, b3, b4, b5, b6, b7) = (
        b[pos],
        b[pos + 1],
        b[pos + 2],
        b[pos + 3],
        b[pos + 4],
        b[pos + 5],
        b[pos + 6],
        b[pos + 7],
    );
    assert(b0 == u as u8 && b1 == (u >> 8u64) as u8 && b2 == (u >> 16u64) as u8 && b3 == (u
        >> 24u64) as u8 && b4 == (u >> 32u64) as u8 && b5 == (u >> 40u64) as u8 && b6 == (u
        >> 48u64) as u8 && b7 == (u >> 56u64) as u8);
    assert(((b0 as u64) | ((b1 as u64) << 8u64) | ((b2 as u64) << 16u64) | ((b3 as u64) << 24u64)
        | ((b4 as u64) << 32u64) | ((b5 as u64) << 40u64) | ((b6 as u64) << 48u64) | ((b7 as u64)
        << 56u64)) == u) by (bit_vector)
        requires
            b0 == u as u8 && b1 == (u >> 8u64) as u8 && b2 == (u >> 16u64) as u8 && b3 == (u
                >> 24u64) as u8 && b4 == (u >> 32u64) as u8 && b5 == (u >> 40u64) as u8 && b6 == (u
                >> 48u64) as u8 && b7 == (u >> 56u64) as u8,
    ;
}

pub proof fn lemma_u64_write_read(b: Seq<u8>, pos: int)
    requires
        0 <= pos,
        pos + 8 <= b.len(),
    ensures
        u64_le(u64_at(b, pos)) == b.subrange(pos, pos + 8),
{
    let (b0, b1, b2, b3, b4, b5, b6, b7) = (
        b[pos],
        b[pos + 1],
        b[pos + 2],
        b[pos + 3],
        b[pos + 4],
        b[pos + 5],
        b[pos + 6],
        b[pos + 7],
    );
    let u = u64_at(b, pos);
    assert(u == (b0 as u64) | ((b1 as u64) << 8u64) | ((b2 as u64) << 16u64) | ((b3 as u64)
        << 24u64) | ((b4 as u64) << 32u64) | ((b5 as u64) << 40u64) | ((b6 as u64) << 48u64) | ((
    b7 as u64) << 56u64));
    assert(b0 == u as u8 && b1 == (u >> 8u64) as u8 && b2 == (u >> 16u64) as u8 && b3 == (u
        >> 24u64) as u8 && b4 == (u >> 32u64) as u8 && b5 == (u >> 40u64) as u8 && b6 == (u
        >> 48u64) as u8 && b7 == (u >> 56u64) as u8) by (bit_vector)
        requires
            u == (b0 as u64) | ((b1 as u64) << 8u64) | ((b2 as u64) << 16u64) | ((b3 as u64)
                << 24u64) | ((b4 as u64) << 32u64) | ((b5 as u64) << 40u64) | ((b6 as u64)
                << 48u64) | ((b7 as u64) << 56u64),
    ;
    assert(u64_le(u) =~= b.subrange(pos, pos + 8));
}

pub proof fn lemma_i64_read_write(v: i64, b: Seq<u8>, pos: int)
    requires
        0 <= pos,
        pos + 8 <= b.len(),
        b.subrange(pos, pos + 8) == i64_le(v),
    ensures
        i64_at(b, pos) == v,
{
    lemma_u64_read_write(v as u64, b, pos);
    assert((v as u64) as i64 == v) by (bit_vector);
}

pub proof fn lemma_i64_write_read(b: Seq<u8>, pos: int)
    requires
        0 <= pos,
        pos + 8 <= b.len(),
    ensures
        i64_le(i64_at(b, pos)) == b.subrange(pos, pos + 8),
{
    lemma_u64_write_read(b, pos);
    let u = u64_at(b, pos);
    assert((u as i64) as u64 == u) by (bit_vector);
}

/// Appends the little-endian bytes of `u`.
pub fn push_u64(out: &mut Vec<u8>, u: u64)
    ensures
        final(out)@ == old(out)@ + u64_le(u),
{
    out.push(u as u8);
    out.push((u >> 8u64) as u8);
    out.push((u >> 16u64) as u8);
    out.push((u >> 24u64) as u8);
    out.push((u >> 32u64) as u8);
    out.push((u >> 40u64) as u8);
    out.push((u >> 48u64) as u8);
    out.push((u >> 56u64) as u8);
    assert(final(out)@ =~= old(out)@ + u64_le(u));
}

pub fn push_i64(out: &mut Vec<u8>, v: i64)
    ensures
        final(out)@ == old(out)@ + i64_le(v),
{
    push_u64(out, v as u64);
}

pub fn read_u64(b: &[u8], pos: usize) -> (r: u64)
    requires
        pos + 8 <= b@.len(),
    ensures
        r == u64_at(b@, pos as int),
{
    (b[pos] as u64) | ((b[pos + 1] as u64) << 8u64) | ((b[pos + 2] as u64) << 16u64) | ((b[pos
        + 3] as u64) << 24u64) | ((b[pos + 4] as u64) << 32u64) | ((b[pos + 5] as u64) << 40u64)
        | ((b[pos + 6] as u64) << 48u64) | ((b[pos + 7] as u64) << 56u64)
}

pub fn read_i64(b: &[u8], pos: usize) -> (r: i64)
    requires
        pos + 8 <= b@.len(),
    ensures
        r == i64_at(b@, pos as int),
{
    read_u64(b, pos) as i64
}

} // verus!
