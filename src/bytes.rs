//! Positioned little- and big-endian reads over an in-memory buffer.
use vstd::prelude::*;
use crate::error::PpmError;

verus! {

/// The little-endian `u16` stored at `p`.
pub open spec fn le16(d: Seq<u8>, p: int) -> u16 {
    (d[p] as int + d[p + 1] as int * 256) as u16
}

/// The little-endian `u32` stored at `p`.
pub open spec fn le32(d: Seq<u8>, p: int) -> u32 {
    (d[p] as int + d[p + 1] as int * 256 + d[p + 2] as int * 65536 + d[p + 3] as int
        * 16777216) as u32
}

/// The big-endian `u32` stored at `p`.
pub open spec fn be32(d: Seq<u8>, p: int) -> u32 {
    (d[p] as int * 16777216 + d[p + 1] as int * 65536 + d[p + 2] as int * 256 + d[p
        + 3] as int) as u32
}

/// True when `n` bytes starting at `p` lie inside `d`.
pub open spec fn fits(d: Seq<u8>, p: int, n: int) -> bool {
    0 <= p && 0 <= n && p + n <= d.len()
}

pub fn read_u8(d: &Vec<u8>, pos: usize) -> (r: Result<u8, PpmError>)
    ensures
        fits(d@, pos as int, 1) ==> r == Ok::<u8, PpmError>(d@[pos as int]),
        !fits(d@, pos as int, 1) ==> r == Err::<u8, PpmError>(PpmError::Truncated),
{
    if pos < d.len() {
        Ok(d[pos])
    } else {
        Err(PpmError::Truncated)
    }
}

pub fn read_u16_le(d: &Vec<u8>, pos: usize) -> (r: Result<u16, PpmError>)
    ensures
        fits(d@, pos as int, 2) ==> r == Ok::<u16, PpmError>(le16(d@, pos as int)),
        !fits(d@, pos as int, 2) ==> r == Err::<u16, PpmError>(PpmError::Truncated),
{
    if pos < d.len() && d.len() - pos >= 2 {
        Ok(d[pos] as u16 + d[pos + 1] as u16 * 256)
    } else {
        Err(PpmError::Truncated)
    }
}

pub fn read_u32_le(d: &Vec<u8>, pos: usize) -> (r: Result<u32, PpmError>)
    ensures
        fits(d@, pos as int, 4) ==> r == Ok::<u32, PpmError>(le32(d@, pos as int)),
        !fits(d@, pos as int, 4) ==> r == Err::<u32, PpmError>(PpmError::Truncated),
{
    if pos < d.len() && d.len() - pos >= 4 {
        Ok(d[pos] as u32 + d[pos + 1] as u32 * 256 + d[pos + 2] as u32 * 65536 + d[pos + 3] as u32
            * 16777216)
    } else {
        Err(PpmError::Truncated)
    }
}

pub fn read_u32_be(d: &Vec<u8>, pos: usize) -> (r: Result<u32, PpmError>)
    ensures
        fits(d@, pos as int, 4) ==> r == Ok::<u32, PpmError>(be32(d@, pos as int)),
        !fits(d@, pos as int, 4) ==> r == Err::<u32, PpmError>(PpmError::Truncated),
{
    if pos < d.len() && d.len() - pos >= 4 {
        Ok(d[pos] as u32 * 16777216 + d[pos + 1] as u32 * 65536 + d[pos + 2] as u32 * 256
            + d[pos + 3] as u32)
    } else {
        Err(PpmError::Truncated)
    }
}

/// Copies the `n` bytes that start at `pos`.
pub fn read_n_to_vec(stream: &Vec<u8>, pos: usize, n: usize) -> (r: Result<Vec<u8>, PpmError>)
    ensures
        fits(stream@, pos as int, n as int) ==> r is Ok && r->Ok_0@ == stream@.subrange(
            pos as int,
            pos + n,
        ),
        !fits(stream@, pos as int, n as int) ==> r == Err::<Vec<u8>, PpmError>(
            PpmError::Truncated,
        ),
{
    if pos > stream.len() || stream.len() - pos < n {
        return Err(PpmError::Truncated);
    }
    let mut buffer: Vec<u8> = Vec::with_capacity(n);
    let mut i: usize = 0;
    while i < n
        invariant
            i <= n,
            pos + n <= stream.len(),
            buffer@ == stream@.subrange(pos as int, pos + i),
        decreases n - i,
    {
        buffer.push(stream[pos + i]);
        i += 1;
        assert(buffer@ =~= stream@.subrange(pos as int, pos + i));
    }
    Ok(buffer)
}

} // verus!
