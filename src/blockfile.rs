use vstd::prelude::*;
use crate::block::Block;
use crate::error::StorageError;

verus! {

/// The eight little-endian bytes of `x`.
pub open spec fn le8(x: u64) -> Seq<u8> {
    seq![
        (x & 0xff) as u8,
        ((x >> 8u64) & 0xff) as u8,
        ((x >> 16u64) & 0xff) as u8,
        ((x >> 24u64) & 0xff) as u8,
        ((x >> 32u64) & 0xff) as u8,
        ((x >> 40u64) & 0xff) as u8,
        ((x >> 48u64) & 0xff) as u8,
        ((x >> 56u64) & 0xff) as u8,
    ]
}

/// The number in the eight little-endian bytes of `s` from `p` on.
pub open spec fn read_le8(s: Seq<u8>, p: int) -> u64 {
    (s[p] as u64) | ((s[p + 1] as u64) << 8u64) | ((s[p + 2] as u64) << 16u64) | ((s[p + 3] as u64)
        << 24u64) | ((s[p + 4] as u64) << 32u64) | ((s[p + 5] as u64) << 40u64) | ((s[p + 6] as u64)
        << 48u64) | ((s[p + 7] as u64) << 56u64)
}

proof fn lemma_le8_bits(x: u64)
    by (bit_vector)
    ensures
        x == ((((x & 0xff) as u8) as u64) | (((((x >> 8u64) & 0xff) as u8) as u64) << 8u64) | (((((x
            >> 16u64) & 0xff) as u8) as u64) << 16u64) | (((((x >> 24u64) & 0xff) as u8) as u64)
            << 24u64) | (((((x >> 32u64) & 0xff) as u8) as u64) << 32u64) | (((((x >> 40u64) & 0xff)
            as u8) as u64) << 40u64) | (((((x >> 48u64) & 0xff) as u8) as u64) << 48u64) | (((((x
            >> 56u64) & 0xff) as u8) as u64) << 56u64)),
{
}

proof fn lemma_le8_round_trip(s: Seq<u8>, p: int, x: u64)
    requires
        0 <= p,
        p + 8 <= s.len(),
        s.subrange(p, p + 8) == le8(x),
    ensures
        read_le8(s, p) == x,
{
    lemma_le8_bits(x);
    assert forall|i: int| 0 <= i < 8 implies s[p + i] == le8(x)[i] by {
        assert(s.subrange(p, p + 8)[i] == s[p + i]);
    }
}

/// The file of a block: start, end, count, first value, then each stream
/// after its length, every number in eight little-endian bytes.
pub open spec fn block_file(b: Block) -> Seq<u8> {
    le8(b.start_time) + le8(b.end_time) + le8(b.point_count as u64) + le8(b.first_value) + le8(
        b.compressed_timestamps@.len() as u64,
    ) + b.compressed_timestamps@ + le8(b.compressed_values@.len() as u64) + b.compressed_values@
}

/// What a block file says, when it is well formed: the header numbers and the two streams.
pub open spec fn parse_block_file(s: Seq<u8>) -> Option<(u64, u64, u64, u64, Seq<u8>, Seq<u8>)> {
    if s.len() < 40 {
        None
    } else {
        let tl = read_le8(s, 32) as int;
        if s.len() < 48 + tl {
            None
        } else {
            let vl = read_le8(s, 40 + tl) as int;
            if s.len() != 48 + tl + vl {
                None
            } else {
                Some(
                    (
                        read_le8(s, 0),
                        read_le8(s, 8),
                        read_le8(s, 16),
                        read_le8(s, 24),
                        s.subrange(40, 40 + tl),
                        s.subrange(48 + tl, 48 + tl + vl),
                    ),
                )
            }
        }
    }
}

fn push_le8(out: &mut Vec<u8>, x: u64)
    ensures
        final(out)@ == old(out)@ + le8(x),
{
    out.push((x & 0xff) as u8);
    out.push(((x >> 8) & 0xff) as u8);
    out.push(((x >> 16) & 0xff) as u8);
    out.push(((x >> 24) & 0xff) as u8);
    out.push(((x >> 32) & 0xff) as u8);
    out.push(((x >> 40) & 0xff) as u8);
    out.push(((x >> 48) & 0xff) as u8);
    out.push(((x >> 56) & 0xff) as u8);
    assert(final(out)@ =~= old(out)@ + le8(x));
}

fn get_le8(s: &Vec<u8>, p: usize) -> (r: u64)
    requires
        p + 8 <= s@.len() <= usize::MAX,
    ensures
        r == read_le8(s@, p as int),
{
    (s[p] as u64) | ((s[p + 1] as u64) << 8u64) | ((s[p + 2] as u64) << 16u64) | ((s[p + 3] as u64)
        << 24u64) | ((s[p + 4] as u64) << 32u64) | ((s[p + 5] as u64) << 40u64) | ((s[p + 6] as u64)
        << 48u64) | ((s[p + 7] as u64) << 56u64)
}

fn append_bytes(out: &mut Vec<u8>, src: &Vec<u8>)
    ensures
        final(out)@ == old(out)@ + src@,
{
    let mut i: usize = 0;
    while i < src.len()
        invariant
            i <= src@.len(),
            out@ == old(out)@ + src@.take(i as int),
        decreases src@.len() - i,
    {
        out.push(src[i]);
        proof {
            assert(src@.take(i + 1) =~= src@.take(i as int).push(src@[i as int]));
        }
        i = i + 1;
    }
    proof {
        assert(src@.take(src@.len() as int) =~= src@);
    }
}

fn copy_range(s: &Vec<u8>, from: usize, to: usize) -> (r: Vec<u8>)
    requires
        from <= to <= s@.len(),
    ensures
        r@ == s@.subrange(from as int, to as int),
{
    let mut out: Vec<u8> = Vec::new();
    let mut i: usize = from;
    while i < to
        invariant
            from <= i <= to <= s@.len(),
            out@ == s@.subrange(from as int, i as int),
        decreases to - i,
    {
        out.push(s[i]);
        proof {
            assert(s@.subrange(from as int, i + 1) =~= s@.subrange(from as int, i as int).push(s@[i as int]));
        }
        i = i + 1;
    }
    out
}

/// The bytes of a block's file.
pub fn encode_block_file(b: &Block) -> (r: Vec<u8>)
    ensures
        r@ == block_file(*b),
{
    let mut out: Vec<u8> = Vec::new();
    push_le8(&mut out, b.start_time);
    push_le8(&mut out, b.end_time);
    push_le8(&mut out, b.point_count as u64);
    push_le8(&mut out, b.first_value);
    push_le8(&mut out, b.compressed_timestamps.len() as u64);
    append_bytes(&mut out, &b.compressed_timestamps);
    push_le8(&mut out, b.compressed_values.len() as u64);
    append_bytes(&mut out, &b.compressed_values);
    proof {
        assert(out@ =~= block_file(*b));
    }
    out
}

/// Reads a block back from its file. Fails with `IoError` when the file is
/// malformed or its point count does not fit this machine.
pub fn decode_block_file(bytes: &Vec<u8>) -> (r: Result<Block, StorageError>)
    ensures
        match parse_block_file(bytes@) {
            Some(f) => if f.2 <= usize::MAX {
                r matches Ok(b) && b.start_time == f.0 && b.end_time == f.1 && b.point_count == f.2
                    && b.first_value == f.3 && b.compressed_timestamps@ == f.4 && b.compressed_values@
                    == f.5
            } else {
                r is Err
            },
            None => r is Err,
        },
{
    let n = bytes.len();
    if n < 40 {
        return Err(StorageError::IoError);
    }
    let tl = get_le8(bytes, 32);
    if (n as u64) < 48 || tl > (n as u64) - 48 {
        return Err(StorageError::IoError);
    }
    let tl = tl as usize;
    let vl = get_le8(bytes, 40 + tl);
    if vl != ((n - 48 - tl) as u64) {
        return Err(StorageError::IoError);
    }
    let count = get_le8(bytes, 16);
    if count > usize::MAX as u64 {
        return Err(StorageError::IoError);
    }
    Ok(
        Block {
            start_time: get_le8(bytes, 0),
            end_time: get_le8(bytes, 8),
            point_count: count as usize,
            first_value: get_le8(bytes, 24),
            compressed_timestamps: copy_range(bytes, 40, 40 + tl),
            compressed_values: copy_range(bytes, 48 + tl, n),
        },
    )
}

/// A block's file reads back as the same block.
pub proof fn lemma_block_file_round_trip(b: Block)
    requires
        b.point_count <= u64::MAX,
        b.compressed_timestamps@.len() <= u64::MAX,
        b.compressed_values@.len() <= u64::MAX,
    ensures
        parse_block_file(block_file(b)) == Some(
            (
                b.start_time,
                b.end_time,
                b.point_count as u64,
                b.first_value,
                b.compressed_timestamps@,
                b.compressed_values@,
            ),
        ),
{
    let s = block_file(b);
    let tl = b.compressed_timestamps@.len() as int;
    let vl = b.compressed_values@.len() as int;
    assert(s.subrange(0, 8) =~= le8(b.start_time));
    assert(s.subrange(8, 16) =~= le8(b.end_time));
    assert(s.subrange(16, 24) =~= le8(b.point_count as u64));
    assert(s.subrange(24, 32) =~= le8(b.first_value));
    assert(s.subrange(32, 40) =~= le8(tl as u64));
    assert(s.subrange(40 + tl, 48 + tl) =~= le8(vl as u64));
    lemma_le8_round_trip(s, 0, b.start_time);
    lemma_le8_round_trip(s, 8, b.end_time);
    lemma_le8_round_trip(s, 16, b.point_count as u64);
    lemma_le8_round_trip(s, 24, b.first_value);
    lemma_le8_round_trip(s, 32, tl as u64);
    lemma_le8_round_trip(s, 40 + tl, vl as u64);
    assert(s.subrange(40, 40 + tl) =~= b.compressed_timestamps@);
    assert(s.subrange(48 + tl, 48 + tl + vl) =~= b.compressed_values@);
}

} // verus!
