use vstd::prelude::*;
use vstd::arithmetic::power2::*;
use crate::bitstream::{BitWriter, BitReader, bits_msb, val_msb, lemma_bits_value_round_trip};
use crate::error::CompressionError;

verus! {

pub open spec fn fits_i64(d: int) -> bool {
    -0x8000_0000_0000_0000 <= d <= 0x7fff_ffff_ffff_ffff
}

pub open spec fn fits_i32(d: int) -> bool {
    -0x8000_0000 <= d <= 0x7fff_ffff
}

/// `d` as an `n`-bit two's complement field.
pub open spec fn twos(d: int, n: nat) -> nat {
    if d >= 0 {
        d as nat
    } else {
        (d + pow2(n)) as nat
    }
}

/// Reads an `n`-bit field back: patterns above `hi` stand for negative numbers.
pub open spec fn from_twos(v: nat, n: nat, hi: int) -> int {
    if v <= hi {
        v as int
    } else {
        v - pow2(n)
    }
}

/// The bits of a delta-of-delta: the shortest prefix class whose range holds it.
pub open spec fn dod_code(d: int) -> Seq<bool> {
    if d == 0 {
        seq![false]
    } else if -63 <= d <= 64 {
        seq![true, false] + bits_msb(twos(d, 7), 7)
    } else if -255 <= d <= 256 {
        seq![true, true, false] + bits_msb(twos(d, 9), 9)
    } else if -2047 <= d <= 2048 {
        seq![true, true, true, false] + bits_msb(twos(d, 12), 12)
    } else {
        seq![true, true, true, true] + bits_msb(twos(d, 32), 32)
    }
}

/// The bits that encode `ts` after the timestamp `prev`; `delta` is the previous
/// delta, absent before the second timestamp of a block, whose delta is stored
/// whole in 64 bits. `None` when `ts` cannot be encoded there.
pub open spec fn ts_code(prev: u64, delta: Option<int>, ts: u64) -> Option<Seq<bool>> {
    let d = ts - prev;
    if !fits_i64(d) {
        None
    } else {
        match delta {
            None => Some(bits_msb(twos(d, 64), 64)),
            Some(ld) => if fits_i32(d - ld) {
                Some(dod_code(d - ld))
            } else {
                None
            },
        }
    }
}

/// The number in the `n` bits of `s` from `p` on.
pub open spec fn field(s: Seq<bool>, p: int, n: int) -> nat {
    val_msb(s.subrange(p, p + n))
}

/// Reads one delta-of-delta at bit `p`: its value and how many bits it took.
pub open spec fn parse_dod(s: Seq<bool>, p: int) -> Result<(int, int), CompressionError> {
    if p >= s.len() {
        Err(CompressionError::InsufficientData)
    } else if !s[p] {
        Ok((0, 1))
    } else if p + 1 >= s.len() {
        Err(CompressionError::InsufficientData)
    } else if !s[p + 1] {
        if p + 9 > s.len() {
            Err(CompressionError::InsufficientData)
        } else {
            Ok((from_twos(field(s, p + 2, 7), 7, 64), 9))
        }
    } else if p + 2 >= s.len() {
        Err(CompressionError::InsufficientData)
    } else if !s[p + 2] {
        if p + 12 > s.len() {
            Err(CompressionError::InsufficientData)
        } else {
            Ok((from_twos(field(s, p + 3, 9), 9, 256), 12))
        }
    } else if p + 3 >= s.len() {
        Err(CompressionError::InsufficientData)
    } else if !s[p + 3] {
        if p + 16 > s.len() {
            Err(CompressionError::InsufficientData)
        } else {
            Ok((from_twos(field(s, p + 4, 12), 12, 2048), 16))
        }
    } else if p + 36 > s.len() {
        Err(CompressionError::InsufficientData)
    } else {
        Ok((from_twos(field(s, p + 4, 32), 32, 0x7fff_ffff), 36))
    }
}

/// Reads one timestamp at bit `p` after `prev` (with previous delta `delta`):
/// the timestamp, its delta, and how many bits it took.
pub open spec fn parse_ts(s: Seq<bool>, p: int, prev: u64, delta: Option<int>) -> Result<
    (u64, int, int),
    CompressionError,
> {
    match delta {
        None => if p + 64 > s.len() {
            Err(CompressionError::InsufficientData)
        } else {
            let d = from_twos(field(s, p, 64), 64, 0x7fff_ffff_ffff_ffff);
            if 0 <= prev + d <= u64::MAX {
                Ok(((prev + d) as u64, d, 64))
            } else {
                Err(CompressionError::InvalidFormat)
            }
        },
        Some(ld) => match parse_dod(s, p) {
            Err(e) => Err(e),
            Ok((dod, c)) => {
                let d = ld + dod;
                if fits_i64(d) && 0 <= prev + d <= u64::MAX {
                    Ok(((prev + d) as u64, d, c))
                } else {
                    Err(CompressionError::InvalidFormat)
                }
            },
        },
    }
}

proof fn lemma_prefix_bits()
    ensures
        bits_msb(2, 2) =~= seq![true, false],
        bits_msb(6, 3) =~= seq![true, true, false],
        bits_msb(14, 4) =~= seq![true, true, true, false],
        bits_msb(15, 4) =~= seq![true, true, true, true],
{
    lemma2_to64();
    assert(pow2(0) == 1 && pow2(1) == 2 && pow2(2) == 4 && pow2(3) == 8);
    assert(2nat / 2 == 1 && 2nat / 1 == 2);
    assert(6nat / 4 == 1 && 6nat / 2 == 3 && 6nat / 1 == 6);
    assert(14nat / 8 == 1 && 14nat / 4 == 3 && 14nat / 2 == 7 && 14nat / 1 == 14);
    assert(15nat / 8 == 1 && 15nat / 4 == 3 && 15nat / 2 == 7 && 15nat / 1 == 15);
    assert(bits_msb(2, 2)[0] && !bits_msb(2, 2)[1]);
    assert(bits_msb(6, 3)[0] && bits_msb(6, 3)[1] && !bits_msb(6, 3)[2]);
    assert(bits_msb(14, 4)[0] && bits_msb(14, 4)[1] && bits_msb(14, 4)[2] && !bits_msb(14, 4)[3]);
    assert(bits_msb(15, 4)[0] && bits_msb(15, 4)[1] && bits_msb(15, 4)[2] && bits_msb(15, 4)[3]);
}

/// A field written in `n` bits and read at the same place gives back its value.
pub(crate) proof fn lemma_field_of_written(s: Seq<bool>, p: int, v: nat, n: nat)
    requires
        0 <= p,
        p + n <= s.len(),
        s.subrange(p, p + n) == bits_msb(v, n),
        v < pow2(n),
    ensures
        field(s, p, n as int) == v,
{
    lemma_bits_value_round_trip(v, n);
    vstd::arithmetic::div_mod::lemma_small_mod(v, pow2(n));
}

proof fn lemma_twos_round_trip(d: int, n: nat, hi: int)
    requires
        hi - pow2(n) < d <= hi,
        0 <= hi < pow2(n),
    ensures
        twos(d, n) < pow2(n),
        from_twos(twos(d, n), n, hi) == d,
{
}

/// Decoding an encoded delta-of-delta, wherever it stands in a stream,
/// gives back the value and the width it was written with.
pub proof fn lemma_dod_round_trip(s: Seq<bool>, p: int, d: int)
    requires
        fits_i32(d),
        0 <= p,
        p + dod_code(d).len() <= s.len(),
        s.subrange(p, p + dod_code(d).len()) == dod_code(d),
    ensures
        parse_dod(s, p) == Ok::<(int, int), CompressionError>((d, dod_code(d).len() as int)),
{
    lemma2_to64();
    let c = dod_code(d);
    assert forall|i: int| 0 <= i < c.len() implies s[p + i] == c[i] by {
        assert(s.subrange(p, p + c.len())[i] == s[p + i]);
    }
    assert(s[p] == c[0]);
    if d == 0 {
    } else if -63 <= d <= 64 {
        assert(s[p + 1] == c[1]);
        lemma_twos_round_trip(d, 7, 64);
        assert(s.subrange(p + 2, p + 9) =~= c.subrange(2, 9));
        assert(c.subrange(2, 9) =~= bits_msb(twos(d, 7), 7));
        lemma_field_of_written(s, p + 2, twos(d, 7), 7);
    } else if -255 <= d <= 256 {
        assert(s[p + 1] == c[1] && s[p + 2] == c[2]);
        lemma_twos_round_trip(d, 9, 256);
        assert(s.subrange(p + 3, p + 12) =~= c.subrange(3, 12));
        assert(c.subrange(3, 12) =~= bits_msb(twos(d, 9), 9));
        lemma_field_of_written(s, p + 3, twos(d, 9), 9);
    } else if -2047 <= d <= 2048 {
        assert(s[p + 1] == c[1] && s[p + 2] == c[2] && s[p + 3] == c[3]);
        lemma_twos_round_trip(d, 12, 2048);
        assert(s.subrange(p + 4, p + 16) =~= c.subrange(4, 16));
        assert(c.subrange(4, 16) =~= bits_msb(twos(d, 12), 12));
        lemma_field_of_written(s, p + 4, twos(d, 12), 12);
    } else {
        assert(s[p + 1] == c[1] && s[p + 2] == c[2] && s[p + 3] == c[3]);
        lemma_twos_round_trip(d, 32, 0x7fff_ffff);
        assert(s.subrange(p + 4, p + 36) =~= c.subrange(4, 36));
        assert(c.subrange(4, 36) =~= bits_msb(twos(d, 32), 32));
        lemma_field_of_written(s, p + 4, twos(d, 32), 32);
    }
}

/// Decoding an encoded timestamp, wherever it stands in a stream, gives back
/// the timestamp and its delta, and consumes exactly its code.
pub proof fn lemma_ts_round_trip(s: Seq<bool>, p: int, prev: u64, delta: Option<int>, ts: u64)
    requires
        ts_code(prev, delta, ts) is Some,
        delta matches Some(ld) ==> fits_i64(ld),
        0 <= p,
        p + ts_code(prev, delta, ts).unwrap().len() <= s.len(),
        s.subrange(p, p + ts_code(prev, delta, ts).unwrap().len()) == ts_code(
            prev,
            delta,
            ts,
        ).unwrap(),
    ensures
        parse_ts(s, p, prev, delta) == Ok::<(u64, int, int), CompressionError>(
            (ts, ts - prev, ts_code(prev, delta, ts).unwrap().len() as int),
        ),
{
    lemma2_to64();
    let d = ts - prev;
    match delta {
        None => {
            lemma_twos_round_trip(d, 64, 0x7fff_ffff_ffff_ffff);
            lemma_field_of_written(s, p, twos(d, 64), 64);
        },
        Some(ld) => {
            lemma_dod_round_trip(s, p, d - ld);
        },
    }
}

/// Encodes timestamps as deltas of deltas, after a first timestamp kept
/// whole in the block header.
pub struct TimestampCompressor {
    last_timestamp: u64,
    last_delta: i64,
    has_delta: bool,
}

impl TimestampCompressor {
    /// The last timestamp taken.
    pub closed spec fn prev(&self) -> u64 {
        self.last_timestamp
    }

    /// The last delta, absent until a second timestamp was taken.
    pub closed spec fn delta(&self) -> Option<int> {
        if self.has_delta {
            Some(self.last_delta as int)
        } else {
            None
        }
    }

    pub fn new(first_timestamp: u64) -> (r: TimestampCompressor)
        ensures
            r.prev() == first_timestamp,
            r.delta() is None,
    {
        TimestampCompressor { last_timestamp: first_timestamp, last_delta: 0, has_delta: false }
    }

    /// Appends the code of `timestamp` to `writer`; fails with `InvalidInput`,
    /// writing nothing, when `ts_code` has none.
    pub fn compress(&mut self, timestamp: u64, writer: &mut BitWriter) -> (r: Result<
        (),
        CompressionError,
    >)
        requires
            old(writer).wf(),
            old(writer)@.len() + 64 <= usize::MAX,
        ensures
            final(writer).wf(),
            match ts_code(old(self).prev(), old(self).delta(), timestamp) {
                Some(c) => r is Ok && final(writer)@ == old(writer)@ + c && final(self).prev()
                    == timestamp && final(self).delta() == Some(timestamp - old(self).prev()),
                None => r == Err::<(), CompressionError>(CompressionError::InvalidInput)
                    && final(writer)@ == old(writer)@ && final(self).prev() == old(self).prev()
                    && final(self).delta() == old(self).delta(),
            },
    {
        proof {
            lemma2_to64();
            lemma_prefix_bits();
        }
        let ghost w0 = writer@;
        let delta: i128 = timestamp as i128 - self.last_timestamp as i128;
        if delta < -0x8000_0000_0000_0000i128 || delta > 0x7fff_ffff_ffff_ffffi128 {
            return Err(CompressionError::InvalidInput);
        }
        if !self.has_delta {
            let payload: u64 = if delta >= 0 {
                delta as u64
            } else {
                (delta + 0x1_0000_0000_0000_0000i128) as u64
            };
            writer.write_bits(payload, 64);
        } else {
            let dod: i128 = delta - self.last_delta as i128;
            if dod == 0 {
                writer.write_bit(0);
                assert(writer@ =~= w0 + dod_code(dod as int));
            } else if -63 <= dod && dod <= 64 {
                let payload: u64 = if dod >= 0 { dod as u64 } else { (dod + 128) as u64 };
                writer.write_bits(2, 2);
                writer.write_bits(payload, 7);
                assert(writer@ =~= w0 + dod_code(dod as int));
            } else if -255 <= dod && dod <= 256 {
                let payload: u64 = if dod >= 0 { dod as u64 } else { (dod + 512) as u64 };
                writer.write_bits(6, 3);
                writer.write_bits(payload, 9);
                assert(writer@ =~= w0 + dod_code(dod as int));
            } else if -2047 <= dod && dod <= 2048 {
                let payload: u64 = if dod >= 0 { dod as u64 } else { (dod + 4096) as u64 };
                writer.write_bits(14, 4);
                writer.write_bits(payload, 12);
                assert(writer@ =~= w0 + dod_code(dod as int));
            } else if -0x8000_0000 <= dod && dod <= 0x7fff_ffff {
                let payload: u64 = if dod >= 0 {
                    dod as u64
                } else {
                    (dod + 0x1_0000_0000) as u64
                };
                writer.write_bits(15, 4);
                writer.write_bits(payload, 32);
                assert(writer@ =~= w0 + dod_code(dod as int));
            } else {
                return Err(CompressionError::InvalidInput);
            }
        }
        self.last_timestamp = timestamp;
        self.last_delta = delta as i64;
        self.has_delta = true;
        Ok(())
    }
}

/// Reads back what a `TimestampCompressor` wrote.
pub struct TimestampDecompressor {
    last_timestamp: u64,
    last_delta: i64,
    has_delta: bool,
}

impl TimestampDecompressor {
    pub closed spec fn prev(&self) -> u64 {
        self.last_timestamp
    }

    pub closed spec fn delta(&self) -> Option<int> {
        if self.has_delta {
            Some(self.last_delta as int)
        } else {
            None
        }
    }

    pub fn new(first_timestamp: u64) -> (r: TimestampDecompressor)
        ensures
            r.prev() == first_timestamp,
            r.delta() is None,
    {
        TimestampDecompressor { last_timestamp: first_timestamp, last_delta: 0, has_delta: false }
    }

    fn read_signed(reader: &mut BitReader, n: usize, hi: u64, big: i128) -> (r: Result<
        i128,
        CompressionError,
    >)
        requires
            old(reader).wf(),
            1 <= n <= 64,
            hi < pow2(n as nat),
            big == pow2(n as nat),
        ensures
            final(reader).wf(),
            final(reader).stream() == old(reader).stream(),
            match r {
                Ok(v) => old(reader).position() + n <= old(reader).stream().len() && v == from_twos(
                    field(old(reader).stream(), old(reader).position() as int, n as int),
                    n as nat,
                    hi as int,
                ) && final(reader).position() == old(reader).position() + n && hi - pow2(n as nat)
                    < v <= hi,
                Err(e) => old(reader).position() + n > old(reader).stream().len() && e
                    == CompressionError::InsufficientData,
            },
    {
        let v = reader.read_bits(n);
        match v {
            Err(e) => Err(e),
            Ok(v) => {
                proof {
                    crate::bitstream::lemma_val_msb_bound(
                        old(reader).stream().subrange(
                            old(reader).position() as int,
                            old(reader).position() + n,
                        ),
                    );
                    lemma_pow2_strictly_increases(n as nat, 65);
                    lemma2_to64();
                }
                if v <= hi {
                    Ok(v as i128)
                } else {
                    Ok(v as i128 - big)
                }
            },
        }
    }

    /// Reads the next timestamp, as `parse_ts` describes.
    pub fn decompress(&mut self, reader: &mut BitReader) -> (r: Result<u64, CompressionError>)
        requires
            old(reader).wf(),
        ensures
            final(reader).wf(),
            final(reader).stream() == old(reader).stream(),
            match parse_ts(
                old(reader).stream(),
                old(reader).position() as int,
                old(self).prev(),
                old(self).delta(),
            ) {
                Ok((t, d, c)) => r == Ok::<u64, CompressionError>(t) && final(reader).position()
                    == old(reader).position() + c && final(self).prev() == t && final(self).delta()
                    == Some(d),
                Err(e) => r == Err::<u64, CompressionError>(e) && final(self).prev() == old(self).prev()
                    && final(self).delta() == old(self).delta(),
            },
    {
        proof {
            lemma2_to64();
        }
        let ghost s = reader.stream();
        let ghost p = reader.position() as int;
        let delta: i128;
        if !self.has_delta {
            match Self::read_signed(reader, 64, 0x7fff_ffff_ffff_ffff, 0x1_0000_0000_0000_0000) {
                Err(e) => return Err(e),
                Ok(d) => delta = d,
            }
        } else {
            let dod: i128;
            let b0 = reader.read_bit();
            match b0 {
                Err(e) => return Err(e),
                Ok(b0) => {
                    if b0 == 0 {
                        dod = 0;
                    } else {
                        match reader.read_bit() {
                            Err(e) => return Err(e),
                            Ok(b1) => {
                                if b1 == 0 {
                                    match Self::read_signed(reader, 7, 64, 128) {
                                        Err(e) => return Err(e),
                                        Ok(v) => dod = v,
                                    }
                                } else {
                                    match reader.read_bit() {
                                        Err(e) => return Err(e),
                                        Ok(b2) => {
                                            if b2 == 0 {
                                                match Self::read_signed(reader, 9, 256, 512) {
                                                    Err(e) => return Err(e),
                                                    Ok(v) => dod = v,
                                                }
                                            } else {
                                                match reader.read_bit() {
                                                    Err(e) => return Err(e),
                                                    Ok(b3) => {
                                                        if b3 == 0 {
                                                            match Self::read_signed(reader, 12, 2048, 4096) {
                                                                Err(e) => return Err(e),
                                                                Ok(v) => dod = v,
                                                            }
                                                        } else {
                                                            match Self::read_signed(reader, 32, 0x7fff_ffff, 0x1_0000_0000) {
                                                                Err(e) => return Err(e),
                                                                Ok(v) => dod = v,
                                                            }
                                                        }
                                                    },
                                                }
                                            }
                                        },
                                    }
                                }
                            },
                        }
                    }
                },
            }
            assert(parse_dod(s, p) == Ok::<(int, int), CompressionError>(
                (dod as int, reader.position() - p),
            ));
            let d = self.last_delta as i128 + dod;
            if d < -0x8000_0000_0000_0000i128 || d > 0x7fff_ffff_ffff_ffffi128 {
                return Err(CompressionError::InvalidFormat);
            }
            delta = d;
        }
        let t: i128 = self.last_timestamp as i128 + delta;
        if t < 0 || t > 0xffff_ffff_ffff_ffffi128 {
            return Err(CompressionError::InvalidFormat);
        }
        self.last_timestamp = t as u64;
        self.last_delta = delta as i64;
        self.has_delta = true;
        Ok(t as u64)
    }
}

} // verus!
