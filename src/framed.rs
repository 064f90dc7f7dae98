use vstd::prelude::*;
use vstd::arithmetic::power2::*;
use crate::bitstream::{BitWriter, BitReader, bits_msb, bits_of, packs, lemma_written_bits_read_back};
use crate::error::CompressionError;
use crate::timestamp::{ts_code, parse_ts, field, lemma_ts_round_trip};

verus! {

/// The record of a timestamp, given what came before it: the first timestamp
/// whole in 64 bits; each later one as its delta-of-delta code.
pub open spec fn record_bits(prev: Option<u64>, delta: Option<int>, ts: u64) -> Option<Seq<bool>> {
    match prev {
        None => Some(bits_msb(ts as nat, 64)),
        Some(p) => ts_code(p, delta, ts),
    }
}

/// What a record holds, read with what came before it: the timestamp and its
/// delta (none for the first).
pub open spec fn parse_record(s: Seq<bool>, prev: Option<u64>, delta: Option<int>) -> Result<
    (u64, Option<int>),
    CompressionError,
> {
    match prev {
        None => if 64 > s.len() {
            Err(CompressionError::InsufficientData)
        } else {
            Ok((field(s, 0, 64) as u64, None))
        },
        Some(p) => match parse_ts(s, 0, p, delta) {
            Err(e) => Err(e),
            Ok((t, d, c)) => Ok((t, Some(d))),
        },
    }
}

/// The delta that a timestamp leaves behind: none after the first.
pub open spec fn next_delta(prev: Option<u64>, ts: u64) -> Option<int> {
    match prev {
        Some(p) => Some(ts - p),
        None => None,
    }
}

/// Encodes timestamps one record at a time, each record a whole number of bytes.
pub struct TimestampCompressor {
    last_timestamp: Option<u64>,
    inner: crate::timestamp::TimestampCompressor,
}

impl TimestampCompressor {
    pub closed spec fn prev(&self) -> Option<u64> {
        self.last_timestamp
    }

    pub closed spec fn delta(&self) -> Option<int> {
        if self.last_timestamp is Some {
            self.inner.delta()
        } else {
            None
        }
    }

    pub closed spec fn wf(&self) -> bool {
        self.last_timestamp matches Some(p) ==> self.inner.prev() == p
    }

    pub fn new() -> (r: TimestampCompressor)
        ensures
            r.wf(),
            r.prev() is None,
            r.delta() is None,
    {
        TimestampCompressor { last_timestamp: None, inner: crate::timestamp::TimestampCompressor::new(0) }
    }

    /// The record of `timestamp`; fails with `InvalidInput` where `record_bits` has none.
    pub fn compress(&mut self, timestamp: u64) -> (r: Result<Vec<u8>, CompressionError>)
        requires
            old(self).wf(),
        ensures
            final(self).wf(),
            match record_bits(old(self).prev(), old(self).delta(), timestamp) {
                Some(c) => r matches Ok(bytes) && packs(bytes@, c) && final(self).prev() == Some(timestamp)
                    && final(self).delta() == next_delta(old(self).prev(), timestamp),
                None => r == Err::<Vec<u8>, CompressionError>(CompressionError::InvalidInput)
                    && final(self).prev() == old(self).prev() && final(self).delta() == old(self).delta(),
            },
    {
        let mut w = BitWriter::new();
        match self.last_timestamp {
            None => {
                w.write_bits(timestamp, 64);
                self.last_timestamp = Some(timestamp);
                self.inner = crate::timestamp::TimestampCompressor::new(timestamp);
                assert(w@ =~= bits_msb(timestamp as nat, 64));
                Ok(w.finish())
            },
            Some(_) => {
                match self.inner.compress(timestamp, &mut w) {
                    Err(e) => Err(e),
                    Ok(()) => {
                        self.last_timestamp = Some(timestamp);
                        assert(w@ =~= record_bits(old(self).prev(), old(self).delta(), timestamp).unwrap());
                        Ok(w.finish())
                    },
                }
            },
        }
    }
}

/// Reads back the records of a `TimestampCompressor`, one at a time.
pub struct TimestampDecompressor {
    last_timestamp: Option<u64>,
    inner: crate::timestamp::TimestampDecompressor,
}

impl TimestampDecompressor {
    pub closed spec fn prev(&self) -> Option<u64> {
        self.last_timestamp
    }

    pub closed spec fn delta(&self) -> Option<int> {
        if self.last_timestamp is Some {
            self.inner.delta()
        } else {
            None
        }
    }

    pub closed spec fn wf(&self) -> bool {
        self.last_timestamp matches Some(p) ==> self.inner.prev() == p
    }

    pub fn new() -> (r: TimestampDecompressor)
        ensures
            r.wf(),
            r.prev() is None,
            r.delta() is None,
    {
        TimestampDecompressor {
            last_timestamp: None,
            inner: crate::timestamp::TimestampDecompressor::new(0),
        }
    }

    /// Reads one record, as `parse_record` describes.
    pub fn decompress(&mut self, data: &[u8]) -> (r: Result<u64, CompressionError>)
        requires
            old(self).wf(),
            data@.len() * 8 <= usize::MAX,
        ensures
            final(self).wf(),
            match parse_record(bits_of(data@), old(self).prev(), old(self).delta()) {
                Ok((t, d)) => r == Ok::<u64, CompressionError>(t) && final(self).prev() == Some(t)
                    && final(self).delta() == d,
                Err(e) => r == Err::<u64, CompressionError>(e),
            },
    {
        let mut reader = BitReader::new(vstd::slice::slice_to_vec(data));
        if self.last_timestamp.is_none() {
            let first = reader.read_bits(64);
            match first {
                Err(e) => {
                    return Err(e);
                },
                Ok(t) => {
                    self.inner = crate::timestamp::TimestampDecompressor::new(t);
                    self.last_timestamp = Some(t);
                    return Ok(t);
                },
            }
        }
        let next = self.inner.decompress(&mut reader);
        match next {
            Err(e) => Err(e),
            Ok(t) => {
                self.last_timestamp = Some(t);
                Ok(t)
            },
        }
    }
}

/// Reading a record back, with the same history as when it was written,
/// gives the timestamp and the history that writing it left.
pub proof fn lemma_record_round_trip(bytes: Seq<u8>, prev: Option<u64>, delta: Option<int>, ts: u64)
    requires
        record_bits(prev, delta, ts) is Some,
        packs(bytes, record_bits(prev, delta, ts).unwrap()),
        delta matches Some(ld) ==> crate::timestamp::fits_i64(ld),
        prev is None ==> delta is None,
    ensures
        parse_record(bits_of(bytes), prev, delta) == Ok::<(u64, Option<int>), CompressionError>(
            (ts, next_delta(prev, ts)),
        ),
{
    let c = record_bits(prev, delta, ts).unwrap();
    let s = bits_of(bytes);
    lemma_written_bits_read_back(bytes, c);
    assert(s.subrange(0, c.len() as int) =~= c);
    match prev {
        None => {
            lemma2_to64();
            crate::bitstream::lemma_bits_value_round_trip(ts as nat, 64);
            vstd::arithmetic::div_mod::lemma_small_mod(ts as nat, pow2(64));
        },
        Some(p) => {
            lemma_ts_round_trip(s, 0, p, delta, ts);
        },
    }
}

} // verus!
