use vstd::prelude::*;
use vstd::arithmetic::power2::*;
use vstd::bits::*;
use vstd::std_specs::bits::*;
use crate::bitstream::{BitWriter, BitReader, bits_msb, lemma_val_msb_bound};
use crate::error::CompressionError;
use crate::timestamp::{field, lemma_field_of_written};

verus! {

/// The window of meaningful bits: `lead` leading and `trail` trailing zeros.
pub open spec fn window_ok(lead: nat, trail: nat) -> bool {
    lead <= 31 && lead + trail < 64
}

/// The leading zeros of `x` as stored: at most 31, so that they fit in five bits.
pub open spec fn stored_lead(x: u64) -> nat {
    let lz = u64_leading_zeros(x);
    if lz > 31 {
        31
    } else {
        lz as nat
    }
}

/// The bits that encode the value `v` after the value `prev`, with the current
/// window, and the window after it.
pub open spec fn val_code(prev: u64, lead: nat, trail: nat, v: u64) -> (Seq<bool>, nat, nat) {
    let x = v ^ prev;
    if x == 0 {
        (seq![false], lead, trail)
    } else {
        let tz = u64_trailing_zeros(x) as nat;
        if u64_leading_zeros(x) >= lead && tz >= trail {
            (
                seq![true, false] + bits_msb((x >> (trail as u64)) as nat, (64 - lead - trail) as nat),
                lead,
                trail,
            )
        } else {
            let nl = stored_lead(x);
            let m = (64 - nl - tz) as nat;
            (
                seq![true, true] + bits_msb(nl, 5) + bits_msb(m % 64, 6) + bits_msb(
                    (x >> (tz as u64)) as nat,
                    m,
                ),
                nl,
                tz,
            )
        }
    }
}

/// Reads one value at bit `p` after `prev` with the current window: the value,
/// the window after it, and how many bits it took.
pub open spec fn parse_val(s: Seq<bool>, p: int, prev: u64, lead: nat, trail: nat) -> Result<
    (u64, nat, nat, int),
    CompressionError,
> {
    if p >= s.len() {
        Err(CompressionError::InsufficientData)
    } else if !s[p] {
        Ok((prev, lead, trail, 1))
    } else if p + 1 >= s.len() {
        Err(CompressionError::InsufficientData)
    } else if !s[p + 1] {
        let m = 64 - lead - trail;
        if p + 2 + m > s.len() {
            Err(CompressionError::InsufficientData)
        } else {
            Ok((prev ^ ((field(s, p + 2, m) as u64) << (trail as u64)), lead, trail, 2 + m))
        }
    } else if p + 13 > s.len() {
        Err(CompressionError::InsufficientData)
    } else {
        let nl = field(s, p + 2, 5);
        let mc = field(s, p + 7, 6);
        let m: nat = if mc == 0 {
            64
        } else {
            mc
        };
        if nl + m > 64 {
            Err(CompressionError::InvalidFormat)
        } else if p + 13 + m > s.len() {
            Err(CompressionError::InsufficientData)
        } else {
            let tz = (64 - nl - m) as nat;
            Ok((prev ^ ((field(s, p + 13, m as int) as u64) << (tz as u64)), nl, tz, 13 + m as int))
        }
    }
}

proof fn lemma_xor_back(prev: u64, v: u64)
    by (bit_vector)
    ensures
        prev ^ (v ^ prev) == v,
        (v ^ prev == 0) == (v == prev),
{
}

proof fn lemma_shift_back(x: u64, t: u64, tz: u64)
    by (bit_vector)
    requires
        t <= tz <= 64,
        t < 64,
        x << ((64 - tz) as u64) == 0,
    ensures
        (x >> t) << t == x,
{
}

proof fn lemma_shr_zero_mono(x: u64, a: u64, b: u64)
    by (bit_vector)
    requires
        a <= b <= 64,
        x >> a == 0,
    ensures
        x >> b == 0,
{
}

/// For a non-zero `x`, leading and trailing zeros leave at least one bit.
proof fn lemma_zeros_sum(x: u64)
    requires
        x != 0,
    ensures
        u64_leading_zeros(x) + u64_trailing_zeros(x) <= 63,
{
    axiom_u64_leading_zeros(x);
    axiom_u64_trailing_zeros(x);
    let lz = u64_leading_zeros(x);
    let tz = u64_trailing_zeros(x);
    assert(lz < 64);
    assert(tz < 64);
    let hi = (63 - lz) as u64;
    assert((x >> hi) & 1 != 0);
    if hi < tz {
        assert((x >> hi) & 1u64 == 0u64);
    }
}

/// With at least `lead` leading and `trail` trailing zeros, `x` is its middle
/// `64 - lead - trail` bits shifted left by `trail`.
proof fn lemma_window(x: u64, lead: nat, trail: nat)
    requires
        u64_leading_zeros(x) >= lead,
        u64_trailing_zeros(x) >= trail,
        lead + trail < 64,
    ensures
        (x >> (trail as u64)) < pow2((64 - lead - trail) as nat),
        ((x >> (trail as u64)) << (trail as u64)) == x,
{
    axiom_u64_leading_zeros(x);
    axiom_u64_trailing_zeros(x);
    let lz = u64_leading_zeros(x);
    let tz = u64_trailing_zeros(x) as u64;
    lemma_shift_back(x, trail as u64, tz);
    let k = (64 - lead - trail) as nat;
    let t = trail as nat;
    let y = x >> (trail as u64);
    lemma_shr_zero_mono(x, (64 - lz) as u64, (64 - lead) as u64);
    lemma2_to64();
    lemma_pow2_pos(k);
    lemma_pow2_pos(t);
    lemma_pow2_adds(k, t);
    if lead > 0 {
        lemma_pow2_pos((64 - lead) as nat);
        assert((64 - lead) as nat == k + t);
        lemma_u64_shr_is_div(x, (64 - lead) as u64);
        vstd::arithmetic::div_mod::lemma_fundamental_div_mod(x as int, pow2((64 - lead) as nat) as int);
        vstd::arithmetic::div_mod::lemma_mod_bound(x as int, pow2((64 - lead) as nat) as int);
        assert(x < pow2(k + t));
    } else {
        assert(x < pow2(k + t));
    }
    lemma_u64_shr_is_div(x, trail as u64);
    if y >= pow2(k) {
        vstd::arithmetic::div_mod::lemma_fundamental_div_mod(x as int, pow2(t) as int);
        vstd::arithmetic::mul::lemma_mul_inequality(pow2(k) as int, y as int, pow2(t) as int);
        vstd::arithmetic::div_mod::lemma_mod_bound(x as int, pow2(t) as int);
        assert(pow2(k) * pow2(t) <= y * pow2(t));
        vstd::arithmetic::mul::lemma_mul_is_commutative(y as int, pow2(t) as int);
        assert(false);
    }
}

proof fn lemma_val_reuse(s: Seq<bool>, p: int, prev: u64, lead: nat, trail: nat, v: u64)
    requires
        window_ok(lead, trail),
        0 <= p,
        (v ^ prev) != 0,
        u64_leading_zeros(v ^ prev) >= lead,
        u64_trailing_zeros(v ^ prev) >= trail,
        p + val_code(prev, lead, trail, v).0.len() <= s.len(),
        s.subrange(p, p + val_code(prev, lead, trail, v).0.len()) == val_code(prev, lead, trail, v).0,
    ensures
        parse_val(s, p, prev, lead, trail) == Ok::<(u64, nat, nat, int), CompressionError>(
            (v, lead, trail, val_code(prev, lead, trail, v).0.len() as int),
        ),
{
    lemma_xor_back(prev, v);
    let x = v ^ prev;
    let c = val_code(prev, lead, trail, v).0;
    let m = 64 - lead - trail;
    let sub = s.subrange(p, p + c.len());
    assert(s[p] == sub[0] && s[p + 1] == sub[1]);
    lemma_window(x, lead, trail);
    assert(s.subrange(p + 2, p + 2 + m) =~= c.subrange(2, 2 + m));
    assert(c.subrange(2, 2 + m) =~= bits_msb((x >> (trail as u64)) as nat, m as nat));
    lemma_field_of_written(s, p + 2, (x >> (trail as u64)) as nat, m as nat);
}

/// The three fields of a new-window code read back as written.
proof fn lemma_new_window_fields(s: Seq<bool>, p: int, c: Seq<bool>, nl: nat, m: nat, y: nat)
    requires
        0 <= p,
        nl < 32,
        1 <= m <= 64,
        y < pow2(m),
        c == seq![true, true] + bits_msb(nl, 5) + bits_msb(m % 64, 6) + bits_msb(y, m),
        p + c.len() <= s.len(),
        s.subrange(p, p + c.len()) == c,
    ensures
        field(s, p + 2, 5) == nl,
        field(s, p + 7, 6) == m % 64,
        field(s, p + 13, m as int) == y,
{
    lemma2_to64();
    assert(s.subrange(p + 2, p + 7) =~= c.subrange(2, 7));
    assert(c.subrange(2, 7) =~= bits_msb(nl, 5));
    lemma_field_of_written(s, p + 2, nl, 5);
    assert(s.subrange(p + 7, p + 13) =~= c.subrange(7, 13));
    assert(c.subrange(7, 13) =~= bits_msb(m % 64, 6));
    lemma_field_of_written(s, p + 7, m % 64, 6);
    assert(s.subrange(p + 13, p + 13 + m) =~= c.subrange(13, 13 + m as int));
    assert(c.subrange(13, 13 + m as int) =~= bits_msb(y, m));
    lemma_field_of_written(s, p + 13, y, m);
}

proof fn lemma_val_new_window(s: Seq<bool>, p: int, prev: u64, lead: nat, trail: nat, v: u64)
    requires
        window_ok(lead, trail),
        0 <= p,
        (v ^ prev) != 0,
        !(u64_leading_zeros(v ^ prev) >= lead && u64_trailing_zeros(v ^ prev) >= trail),
        p + val_code(prev, lead, trail, v).0.len() <= s.len(),
        s.subrange(p, p + val_code(prev, lead, trail, v).0.len()) == val_code(prev, lead, trail, v).0,
    ensures
        parse_val(s, p, prev, lead, trail) == Ok::<(u64, nat, nat, int), CompressionError>(
            (
                v,
                val_code(prev, lead, trail, v).1,
                val_code(prev, lead, trail, v).2,
                val_code(prev, lead, trail, v).0.len() as int,
            ),
        ),
        window_ok(val_code(prev, lead, trail, v).1, val_code(prev, lead, trail, v).2),
{
    lemma2_to64();
    lemma_xor_back(prev, v);
    let x = v ^ prev;
    lemma_zeros_sum(x);
    let c = val_code(prev, lead, trail, v).0;
    let tz = u64_trailing_zeros(x) as nat;
    let nl = stored_lead(x);
    let m = (64 - nl - tz) as nat;
    let sub = s.subrange(p, p + c.len());
    assert(s[p] == sub[0] && s[p + 1] == sub[1]);
    lemma_window(x, nl, tz);
    lemma_new_window_fields(s, p, c, nl, m, (x >> (tz as u64)) as nat);
}

/// Decoding an encoded value, wherever it stands in a stream, gives back its
/// bits and the window the encoder moved to, and consumes exactly its code.
pub proof fn lemma_val_round_trip(s: Seq<bool>, p: int, prev: u64, lead: nat, trail: nat, v: u64)
    requires
        window_ok(lead, trail),
        0 <= p,
        p + val_code(prev, lead, trail, v).0.len() <= s.len(),
        s.subrange(p, p + val_code(prev, lead, trail, v).0.len()) == val_code(
            prev,
            lead,
            trail,
            v,
        ).0,
    ensures
        parse_val(s, p, prev, lead, trail) == Ok::<(u64, nat, nat, int), CompressionError>(
            (
                v,
                val_code(prev, lead, trail, v).1,
                val_code(prev, lead, trail, v).2,
                val_code(prev, lead, trail, v).0.len() as int,
            ),
        ),
        window_ok(val_code(prev, lead, trail, v).1, val_code(prev, lead, trail, v).2),
{
    lemma_xor_back(prev, v);
    let x = v ^ prev;
    if x == 0 {
        let sub = s.subrange(p, p + 1);
        assert(s[p] == sub[0]);
    } else if u64_leading_zeros(x) >= lead && u64_trailing_zeros(x) >= trail {
        lemma_val_reuse(s, p, prev, lead, trail, v);
    } else {
        lemma_val_new_window(s, p, prev, lead, trail, v);
    }
}

/// Encodes 64-bit value patterns as XORs against the previous one.
pub struct ValueCompressor {
    last_value: u64,
    last_leading_zeros: u32,
    last_trailing_zeros: u32,
}

impl ValueCompressor {
    /// The last value taken.
    pub closed spec fn prev(&self) -> u64 {
        self.last_value
    }

    /// The leading zeros of the current window.
    pub closed spec fn lead(&self) -> nat {
        self.last_leading_zeros as nat
    }

    /// The trailing zeros of the current window.
    pub closed spec fn trail(&self) -> nat {
        self.last_trailing_zeros as nat
    }

    pub closed spec fn wf(&self) -> bool {
        window_ok(self.lead(), self.trail())
    }

    pub fn new(first_value: u64) -> (r: ValueCompressor)
        ensures
            r.wf(),
            r.prev() == first_value,
            r.lead() == 0,
            r.trail() == 0,
    {
        ValueCompressor { last_value: first_value, last_leading_zeros: 0, last_trailing_zeros: 0 }
    }

    /// Appends the code of `value` to `writer`, as `val_code` describes.
    pub fn compress(&mut self, value: u64, writer: &mut BitWriter) -> (r: Result<
        (),
        CompressionError,
    >)
        requires
            old(self).wf(),
            old(writer).wf(),
            old(writer)@.len() + 80 <= usize::MAX,
        ensures
            r is Ok,
            final(self).wf(),
            final(writer).wf(),
            final(writer)@ == old(writer)@ + val_code(
                old(self).prev(),
                old(self).lead(),
                old(self).trail(),
                value,
            ).0,
            final(self).prev() == value,
            final(self).lead() == val_code(old(self).prev(), old(self).lead(), old(self).trail(), value).1,
            final(self).trail() == val_code(old(self).prev(), old(self).lead(), old(self).trail(), value).2,
    {
        proof {
            lemma2_to64();
            lemma_xor_back(self.last_value, value);
        }
        let ghost w0 = writer@;
        let xor = value ^ self.last_value;
        if xor == 0 {
            writer.write_bit(0);
            assert(writer@ =~= w0 + seq![false]);
            return Ok(());
        }
        writer.write_bit(1);
        let leading = xor.leading_zeros();
        let trailing = xor.trailing_zeros();
        proof {
            lemma_zeros_sum(xor);
        }
        if leading >= self.last_leading_zeros && trailing >= self.last_trailing_zeros {
            writer.write_bit(0);
            let meaningful: u32 = 64 - self.last_leading_zeros - self.last_trailing_zeros;
            let shifted = xor >> (self.last_trailing_zeros as u64);
            writer.write_bits(shifted, meaningful as usize);
            proof {
                let c = val_code(old(self).prev(), old(self).lead(), old(self).trail(), value).0;
                assert(shifted == xor >> (self.last_trailing_zeros as u64));
                assert(writer@ =~= w0 + c);
            }
        } else {
            writer.write_bit(1);
            let lead: u32 = if leading > 31 { 31 } else { leading };
            let meaningful: u32 = 64 - lead - trailing;
            writer.write_bits(lead as u64, 5);
            writer.write_bits((meaningful % 64) as u64, 6);
            let shifted = xor >> (trailing as u64);
            writer.write_bits(shifted, meaningful as usize);
            proof {
                let c = val_code(old(self).prev(), old(self).lead(), old(self).trail(), value).0;
                assert(shifted == xor >> (trailing as u64));
                assert(writer@ =~= w0 + c);
            }
            self.last_leading_zeros = lead;
            self.last_trailing_zeros = trailing;
        }
        self.last_value = value;
        Ok(())
    }
}

/// Reads back what a `ValueCompressor` wrote.
pub struct ValueDecompressor {
    last_value: u64,
    last_leading_zeros: u32,
    last_trailing_zeros: u32,
}

impl ValueDecompressor {
    pub closed spec fn prev(&self) -> u64 {
        self.last_value
    }

    pub closed spec fn lead(&self) -> nat {
        self.last_leading_zeros as nat
    }

    pub closed spec fn trail(&self) -> nat {
        self.last_trailing_zeros as nat
    }

    pub closed spec fn wf(&self) -> bool {
        self.lead() + self.trail() < 64
    }

    pub fn new(first_value: u64) -> (r: ValueDecompressor)
        ensures
            r.wf(),
            r.prev() == first_value,
            r.lead() == 0,
            r.trail() == 0,
    {
        ValueDecompressor { last_value: first_value, last_leading_zeros: 0, last_trailing_zeros: 0 }
    }

    /// Reads the next value, as `parse_val` describes.
    pub fn decompress(&mut self, reader: &mut BitReader) -> (r: Result<u64, CompressionError>)
        requires
            old(self).wf(),
            old(reader).wf(),
        ensures
            final(self).wf(),
            final(reader).wf(),
            final(reader).stream() == old(reader).stream(),
            match parse_val(
                old(reader).stream(),
                old(reader).position() as int,
                old(self).prev(),
                old(self).lead(),
                old(self).trail(),
            ) {
                Ok((v, l, t, c)) => r == Ok::<u64, CompressionError>(v) && final(reader).position()
                    == old(reader).position() + c && final(self).prev() == v && final(self).lead()
                    == l && final(self).trail() == t,
                Err(e) => r == Err::<u64, CompressionError>(e),
            },
    {
        proof {
            lemma2_to64();
        }
        let ghost s = reader.stream();
        let ghost p = reader.position() as int;
        let b0 = match reader.read_bit() {
            Err(e) => return Err(e),
            Ok(b) => b,
        };
        if b0 == 0 {
            return Ok(self.last_value);
        }
        let b1 = match reader.read_bit() {
            Err(e) => return Err(e),
            Ok(b) => b,
        };
        let xor: u64;
        if b1 == 0 {
            let meaningful: u32 = 64 - self.last_leading_zeros - self.last_trailing_zeros;
            let shifted = match reader.read_bits(meaningful as usize) {
                Err(e) => return Err(e),
                Ok(v) => v,
            };
            xor = shifted << (self.last_trailing_zeros as u64);
        } else {
            let lead = match reader.read_bits(5) {
                Err(e) => return Err(e),
                Ok(v) => v,
            };
            let mc = match reader.read_bits(6) {
                Err(e) => return Err(e),
                Ok(v) => v,
            };
            proof {
                lemma_val_msb_bound(s.subrange(p + 2, p + 7));
                lemma_val_msb_bound(s.subrange(p + 7, p + 13));
            }
            let meaningful: u64 = if mc == 0 { 64 } else { mc };
            if lead + meaningful > 64 {
                return Err(CompressionError::InvalidFormat);
            }
            let trailing: u64 = 64 - lead - meaningful;
            let shifted = match reader.read_bits(meaningful as usize) {
                Err(e) => return Err(e),
                Ok(v) => v,
            };
            xor = shifted << trailing;
            self.last_leading_zeros = lead as u32;
            self.last_trailing_zeros = trailing as u32;
        }
        let value = self.last_value ^ xor;
        self.last_value = value;
        Ok(value)
    }
}

} // verus!
