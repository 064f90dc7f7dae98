use vstd::prelude::*;
use vstd::arithmetic::power2::*;
use vstd::arithmetic::div_mod::*;
use vstd::bits::*;
use crate::error::CompressionError;

verus! {

/// Bit `i` of a byte, counting from the most significant bit (`i == 0`).
pub open spec fn byte_bit(b: u8, i: int) -> bool {
    (b >> ((7 - i) as u8)) & 1u8 == 1u8
}

/// The bits of a byte buffer, most significant bit of each byte first.
pub open spec fn bits_of(buf: Seq<u8>) -> Seq<bool> {
    Seq::new(buf.len() * 8, |p: int| byte_bit(buf[p / 8], p % 8))
}

/// The `n` low bits of `v`, most significant first.
pub open spec fn bits_msb(v: nat, n: nat) -> Seq<bool> {
    Seq::new(n, |t: int| (v / pow2((n - 1 - t) as nat)) % 2 == 1)
}

/// The number that a bit sequence spells, most significant bit first.
pub open spec fn val_msb(s: Seq<bool>) -> nat
    decreases s.len(),
{
    if s.len() == 0 {
        0
    } else {
        2 * val_msb(s.drop_last()) + (if s.last() { 1nat } else { 0nat })
    }
}

/// Bytes that hold exactly the bits `written`, then zero bits up to the byte boundary.
pub open spec fn packs(bytes: Seq<u8>, written: Seq<bool>) -> bool {
    &&& bytes.len() == (written.len() + 7) / 8
    &&& bits_of(bytes).take(written.len() as int) == written
    &&& forall|p: int| written.len() <= p < bytes.len() * 8 ==> !#[trigger] bits_of(bytes)[p]
}

proof fn lemma_set_bit(x: u8, k: u8, i: u8)
    by (bit_vector)
    requires
        k < 8,
        i < 8,
    ensures
        ((x | (1u8 << ((7u8 - k) as u8))) >> ((7u8 - i) as u8)) & 1u8 == (if i == k { 1u8 } else { (x >> ((7u8 - i) as u8)) & 1u8 }),
{
}

proof fn lemma_zero_byte(i: u8)
    by (bit_vector)
    requires
        i < 8,
    ensures
        (0u8 >> ((7u8 - i) as u8)) & 1u8 == 0u8,
{
}

proof fn lemma_and_one(x: u64)
    by (bit_vector)
    ensures
        x & 1u64 == x % 2,
{
}

proof fn lemma_byte_and_one(x: u8)
    by (bit_vector)
    ensures
        x & 1u8 == x % 2,
        x & 1u8 <= 1,
{
}

pub proof fn lemma_val_msb_bound(s: Seq<bool>)
    ensures
        val_msb(s) < pow2(s.len() as nat),
    decreases s.len(),
{
    if s.len() > 0 {
        lemma_val_msb_bound(s.drop_last());
        lemma_pow2_unfold(s.len() as nat);
    } else {
        lemma2_to64();
    }
}

proof fn lemma_val_msb_push(s: Seq<bool>, b: bool)
    ensures
        val_msb(s.push(b)) == 2 * val_msb(s) + (if b { 1nat } else { 0nat }),
{
    assert(s.push(b).drop_last() =~= s);
}

/// A value written in `n` bits reads back as that value modulo `2^n`.
pub proof fn lemma_bits_value_round_trip(v: nat, n: nat)
    ensures
        val_msb(bits_msb(v, n)) == v % pow2(n),
    decreases n,
{
    if n == 0 {
        lemma2_to64();
        assert(bits_msb(v, 0) =~= Seq::<bool>::empty());
    } else {
        lemma_bits_value_round_trip(v / 2, (n - 1) as nat);
        let s = bits_msb(v, n);
        assert forall|t: int| 0 <= t < n - 1 implies s.drop_last()[t] == bits_msb(v / 2, (n - 1) as nat)[t] by {
            let e = (n - 2 - t) as nat;
            lemma_pow2_unfold(e + 1);
            lemma_pow2_pos(e);
            lemma_div_denominator(v as int, 2, pow2(e) as int);
            assert(pow2(e + 1) == 2 * pow2(e));
            assert((n - 1 - t) as nat == e + 1);
        }
        assert(s.drop_last() =~= bits_msb(v / 2, (n - 1) as nat));
        lemma2_to64();
        assert(v as int / 1 == v as int);
        assert(s.last() == (v % 2 == 1));
        lemma_pow2_unfold(n);
        lemma_pow2_pos((n - 1) as nat);
        lemma_mod_breakdown(v as int, 2, pow2((n - 1) as nat) as int);
    }
}

/// Appends bits to a growing byte buffer, most significant bit of each byte first.
pub struct BitWriter {
    buffer: Vec<u8>,
    bit_count: usize,
}

impl View for BitWriter {
    type V = Seq<bool>;

    closed spec fn view(&self) -> Seq<bool> {
        bits_of(self.buffer@).take(self.bit_count as int)
    }
}

impl BitWriter {
    /// The buffer holds exactly the written bits followed by zero padding.
    pub closed spec fn wf(&self) -> bool {
        &&& self.buffer@.len() == (self.bit_count + 7) / 8
        &&& forall|p: int|
            self.bit_count <= p < self.buffer@.len() * 8 ==> !#[trigger] bits_of(self.buffer@)[p]
    }

    pub fn new() -> (r: BitWriter)
        ensures
            r.wf(),
            r@ == Seq::<bool>::empty(),
    {
        let r = BitWriter { buffer: Vec::new(), bit_count: 0 };
        assert(r@ =~= Seq::<bool>::empty());
        r
    }

    /// Appends one bit: any non-zero `bit` is a one.
    pub fn write_bit(&mut self, bit: u8) -> (r: Result<(), CompressionError>)
        requires
            old(self).wf(),
            old(self)@.len() < usize::MAX,
        ensures
            r is Ok,
            final(self).wf(),
            final(self)@ == old(self)@.push(bit != 0),
    {
        let ghost old_bits = bits_of(self.buffer@);
        let ghost n = self.bit_count as int;
        if self.bit_count % 8 == 0 {
            self.buffer.push(0);
            proof {
                let nb = bits_of(self.buffer@);
                assert forall|p: int| 0 <= p < old_bits.len() implies nb[p] == old_bits[p] by {
                    assert(p / 8 < old_bits.len() / 8);
                }
                assert forall|p: int| old_bits.len() <= p < nb.len() implies !nb[p] by {
                    assert(p / 8 == self.buffer@.len() - 1);
                    lemma_zero_byte((p % 8) as u8);
                }
            }
        }
        let byte_index = self.bit_count / 8;
        let k: u8 = (self.bit_count % 8) as u8;
        let ghost before = bits_of(self.buffer@);
        if bit != 0 {
            let cur = self.buffer[byte_index];
            self.buffer.set(byte_index, cur | (1u8 << ((7u8 - k) as u8)));
            proof {
                let nb = bits_of(self.buffer@);
                assert forall|p: int| 0 <= p < nb.len() implies nb[p] == (if p == n { true } else { before[p] }) by {
                    if p / 8 == byte_index as int {
                        lemma_set_bit(cur, k, (p % 8) as u8);
                        assert(p == n <==> p % 8 == k as int);
                    }
                }
            }
        }
        self.bit_count = self.bit_count + 1;
        proof {
            let nb = bits_of(self.buffer@);
            if bit == 0 {
                assert(!nb[n]);
            }
            assert(self@ =~= old(self)@.push(bit != 0));
        }
        Ok(())
    }

    /// Appends the low `num_bits` bits of `value`, most significant first;
    /// a width over 64 is an `InvalidBitLength`, and nothing is written.
    pub fn write_bits(&mut self, value: u64, num_bits: usize) -> (r: Result<(), CompressionError>)
        requires
            old(self).wf(),
            num_bits <= 64 ==> old(self)@.len() + num_bits <= usize::MAX,
        ensures
            final(self).wf(),
            num_bits <= 64 ==> r is Ok && final(self)@ == old(self)@ + bits_msb(value as nat, num_bits as nat),
            num_bits > 64 ==> r == Err::<(), CompressionError>(CompressionError::InvalidBitLength(num_bits))
                && final(self)@ == old(self)@,
    {
        if num_bits > 64 {
            return Err(CompressionError::InvalidBitLength(num_bits));
        }
        let mut j: usize = 0;
        while j < num_bits
            invariant
                self.wf(),
                j <= num_bits <= 64,
                old(self)@.len() + num_bits <= usize::MAX,
                self@ == old(self)@ + bits_msb(value as nat, num_bits as nat).take(j as int),
            decreases num_bits - j,
        {
            let i: usize = num_bits - 1 - j;
            let shifted = value >> (i as u64);
            proof {
                lemma_u64_shr_is_div(value, i as u64);
                lemma_and_one(shifted);
            }
            let bit = (shifted & 1) as u8;
            self.write_bit(bit);
            proof {
                assert(bits_msb(value as nat, num_bits as nat).take(j + 1) =~= bits_msb(
                    value as nat,
                    num_bits as nat,
                ).take(j as int).push(bit != 0));
            }
            j = j + 1;
        }
        assert(bits_msb(value as nat, num_bits as nat).take(num_bits as int) =~= bits_msb(
            value as nat,
            num_bits as nat,
        ));
        Ok(())
    }

    /// The buffer: the written bits, then zero bits up to the byte boundary.
    pub fn finish(self) -> (r: Vec<u8>)
        requires
            self.wf(),
        ensures
            packs(r@, self@),
    {
        self.buffer
    }

    pub fn bit_count(&self) -> (r: usize)
        requires
            self.wf(),
        ensures
            r == self@.len(),
    {
        self.bit_count
    }
}

/// Reads bits back from a byte buffer, most significant bit of each byte first.
pub struct BitReader {
    buffer: Vec<u8>,
    bit_position: usize,
}

impl BitReader {
    /// Every bit of the buffer.
    pub closed spec fn stream(&self) -> Seq<bool> {
        bits_of(self.buffer@)
    }

    /// How many bits have been consumed.
    pub closed spec fn position(&self) -> nat {
        self.bit_position as nat
    }

    pub closed spec fn wf(&self) -> bool {
        &&& self.bit_position <= self.buffer@.len() * 8
        &&& self.buffer@.len() * 8 <= usize::MAX
    }

    pub fn new(buffer: Vec<u8>) -> (r: BitReader)
        requires
            buffer@.len() * 8 <= usize::MAX,
        ensures
            r.wf(),
            r.stream() == bits_of(buffer@),
            r.position() == 0,
    {
        BitReader { buffer, bit_position: 0 }
    }

    fn bit_at(&self, pos: usize) -> (r: u8)
        requires
            self.wf(),
            pos < self.buffer@.len() * 8,
        ensures
            r == (if self.stream()[pos as int] { 1u8 } else { 0u8 }),
    {
        let byte_index = pos / 8;
        let bit_index: u8 = 7 - (pos % 8) as u8;
        let b = self.buffer[byte_index];
        let r = (b >> bit_index) & 1;
        proof {
            lemma_byte_and_one(b >> bit_index);
        }
        r
    }

    pub fn read_bit(&mut self) -> (r: Result<u8, CompressionError>)
        requires
            old(self).wf(),
        ensures
            final(self).wf(),
            final(self).stream() == old(self).stream(),
            match r {
                Ok(b) => old(self).position() < old(self).stream().len() && b == (if old(
                    self,
                ).stream()[old(self).position() as int] {
                    1u8
                } else {
                    0u8
                }) && final(self).position() == old(self).position() + 1,
                Err(e) => old(self).position() >= old(self).stream().len() && e
                    == CompressionError::InsufficientData && final(self).position() == old(
                    self,
                ).position(),
            },
    {
        if self.bit_position >= self.buffer.len() * 8 {
            return Err(CompressionError::InsufficientData);
        }
        let bit = self.bit_at(self.bit_position);
        self.bit_position = self.bit_position + 1;
        Ok(bit)
    }

    fn value_at(&self, pos: usize, num_bits: usize) -> (r: u64)
        requires
            self.wf(),
            num_bits <= 64,
            pos + num_bits <= self.buffer@.len() * 8,
        ensures
            r as nat == val_msb(self.stream().subrange(pos as int, pos + num_bits)),
    {
        let mut value: u64 = 0;
        let mut i: usize = 0;
        while i < num_bits
            invariant
                self.wf(),
                i <= num_bits <= 64,
                pos + num_bits <= self.buffer@.len() * 8,
                value as nat == val_msb(self.stream().subrange(pos as int, pos + i)),
            decreases num_bits - i,
        {
            let bit = self.bit_at(pos + i);
            proof {
                let s = self.stream().subrange(pos as int, pos + i);
                assert(self.stream().subrange(pos as int, pos + i + 1) =~= s.push(
                    self.stream()[pos + i],
                ));
                lemma_val_msb_push(s, self.stream()[pos + i]);
                lemma_val_msb_bound(self.stream().subrange(pos as int, pos + i + 1));
                lemma_pow2_strictly_increases((i + 1) as nat, 65);
                if i + 1 < 64 {
                    lemma_pow2_strictly_increases((i + 1) as nat, 64);
                }
                lemma2_to64();
            }
            value = value * 2 + bit as u64;
            i = i + 1;
        }
        value
    }

    /// Reads `num_bits` bits as an unsigned number, most significant first.
    /// Nothing is consumed when the stream holds fewer bits, or when the width
    /// is over 64 (an `InvalidBitLength`).
    pub fn read_bits(&mut self, num_bits: usize) -> (r: Result<u64, CompressionError>)
        requires
            old(self).wf(),
        ensures
            final(self).wf(),
            final(self).stream() == old(self).stream(),
            num_bits > 64 ==> r == Err::<u64, CompressionError>(CompressionError::InvalidBitLength(num_bits))
                && final(self).position() == old(self).position(),
            num_bits <= 64 ==> match r {
                Ok(v) => old(self).position() + num_bits <= old(self).stream().len() && v as nat
                    == val_msb(
                    old(self).stream().subrange(
                        old(self).position() as int,
                        old(self).position() + num_bits,
                    ),
                ) && final(self).position() == old(self).position() + num_bits,
                Err(e) => old(self).position() + num_bits > old(self).stream().len() && e
                    == CompressionError::InsufficientData && final(self).position() == old(
                    self,
                ).position(),
            },
    {
        if num_bits > 64 {
            return Err(CompressionError::InvalidBitLength(num_bits));
        }
        if num_bits > self.buffer.len() * 8 - self.bit_position {
            return Err(CompressionError::InsufficientData);
        }
        let v = self.value_at(self.bit_position, num_bits);
        self.bit_position = self.bit_position + num_bits;
        Ok(v)
    }

    /// Like `read_bits`, without consuming anything.
    pub fn peek_bits(&self, num_bits: usize) -> (r: Result<u64, CompressionError>)
        requires
            self.wf(),
        ensures
            num_bits > 64 ==> r == Err::<u64, CompressionError>(CompressionError::InvalidBitLength(num_bits)),
            num_bits <= 64 ==> match r {
                Ok(v) => self.position() + num_bits <= self.stream().len() && v as nat == val_msb(
                    self.stream().subrange(self.position() as int, self.position() + num_bits),
                ),
                Err(e) => self.position() + num_bits > self.stream().len() && e
                    == CompressionError::InsufficientData,
            },
    {
        if num_bits > 64 {
            return Err(CompressionError::InvalidBitLength(num_bits));
        }
        if num_bits > self.buffer.len() * 8 - self.bit_position {
            return Err(CompressionError::InsufficientData);
        }
        Ok(self.value_at(self.bit_position, num_bits))
    }
}

/// What a reader over finished bytes yields: the written bits, in order,
/// then only zero bits until the stream is exhausted, fewer than eight of them.
pub proof fn lemma_written_bits_read_back(bytes: Seq<u8>, written: Seq<bool>)
    requires
        packs(bytes, written),
    ensures
        bits_of(bytes).len() >= written.len(),
        bits_of(bytes).len() < written.len() + 8,
        forall|p: int| 0 <= p < written.len() ==> #[trigger] bits_of(bytes)[p] == written[p],
        forall|p: int| written.len() <= p < bits_of(bytes).len() ==> !#[trigger] bits_of(bytes)[p],
{
    assert forall|p: int| 0 <= p < written.len() implies #[trigger] bits_of(bytes)[p] == written[p] by {
        assert(bits_of(bytes).take(written.len() as int)[p] == bits_of(bytes)[p]);
    }
}

/// The bits that a run of `write_bits(value, width)` calls appends, in order.
pub open spec fn writes_bits(ws: Seq<(u64, nat)>) -> Seq<bool>
    decreases ws.len(),
{
    if ws.len() == 0 {
        Seq::empty()
    } else {
        writes_bits(ws.drop_last()) + bits_msb(ws.last().0 as nat, ws.last().1)
    }
}

proof fn lemma_writes_prefix(ws: Seq<(u64, nat)>, j: int)
    requires
        0 <= j <= ws.len(),
    ensures
        writes_bits(ws.take(j)).len() <= writes_bits(ws).len(),
        writes_bits(ws).take(writes_bits(ws.take(j)).len() as int) == writes_bits(ws.take(j)),
    decreases ws.len() - j,
{
    if j == ws.len() {
        assert(ws.take(j) =~= ws);
        assert(writes_bits(ws).take(writes_bits(ws).len() as int) =~= writes_bits(ws));
    } else {
        lemma_writes_prefix(ws, j + 1);
        assert(ws.take(j + 1).drop_last() =~= ws.take(j));
        let a = writes_bits(ws.take(j));
        let b = writes_bits(ws.take(j + 1));
        assert(b.take(a.len() as int) =~= a);
        assert(writes_bits(ws).take(a.len() as int) =~= b.take(a.len() as int));
    }
}

/// After any run of `write_bits` calls, each of width at most 64 with a value
/// that fits it, the finished bytes read back, at each call's offset and width,
/// the value that call wrote.
pub proof fn lemma_writes_read_back(bytes: Seq<u8>, ws: Seq<(u64, nat)>, j: int)
    requires
        packs(bytes, writes_bits(ws)),
        0 <= j < ws.len(),
        ws[j].1 <= 64,
        ws[j].0 < pow2(ws[j].1),
    ensures
        ({
            let o = writes_bits(ws.take(j)).len() as int;
            val_msb(bits_of(bytes).subrange(o, o + ws[j].1)) == ws[j].0
        }),
{
    let o = writes_bits(ws.take(j)).len() as int;
    let n = ws[j].1;
    lemma_writes_prefix(ws, j + 1);
    assert(ws.take(j + 1).drop_last() =~= ws.take(j));
    let b = writes_bits(ws.take(j + 1));
    assert(b.subrange(o, o + n) =~= bits_msb(ws[j].0 as nat, n));
    lemma_written_bits_read_back(bytes, writes_bits(ws));
    assert(bits_of(bytes).subrange(o, o + n) =~= b.subrange(o, o + n)) by {
        assert forall|q: int| o <= q < o + n implies #[trigger] bits_of(bytes)[q] == b[q] by {
            assert(writes_bits(ws).take(b.len() as int)[q] == writes_bits(ws)[q]);
        }
    }
    lemma_bits_value_round_trip(ws[j].0 as nat, n);
    vstd::arithmetic::div_mod::lemma_small_mod(ws[j].0 as nat, pow2(n));
}

} // verus!
