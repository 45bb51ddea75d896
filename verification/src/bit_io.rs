//! A writer that appends bit fields to a growing byte buffer and a reader that
//! consumes them again, most significant bit first.

use crate::bits::{
    bits_of, lemma_bits_of_len, lemma_unpack_pack, lemma_value_of_bits_of, lemma_value_of_bound,
    pack, padding, unpack, value_of, zeros,
};
use vstd::arithmetic::power2::{
    lemma2_to64, lemma2_to64_rest, lemma_pow2_pos, lemma_pow2_strictly_increases, pow2,
};
use vstd::prelude::*;

verus! {

/// The digit of a byte at `index` (0 is the most significant) is the bit that
/// a right shift brings to the lowest place.
proof fn lemma_byte_bit(b: u8, index: int)
    requires
        0 <= index < 8,
    ensures
        bits_of(b as nat, 8).len() == 8,
        bits_of(b as nat, 8)[index] == ((b >> ((7 - index) as u8)) & 1 == 1),
{
    reveal_with_fuel(bits_of, 9);
    lemma_bits_of_len(b as nat, 8);
    assert(((b >> 7u8) & 1 == 1) == ((b / 128) % 2 == 1)) by (bit_vector);
    assert(((b >> 6u8) & 1 == 1) == ((b / 64) % 2 == 1)) by (bit_vector);
    assert(((b >> 5u8) & 1 == 1) == ((b / 32) % 2 == 1)) by (bit_vector);
    assert(((b >> 4u8) & 1 == 1) == ((b / 16) % 2 == 1)) by (bit_vector);
    assert(((b >> 3u8) & 1 == 1) == ((b / 8) % 2 == 1)) by (bit_vector);
    assert(((b >> 2u8) & 1 == 1) == ((b / 4) % 2 == 1)) by (bit_vector);
    assert(((b >> 1u8) & 1 == 1) == ((b / 2) % 2 == 1)) by (bit_vector);
    assert(((b >> 0u8) & 1 == 1) == (b % 2 == 1)) by (bit_vector);
}

proof fn lemma_set_bit(b: u8, k: u8, j: u8)
    by (bit_vector)
    requires
        k < 8,
        j < 8,
    ensures
        (((b | (1u8 << k)) >> j) & 1 == 1) == (((b >> j) & 1 == 1) || j == k),
{
}

/// Appends bit fields to a byte buffer. Its view is the sequence of bits
/// written so far.
#[derive(Debug, Clone)]
pub struct GorillaBitWriter {
    buffer: Vec<u8>,
    /// How many low bits of the last byte are still unused.
    free: u8,
}

impl View for GorillaBitWriter {
    type V = Seq<bool>;

    closed spec fn view(&self) -> Seq<bool> {
        unpack(self.buffer@).take(8 * self.buffer.len() - self.free)
    }
}

impl GorillaBitWriter {
    /// The buffer ends in exactly the unused bits, and they are zero.
    pub closed spec fn wf(&self) -> bool {
        &&& self.free < 8
        &&& self.free > 0 ==> self.buffer.len() > 0
        &&& forall|i: int|
            8 * self.buffer.len() - self.free <= i < 8 * self.buffer.len() ==> !#[trigger] unpack(
                self.buffer@,
            )[i]
    }

    /// A writer that has written nothing.
    pub fn new() -> (writer: Self)
        ensures
            writer.wf(),
            writer@ == Seq::<bool>::empty(),
    {
        let writer = Self { buffer: Vec::new(), free: 0 };
        assert(writer@ =~= Seq::<bool>::empty());
        writer
    }

    fn push_bit(&mut self, bit: bool)
        requires
            old(self).wf(),
        ensures
            final(self).wf(),
            final(self)@ == old(self)@.push(bit),
    {
        let ghost before = unpack(self.buffer@);
        let ghost len = self.buffer.len() as int;
        if self.free == 0 {
            let byte: u8 = if bit {
                0x80
            } else {
                0
            };
            self.buffer.push(byte);
            self.free = 7;
            proof {
                let after = unpack(self.buffer@);
                assert forall|i: int| 8 * len <= i < 8 * len + 8 implies #[trigger] after[i] == (i
                    == 8 * len && bit) by {
                    lemma_byte_bit(byte, i % 8);
                    let shift = (7 - i % 8) as u8;
                    assert(((0x80u8 >> shift) & 1 == 1) == (shift == 7)) by (bit_vector)
                        requires
                            shift < 8,
                    ;
                    assert((0u8 >> shift) & 1 == 0) by (bit_vector);
                }
                assert forall|i: int| 0 <= i < 8 * len implies after[i] == before[i] by {
                    assert(self.buffer@[i / 8] == old(self).buffer@[i / 8]);
                }
                assert(self@ =~= old(self)@.push(bit));
            }
        } else {
            let last: usize = self.buffer.len() - 1;
            let b: u8 = self.buffer[last];
            let shift: u8 = self.free - 1;
            let byte: u8 = if bit {
                b | (1u8 << shift)
            } else {
                b
            };
            self.buffer.set(last, byte);
            self.free = shift;
            proof {
                let after = unpack(self.buffer@);
                assert forall|i: int| 8 * last <= i < 8 * len implies #[trigger] after[i] == (
                before[i] || (i == 8 * len - shift - 1 && bit)) by {
                    lemma_byte_bit(byte, i % 8);
                    lemma_byte_bit(b, i % 8);
                    lemma_set_bit(b, shift, (7 - i % 8) as u8);
                }
                assert forall|i: int| 0 <= i < 8 * last implies after[i] == before[i] by {
                    assert(self.buffer@[i / 8] == old(self).buffer@[i / 8]);
                }
                assert(!before[8 * len - shift - 1]);
                assert(self@ =~= old(self)@.push(bit));
            }
        }
    }

    /// Appends the low `num_bits` bits of `value`, most significant first.
    /// A width of zero or of more than 64 writes nothing.
    pub fn write_bits(&mut self, value: u64, num_bits: usize)
        requires
            old(self).wf(),
        ensures
            final(self).wf(),
            final(self)@ == old(self)@ + written_bits(value, num_bits),
    {
        if num_bits == 0 || num_bits > 64 {
            assert(self@ =~= old(self)@ + written_bits(value, num_bits));
            return ;
        }
        let mut remaining: usize = num_bits;
        proof {
            let none = bits_of((value as nat) / pow2(num_bits as nat), 0);
            lemma_bits_of_len((value as nat) / pow2(num_bits as nat), 0);
            assert(self@ =~= old(self)@ + none);
        }
        while remaining > 0
            invariant
                self.wf(),
                remaining <= num_bits <= 64,
                self@ == old(self)@ + bits_of(
                    (value as nat) / pow2(remaining as nat),
                    (num_bits - remaining) as nat,
                ),
            decreases remaining,
        {
            let shift: usize = remaining - 1;
            let bit = (value >> shift) & 1 == 1;
            proof {
                let high = (value as nat) / pow2(remaining as nat);
                let low = (value as nat) / pow2(shift as nat);
                vstd::arithmetic::power2::lemma_pow2_pos(shift as nat);
                vstd::arithmetic::power2::lemma_pow2_unfold(remaining as nat);
                vstd::arithmetic::div_mod::lemma_div_denominator(
                    value as int,
                    pow2(shift as nat) as int,
                    2,
                );
                assert(pow2(shift as nat) * 2 == pow2(remaining as nat));
                assert(low / 2 == high);
                vstd::bits::lemma_u64_shr_is_div(value, shift as u64);
                let shifted = value >> shift;
                assert(shifted == low);
                assert((shifted & 1 == 1) == (shifted % 2 == 1)) by (bit_vector);
                assert(bits_of(low, (num_bits - shift) as nat) == bits_of(
                    high,
                    (num_bits - remaining) as nat,
                ).push(bit));
            }
            self.push_bit(bit);
            remaining = shift;
            assert(self@ =~= old(self)@ + bits_of(
                (value as nat) / pow2(remaining as nat),
                (num_bits - remaining) as nat,
            ));
        }
        proof {
            lemma2_to64();
            assert((value as nat) / pow2(0) == value as nat);
            assert(written_bits(value, num_bits) == bits_of(value as nat, num_bits as nat));
        }
    }

    /// The bytes that hold the bits written so far; the last byte is
    /// completed with zero bits.
    pub fn get_bytes(&self) -> (bytes: &[u8])
        requires
            self.wf(),
        ensures
            bytes@ == pack(self@),
    {
        proof {
            let bits = self@;
            let padded = bits + zeros(padding(bits.len()));
            assert(unpack(self.buffer@) =~= padded);
            lemma_unpack_pack(bits);
            lemma_unpack_injective(self.buffer@, pack(bits));
        }
        self.buffer.as_slice()
    }
}

/// What `write_bits` appends for a value and a width.
pub open spec fn written_bits(value: u64, num_bits: usize) -> Seq<bool> {
    if 1 <= num_bits <= 64 {
        bits_of(value as nat, num_bits as nat)
    } else {
        Seq::empty()
    }
}

/// Two byte buffers that hold the same bits are the same.
pub proof fn lemma_unpack_injective(a: Seq<u8>, b: Seq<u8>)
    requires
        unpack(a) == unpack(b),
    ensures
        a == b,
{
    assert(unpack(a).len() == 8 * a.len());
    assert(unpack(b).len() == 8 * b.len());
    assert(a.len() == b.len());
    lemma2_to64();
    assert forall|j: int| 0 <= j < a.len() implies a[j] == b[j] by {
        let x = bits_of(a[j] as nat, 8);
        let y = bits_of(b[j] as nat, 8);
        lemma_bits_of_len(a[j] as nat, 8);
        lemma_bits_of_len(b[j] as nat, 8);
        assert forall|r: int| 0 <= r < 8 implies x[r] == y[r] by {
            assert(unpack(a)[8 * j + r] == x[r]);
            assert(unpack(b)[8 * j + r] == y[r]);
        }
        assert(x =~= y);
        crate::bits::lemma_value_of_bits_of_small(a[j] as nat, 8);
        crate::bits::lemma_value_of_bits_of_small(b[j] as nat, 8);
    }
    assert(a =~= b);
}

impl Default for GorillaBitWriter {
    fn default() -> (writer: Self)
        ensures
            writer.wf(),
            writer@ == Seq::<bool>::empty(),
    {
        Self::new()
    }
}

/// What a read of `num_bits` bits returns when `rest` is still unread: the
/// number that the next bits denote, nothing when too few are left, and zero
/// for a width that is not between 1 and 64.
pub open spec fn take_bits(rest: Seq<bool>, num_bits: usize) -> Option<u64> {
    if num_bits == 0 || num_bits > 64 {
        Some(0)
    } else if rest.len() < num_bits {
        None
    } else {
        Some(value_of(rest.take(num_bits as int)) as u64)
    }
}

/// What is still unread after a read of `num_bits` bits from `rest`.
pub open spec fn after_bits(rest: Seq<bool>, num_bits: usize) -> Seq<bool> {
    if 1 <= num_bits <= 64 && rest.len() >= num_bits {
        rest.skip(num_bits as int)
    } else {
        rest
    }
}

proof fn lemma_shift_in(acc: u64, bit: u8)
    by (bit_vector)
    requires
        acc < 0x8000_0000_0000_0000,
        bit <= 1,
    ensures
        (acc << 1) | (bit as u64) == 2 * acc + bit,
{
}

/// Consumes bit fields from a byte buffer that it owns.
#[derive(Debug, Clone)]
pub struct GorillaBitReader {
    buffer: Vec<u8>,
    byte_pos: usize,
    /// How many bits of the byte at `byte_pos` are already consumed.
    bit_off: u8,
}

impl GorillaBitReader {
    /// The position is a bit of the buffer, or its end.
    pub closed spec fn wf(&self) -> bool {
        &&& self.bit_off < 8
        &&& self.byte_pos <= self.buffer.len()
        &&& self.byte_pos == self.buffer.len() ==> self.bit_off == 0
    }

    /// Every bit of the buffer, consumed or not.
    pub closed spec fn bits(&self) -> Seq<bool> {
        unpack(self.buffer@)
    }

    /// How many bits are consumed.
    pub closed spec fn position(&self) -> nat {
        (8 * self.byte_pos + self.bit_off) as nat
    }

    /// The bits that are not consumed yet.
    pub open spec fn remaining(&self) -> Seq<bool> {
        self.bits().skip(self.position() as int)
    }

    /// A reader at the first bit of `data`.
    pub fn new(data: Vec<u8>) -> (reader: Self)
        ensures
            reader.wf(),
            reader.bits() == unpack(data@),
            reader.position() == 0,
    {
        Self { buffer: data, byte_pos: 0, bit_off: 0 }
    }

    /// The value that `read_bits` would return, without consuming anything.
    pub fn peek_bits(&self, num_bits: usize) -> (r: Option<u64>)
        requires
            self.wf(),
        ensures
            r == take_bits(self.remaining(), num_bits),
    {
        if num_bits == 0 || num_bits > 64 {
            return Some(0);
        }
        let avail_bytes: usize = self.buffer.len() - self.byte_pos;
        if avail_bytes < 9 {
            let avail_bits: usize = 8 * avail_bytes - self.bit_off as usize;
            if avail_bits < num_bits {
                return None;
            }
        }
        let ghost rest = self.remaining();
        let mut result: u64 = 0;
        let mut byte: usize = self.byte_pos;
        let mut off: u8 = self.bit_off;
        let mut count: usize = 0;
        while count < num_bits
            invariant
                self.wf(),
                rest == self.remaining(),
                count <= num_bits <= 64,
                off < 8,
                8 * byte + off == 8 * self.byte_pos + self.bit_off + count,
                8 * self.byte_pos + self.bit_off + num_bits <= 8 * self.buffer.len(),
                result as nat == value_of(rest.take(count as int)),
            decreases num_bits - count,
        {
            let bit: u8 = (self.buffer[byte] >> (7 - off)) & 1;
            proof {
                let shorter = rest.take(count as int);
                let longer = rest.take(count + 1);
                assert(longer.drop_last() =~= shorter);
                let index = 8 * byte + off;
                assert(longer.last() == self.bits()[index]);
                assert(index / 8 == byte && index % 8 == off);
                let source: u8 = self.buffer@[byte as int];
                let shift: u8 = (7 - off) as u8;
                lemma_byte_bit(source, off as int);
                assert(bit <= 1) by (bit_vector)
                    requires
                        bit == (source >> shift) & 1,
                ;
                lemma_value_of_bound(shorter);
                lemma2_to64_rest();
                if count < 63 {
                    lemma_pow2_strictly_increases(count as nat, 63);
                }
                lemma_shift_in(result, bit);
            }
            result = (result << 1) | (bit as u64);
            if off == 7 {
                off = 0;
                byte = byte + 1;
            } else {
                off = off + 1;
            }
            count = count + 1;
        }
        Some(result)
    }

    /// Reads the next `num_bits` bits as a number, most significant bit first.
    /// Returns `None`, consuming nothing, when fewer bits remain; a width of
    /// zero or of more than 64 reads nothing and returns zero.
    pub fn read_bits(&mut self, num_bits: usize) -> (r: Option<u64>)
        requires
            old(self).wf(),
        ensures
            final(self).wf(),
            final(self).bits() == old(self).bits(),
            r == take_bits(old(self).remaining(), num_bits),
            final(self).remaining() == after_bits(old(self).remaining(), num_bits),
    {
        let r = self.peek_bits(num_bits);
        if num_bits == 0 || num_bits > 64 || r.is_none() {
            return r;
        }
        let total: usize = self.bit_off as usize + num_bits;
        self.byte_pos = self.byte_pos + total / 8;
        self.bit_off = (total % 8) as u8;
        assert(self.remaining() =~= old(self).remaining().skip(num_bits as int));
        r
    }

    /// Whether any bit is still unread.
    pub fn has_more_data(&self) -> (more: bool)
        requires
            self.wf(),
        ensures
            more == (self.remaining().len() > 0),
    {
        self.byte_pos < self.buffer.len()
    }
}

/// A field written at the front of a stream is read back modulo its width.
pub proof fn lemma_take_field(value: nat, width: usize, tail: Seq<bool>)
    requires
        1 <= width <= 64,
        value <= u64::MAX,
    ensures
        take_bits(bits_of(value, width as nat) + tail, width) == Some(
            (value % pow2(width as nat)) as u64,
        ),
        after_bits(bits_of(value, width as nat) + tail, width) == tail,
        value % pow2(width as nat) <= value,
{
    let field = bits_of(value, width as nat);
    lemma_bits_of_len(value, width as nat);
    assert((field + tail).take(width as int) =~= field);
    assert((field + tail).skip(width as int) =~= tail);
    lemma_value_of_bits_of(value, width as nat);
    lemma_pow2_pos(width as nat);
    vstd::arithmetic::div_mod::lemma_mod_decreases(value, pow2(width as nat));
}

/// What a read of `width` bits returns of a value written with that width:
/// its low `width` bits, and zero for a width that is not between 1 and 64.
pub open spec fn low_bits(value: u64, width: usize) -> u64 {
    if 1 <= width <= 64 {
        (value as nat % pow2(width as nat)) as u64
    } else {
        0
    }
}

/// The bits that a sequence of writes appends: the values `values`, each with
/// the width at its place in `widths`.
pub open spec fn written_all(values: Seq<u64>, widths: Seq<usize>) -> Seq<bool>
    decreases widths.len(),
{
    if widths.len() == 0 || values.len() == 0 {
        Seq::empty()
    } else {
        written_bits(values[0], widths[0]) + written_all(values.drop_first(), widths.drop_first())
    }
}

/// What a sequence of reads with the widths `widths` returns when `rest` is
/// still unread.
pub open spec fn read_all(rest: Seq<bool>, widths: Seq<usize>) -> Seq<Option<u64>>
    decreases widths.len(),
{
    if widths.len() == 0 {
        Seq::empty()
    } else {
        seq![take_bits(rest, widths[0])] + read_all(
            after_bits(rest, widths[0]),
            widths.drop_first(),
        )
    }
}

/// One more write appends its bits to those of the writes before it.
pub proof fn lemma_written_all_push(values: Seq<u64>, widths: Seq<usize>, value: u64, width: usize)
    requires
        values.len() == widths.len(),
    ensures
        written_all(values.push(value), widths.push(width)) == written_all(values, widths)
            + written_bits(value, width),
    decreases widths.len(),
{
    let more_values = values.push(value);
    let more_widths = widths.push(width);
    if widths.len() == 0 {
        assert(more_values.drop_first() =~= Seq::<u64>::empty());
        assert(more_widths.drop_first() =~= Seq::<usize>::empty());
        assert(written_all(more_values.drop_first(), more_widths.drop_first()) =~= Seq::<
            bool,
        >::empty());
        assert(more_values[0] == value && more_widths[0] == width);
        assert(written_all(more_values, more_widths) =~= written_bits(value, width));
        assert(written_all(values, widths) + written_bits(value, width) =~= written_bits(
            value,
            width,
        ));
    } else {
        lemma_written_all_push(values.drop_first(), widths.drop_first(), value, width);
        assert(more_values.drop_first() =~= values.drop_first().push(value));
        assert(more_widths.drop_first() =~= widths.drop_first().push(width));
        assert(written_all(more_values, more_widths) =~= written_all(values, widths)
            + written_bits(value, width));
    }
}

/// A sequence of writes followed by a sequence of reads with the same widths
/// returns the values written, each reduced to its width; whatever follows
/// the written bits does not matter.
pub proof fn lemma_reads_return_writes(values: Seq<u64>, widths: Seq<usize>, tail: Seq<bool>)
    requires
        values.len() == widths.len(),
    ensures
        read_all(written_all(values, widths) + tail, widths) == Seq::new(
            widths.len(),
            |i: int| Some(low_bits(values[i], widths[i])),
        ),
    decreases widths.len(),
{
    let expected = Seq::new(widths.len(), |i: int| Some(low_bits(values[i], widths[i])));
    if widths.len() == 0 {
        assert(read_all(written_all(values, widths) + tail, widths) =~= expected);
    } else {
        let first = written_bits(values[0], widths[0]);
        let others = written_all(values.drop_first(), widths.drop_first());
        let rest = written_all(values, widths) + tail;
        assert(rest =~= first + (others + tail));
        if 1 <= widths[0] <= 64 {
            lemma_take_field(values[0] as nat, widths[0], others + tail);
        } else {
            assert(first + (others + tail) =~= others + tail);
        }
        assert(take_bits(rest, widths[0]) == Some(low_bits(values[0], widths[0])));
        assert(after_bits(rest, widths[0]) == others + tail);
        lemma_reads_return_writes(values.drop_first(), widths.drop_first(), tail);
        assert(read_all(rest, widths) =~= expected);
    }
}

/// The same through the bytes of the writer: the padding of the last byte
/// does not matter.
pub proof fn lemma_reads_return_writes_from_bytes(values: Seq<u64>, widths: Seq<usize>)
    requires
        values.len() == widths.len(),
    ensures
        read_all(unpack(pack(written_all(values, widths))), widths) == Seq::new(
            widths.len(),
            |i: int| Some(low_bits(values[i], widths[i])),
        ),
{
    let bits = written_all(values, widths);
    lemma_unpack_pack(bits);
    lemma_reads_return_writes(values, widths, zeros(padding(bits.len())));
}

/// A value that fits its width is read back unchanged.
pub proof fn lemma_low_bits_of_small(value: u64, width: usize)
    requires
        1 <= width <= 64,
        value < pow2(width as nat),
    ensures
        low_bits(value, width) == value,
{
    vstd::arithmetic::div_mod::lemma_small_mod(value as nat, pow2(width as nat));
}

} // verus!
