//! Bits are written from the low end of a 64-bit register upwards and read
//! back from the end of the buffer: what is written first is read last.

use vstd::prelude::*;
use vstd::arithmetic::power2::{pow2, lemma_pow2_pos, lemma_pow2_unfold, lemma2_to64};
use vstd::std_specs::bits::axiom_u32_leading_zeros;

verus! {

/// Index of the highest set bit of `val`: the `r` with `2^r <= val < 2^(r+1)`.
/// Zero has no set bit; the function is 0 there.
pub open spec fn spec_highbit(val: nat) -> nat
    decreases val,
{
    if val <= 1 {
        0
    } else {
        1 + spec_highbit(val / 2)
    }
}

/// `spec_highbit(val)` is the one exponent whose power of two brackets `val`.
pub proof fn lemma_highbit_bracket(val: nat, r: nat)
    requires
        pow2(r) <= val < 2 * pow2(r),
    ensures
        spec_highbit(val) == r,
    decreases r,
{
    lemma2_to64();
    if r == 0 {
    } else {
        lemma_pow2_unfold(r);
        lemma_pow2_pos((r - 1) as nat);
        lemma_highbit_bracket(val / 2, (r - 1) as nat);
    }
}

/// The bracket that `spec_highbit` finds for a nonzero value.
pub proof fn lemma_highbit_bounds(val: nat)
    requires
        val > 0,
    ensures
        pow2(spec_highbit(val)) <= val < 2 * pow2(spec_highbit(val)),
    decreases val,
{
    lemma2_to64();
    if val <= 1 {
    } else {
        lemma_highbit_bounds(val / 2);
        lemma_pow2_unfold(spec_highbit(val));
    }
}

proof fn lemma_leading_zeros_bracket(val: u32, r: u32)
    requires
        r < 32,
        (val >> r) & 1u32 != 0u32,
        r < 31 ==> val >> ((r + 1) as u32) == 0u32,
    ensures
        pow2(r as nat) <= val < 2 * pow2(r as nat),
{
    assert((1u32 << r) <= val && (r < 31 ==> val < (1u32 << ((r + 1) as u32)))) by (bit_vector)
        requires
            r < 32,
            (val >> r) & 1u32 != 0u32,
            r < 31 ==> val >> ((r + 1) as u32) == 0u32,
    ;
    lemma2_to64();
    vstd::arithmetic::power2::lemma_pow2_strictly_increases(r as nat, 32);
    vstd::bits::lemma_u32_shl_is_mul(1, r);
    if r < 31 {
        lemma_pow2_unfold((r + 1) as nat);
        vstd::bits::lemma_u32_shl_is_mul(1, (r + 1) as u32);
    } else {
        lemma_pow2_unfold(32);
    }
}

/// Position of the highest set bit of `val`, counted from bit 0.
///
/// For zero the two operations give 63.
pub fn highbit_pos(val: u32) -> (pos: u32)
    ensures
        val > 0 ==> pos == spec_highbit(val as nat) && pos < 32,
        val == 0 ==> pos == 63,
{
    let zeros: u32 = val.leading_zeros();
    proof {
        axiom_u32_leading_zeros(val);
        assert(zeros <= 32);
        assert(zeros <= 32 ==> (zeros ^ 31u32) == (if zeros == 32 { 63u32 } else { (31u32 - zeros) as u32 })) by (bit_vector);
        if val > 0 {
            let r: u32 = (31 - zeros) as u32;
            lemma_leading_zeros_bracket(val, r);
            lemma_highbit_bracket(val as nat, r as nat);
        }
    }
    zeros ^ 31
}

/// Position of the highest set bit of `val`; the same function as
/// [`highbit_pos`].
pub fn bit_highbit32(val: u32) -> (pos: u32)
    ensures
        val > 0 ==> pos == spec_highbit(val as nat) && pos < 32,
        val == 0 ==> pos == 63,
{
    highbit_pos(val)
}

} // verus!

verus! {

/// The register that both streams accumulate bits in.
pub type BitContainer = u64;

pub const BIT_CONTAINER_BYTES: usize = 8;

pub const NUM_BITS_IN_BIT_CONTAINER: u32 = 64;

/// Value of a byte sequence read as a little-endian number.
pub open spec fn le_value(bytes: Seq<u8>) -> nat
    decreases bytes.len(),
{
    if bytes.len() == 0 {
        0
    } else {
        bytes[0] as nat + 256 * le_value(bytes.drop_first())
    }
}

/// Byte `i` of `value` in little-endian order.
pub open spec fn le_byte(value: u64, i: nat) -> u8 {
    ((value as nat / pow2(8 * i)) % 256) as u8
}

pub proof fn lemma_le_value_bound(bytes: Seq<u8>)
    ensures
        le_value(bytes) < pow2(8 * bytes.len()),
    decreases bytes.len(),
{
    lemma2_to64();
    if bytes.len() > 0 {
        lemma_le_value_bound(bytes.drop_first());
        vstd::arithmetic::power2::lemma_pow2_adds(8, (8 * (bytes.len() - 1)) as nat);
    }
}

/// Trailing zero bytes do not change a little-endian value.
pub proof fn lemma_le_value_zero_padded(bytes: Seq<u8>, n: nat)
    ensures
        le_value(bytes + Seq::new(n, |i: int| 0u8)) == le_value(bytes),
    decreases bytes.len(), n,
{
    let padded = bytes + Seq::new(n, |i: int| 0u8);
    if bytes.len() == 0 {
        if n > 0 {
            assert(padded.drop_first() =~= Seq::<u8>::empty() + Seq::new(
                (n - 1) as nat,
                |i: int| 0u8,
            ));
            lemma_le_value_zero_padded(Seq::<u8>::empty(), (n - 1) as nat);
            assert(bytes =~= Seq::<u8>::empty());
        } else {
            assert(padded =~= bytes);
        }
    } else {
        assert(padded.drop_first() =~= bytes.drop_first() + Seq::new(n, |i: int| 0u8));
        lemma_le_value_zero_padded(bytes.drop_first(), n);
    }
}

/// Stores `el` at `output[pos..pos + 8]`, low byte first.
pub fn push_usize(output: &mut [u8], pos: usize, el: u64)
    requires
        pos + 8 <= old(output)@.len(),
    ensures
        final(output)@.len() == old(output)@.len(),
        forall|i: int| 0 <= i < pos || pos + 8 <= i < old(output)@.len() ==> final(output)@[i] == old(output)@[i],
        forall|i: int| 0 <= i < 8 ==> #[trigger] final(output)@[pos + i] == le_byte(el, i as nat),
{
    let len = output.len();
    let mut i: usize = 0;
    while i < 8
        invariant
            i <= 8,
            len == output@.len(),
            pos + 8 <= output@.len(),
            output@.len() == old(output)@.len(),
            forall|j: int| 0 <= j < pos || pos + 8 <= j < output@.len() ==> output@[j] == old(output)@[j],
            forall|j: int| 0 <= j < i ==> #[trigger] output@[pos + j] == le_byte(el, j as nat),
        decreases 8 - i,
    {
        let shift: u64 = 8 * i as u64;
        let byte: u8 = #[verifier::truncate] ((el >> shift) as u8);
        proof {
            vstd::bits::lemma_u64_shr_is_div(el, shift);
            let shifted = el >> shift;
            assert(shifted as u8 == shifted % 256) by (bit_vector);
        }
        output[pos + i] = byte;
        i += 1;
    }
}

/// Reads the `count` bytes `input[pos..pos + count]` as a little-endian
/// number.
pub fn read_le_bytes(input: &[u8], pos: usize, count: usize) -> (num: u64)
    requires
        count <= 8,
        pos + count <= input@.len(),
    ensures
        num == le_value(input@.subrange(pos as int, pos + count)),
{
    let len = input.len();
    let mut num: u64 = 0;
    let mut i: usize = count;
    assert(input@.subrange(pos + count, pos + count) =~= Seq::<u8>::empty());
    while i > 0
        invariant
            i <= count <= 8,
            len == input@.len(),
            pos + count <= input@.len(),
            num == le_value(input@.subrange(pos + i, pos + count)),
        decreases i,
    {
        i -= 1;
        let byte: u8 = input[pos + i];
        proof {
            let rest = input@.subrange(pos + i + 1, pos + count);
            let here = input@.subrange(pos + i, pos + count);
            assert(here.drop_first() =~= rest);
            lemma_le_value_bound(rest);
            lemma2_to64();
            vstd::arithmetic::power2::lemma2_to64_rest();
            if rest.len() < 7 {
                vstd::arithmetic::power2::lemma_pow2_strictly_increases((8 * rest.len()) as nat, 56);
            }
            assert(num < 0x0100_0000_0000_0000u64 ==> ((num << 8) | (byte as u64)) == num * 256
                + byte as u64) by (bit_vector);
        }
        num = (num << 8) | (byte as u64);
    }
    num
}

/// Reads the eight bytes `input[pos..pos + 8]` as a little-endian number.
pub fn read_usize(input: &[u8], pos: usize) -> (num: u64)
    requires
        pos + 8 <= input@.len(),
    ensures
        num == le_value(input@.subrange(pos as int, pos + 8)),
{
    read_le_bytes(input, pos, 8)
}

/// What a reload of the reader reports.
#[derive(Debug, PartialEq, Eq, Clone, Copy, Structural)]
pub enum BitDstreamStatus {
    /// More of the buffer lies ahead; the register was refilled.
    Unfinished,
    /// The register now starts at the first byte of the buffer.
    EndOfBuffer,
    /// Every bit of the buffer has been read.
    Completed,
    /// More bits were read than the buffer holds: the end of the data.
    Overflow,
}

/// Writer of a reverse bit stream. The bytes go to a buffer that the caller
/// holds; the writer keeps the register, the number of bits in it, and the
/// position in the buffer.
#[derive(Debug)]
pub struct BitCstream {
    pub bit_container: u64,
    pub bit_pos: u32,
    pub data_pos: usize,
}

/// The low `nb_bits` bits of `value`.
pub open spec fn low_bits(value: u64, nb_bits: u32) -> nat {
    value as nat % pow2(nb_bits as nat)
}

proof fn lemma_or_is_add(container: u64, field: u64, bit_pos: u32)
    requires
        bit_pos < 64,
        container < pow2(bit_pos as nat),
        field * pow2(bit_pos as nat) <= u64::MAX,
    ensures
        container | (field << bit_pos) == container + field * pow2(bit_pos as nat),
{
    vstd::arithmetic::power2::lemma_pow2_strictly_increases(bit_pos as nat, 64);
    lemma2_to64();
    lemma_pow2_pos(bit_pos as nat);
    vstd::bits::lemma_u64_shl_is_mul(field, bit_pos as u64);
    vstd::bits::lemma_u64_shl_is_mul(1, bit_pos as u64);
    let shifted = field << bit_pos;
    let limit = 1u64 << bit_pos;
    vstd::bits::lemma_u64_shr_is_div(shifted, bit_pos as u64);
    vstd::arithmetic::div_mod::lemma_div_by_multiple(field as int, pow2(bit_pos as nat) as int);
    assert(container | shifted == container + shifted) by (bit_vector)
        requires
            bit_pos < 64,
            container < limit,
            limit == 1u64 << bit_pos,
            shifted == field << bit_pos,
            (shifted >> bit_pos) == field,
    ;
}

impl BitCstream {
    /// The register holds `bit_pos` bits and nothing above them.
    pub open spec fn wf(&self) -> bool {
        self.bit_pos < 64 && (self.bit_container as nat) < pow2(self.bit_pos as nat)
    }

    /// A writer with nothing written.
    pub fn new() -> (stream: Self)
        ensures
            stream.wf(),
            stream.bit_container == 0,
            stream.bit_pos == 0,
            stream.data_pos == 0,
    {
        proof {
            lemma2_to64();
        }
        BitCstream { bit_container: 0, bit_pos: 0, data_pos: 0 }
    }

    /// The written part of `data`.
    pub fn get_compressed_data<'a>(&self, data: &'a [u8]) -> (out: &'a [u8])
        requires
            self.data_pos + (if self.bit_pos > 0 { 1int } else { 0int }) <= data@.len(),
        ensures
            out@ == data@.subrange(
                0,
                self.data_pos + (if self.bit_pos > 0 { 1int } else { 0int }),
            ),
    {
        let len = data.len();
        vstd::slice::slice_subrange(data, 0, self.get_compressed_size())
    }

    /// Bytes written so far, a started byte counted as one.
    pub fn get_compressed_size(&self) -> (size: usize)
        requires
            self.bit_pos > 0 ==> self.data_pos < usize::MAX,
        ensures
            size == self.data_pos + (if self.bit_pos > 0 { 1int } else { 0int }),
    {
        let last_byte: usize = if self.bit_pos > 0 { 1 } else { 0 };
        self.data_pos + last_byte
    }

    /// Puts the low `nb_bits` bits of `value` above the bits in the register.
    pub fn add_bits(&mut self, value: u64, nb_bits: u32)
        requires
            old(self).wf(),
            nb_bits < 32,
            old(self).bit_pos + nb_bits < 64,
        ensures
            final(self).wf(),
            final(self).bit_container == old(self).bit_container + low_bits(value, nb_bits) * pow2(
                old(self).bit_pos as nat,
            ),
            final(self).bit_pos == old(self).bit_pos + nb_bits,
            final(self).data_pos == old(self).data_pos,
    {
        proof {
            lemma2_to64();
            vstd::arithmetic::power2::lemma_pow2_strictly_increases(nb_bits as nat, 32);
            vstd::bits::lemma_u64_shl_is_mul(1, nb_bits as u64);
            vstd::bits::lemma_u64_low_bits_mask_is_mod(value, nb_bits as nat);
        }
        let bit_mask: u64 = (1u64 << nb_bits) - 1;
        let field: u64 = value & bit_mask;
        proof {
            lemma_field_fits(self.bit_container, field, self.bit_pos, nb_bits);
            lemma_or_is_add(self.bit_container, field, self.bit_pos);
        }
        self.bit_container |= field << self.bit_pos;
        self.bit_pos += nb_bits;
    }

    /// Puts `value`, which has no bit set from `nb_bits` on, above the bits
    /// in the register.
    pub fn add_bits_fast(&mut self, value: u64, nb_bits: u32)
        requires
            old(self).wf(),
            value < pow2(nb_bits as nat),
            old(self).bit_pos + nb_bits < 64,
        ensures
            final(self).wf(),
            final(self).bit_container == old(self).bit_container + value * pow2(
                old(self).bit_pos as nat,
            ),
            final(self).bit_pos == old(self).bit_pos + nb_bits,
            final(self).data_pos == old(self).data_pos,
    {
        proof {
            lemma_field_fits(self.bit_container, value, self.bit_pos, nb_bits);
            lemma_or_is_add(self.bit_container, value, self.bit_pos);
        }
        self.bit_container |= value << self.bit_pos;
        self.bit_pos += nb_bits;
    }

    /// Stores the register at `data[data_pos..data_pos + 8]` and moves past
    /// its whole bytes; the bits of a started byte stay in the register.
    pub fn flush_bits_fast(&mut self, data: &mut [u8])
        requires
            old(self).wf(),
            old(self).data_pos + 8 <= old(data)@.len(),
        ensures
            final(self).wf(),
            final(self).data_pos == old(self).data_pos + old(self).bit_pos / 8,
            final(self).bit_pos == old(self).bit_pos % 8,
            final(self).bit_container == old(self).bit_container as nat / pow2(
                (8 * (old(self).bit_pos / 8)) as nat,
            ),
            final(data)@.len() == old(data)@.len(),
            forall|i: int|
                0 <= i < old(self).data_pos || old(self).data_pos + 8 <= i < old(data)@.len()
                    ==> final(data)@[i] == old(data)@[i],
            forall|i: int|
                0 <= i < 8 ==> #[trigger] final(data)@[old(self).data_pos + i] == le_byte(
                    old(self).bit_container,
                    i as nat,
                ),
            final(self).bits() == old(self).bits(),
            final(self).value(final(data)@) == old(self).value(old(data)@),
            final(self).bit_pos > 0 ==> final(data)@[final(self).data_pos as int] == final(self).bit_container,
    {
        let len = data.len();
        let ghost before = *self;
        let ghost data_before = data@;
        let bit_pos = self.bit_pos;
        assert(bit_pos >> 3 == bit_pos / 8 && bit_pos & 7 == bit_pos % 8) by (bit_vector);
        let nb_bytes: u32 = self.bit_pos >> 3;
        push_usize(data, self.data_pos, self.bit_container);
        proof {
            vstd::bits::lemma_u64_shr_is_div(self.bit_container, (nb_bytes * 8) as u64);
            vstd::arithmetic::power2::lemma_pow2_adds((8 * nb_bytes) as nat, (bit_pos % 8) as nat);
            lemma_pow2_pos((8 * nb_bytes) as nat);
            vstd::arithmetic::div_mod::lemma_multiply_divide_lt(
                self.bit_container as int,
                pow2((8 * nb_bytes) as nat) as int,
                pow2((bit_pos % 8) as nat) as int,
            );
        }
        self.data_pos += nb_bytes as usize;
        self.bit_pos &= 7;
        self.bit_container >>= nb_bytes * 8;
        proof {
            lemma_stream_flush(before, *self, data_before, data@);
        }
    }

    /// Ends the stream: one set bit marks the end of the data, then the
    /// register is stored.
    pub fn finish_stream(&mut self, data: &mut [u8])
        requires
            old(self).wf(),
            old(self).bit_pos < 63,
            old(self).data_pos + 8 <= old(data)@.len(),
        ensures
            final(self).wf(),
            final(self).data_pos == old(self).data_pos + (old(self).bit_pos + 1) / 8,
            final(self).bit_pos == (old(self).bit_pos + 1) % 8,
            final(self).bit_container == (old(self).bit_container + pow2(
                old(self).bit_pos as nat,
            )) as nat / pow2((8 * ((old(self).bit_pos + 1) / 8)) as nat),
            final(data)@.len() == old(data)@.len(),
            forall|i: int|
                0 <= i < old(self).data_pos || old(self).data_pos + 8 <= i < old(data)@.len()
                    ==> final(data)@[i] == old(data)@[i],
            forall|i: int|
                0 <= i < 8 ==> #[trigger] final(data)@[old(self).data_pos + i] == le_byte(
                    (old(self).bit_container + pow2(old(self).bit_pos as nat)) as u64,
                    i as nat,
                ),
            final(self).bits() == old(self).bits() + 1,
            final(self).value(final(data)@) == old(self).value(old(data)@) + pow2(
                old(self).bits(),
            ),
            final(self).bit_pos > 0 ==> final(data)@[final(self).data_pos as int] == final(self).bit_container,
    {
        proof {
            lemma2_to64();
        }
        let ghost before = *self;
        self.add_bits_fast(1, 1);
        proof {
            lemma_stream_add(before, *self, data@, 1);
        }
        self.flush_bits_fast(data);
    }
}

proof fn lemma_field_fits(container: u64, field: u64, bit_pos: u32, nb_bits: u32)
    requires
        bit_pos + nb_bits < 64,
        container < pow2(bit_pos as nat),
        field < pow2(nb_bits as nat),
    ensures
        container + field * pow2(bit_pos as nat) < pow2((bit_pos + nb_bits) as nat),
        pow2((bit_pos + nb_bits) as nat) <= u64::MAX,
{
    vstd::arithmetic::power2::lemma_pow2_adds(nb_bits as nat, bit_pos as nat);
    vstd::arithmetic::power2::lemma_pow2_strictly_increases((bit_pos + nb_bits) as nat, 64);
    lemma2_to64();
    let a = pow2(nb_bits as nat);
    let b = pow2(bit_pos as nat);
    assert(field * b <= (a - 1) * b) by (nonlinear_arith)
        requires
            field <= a - 1,
            b >= 0,
    ;
    assert((a - 1) * b == a * b - b) by (nonlinear_arith);
}

/// A finished stream together with the buffer that holds it.
#[derive(Debug)]
pub struct BitCstreamOwned {
    pub bit_pos: u32,
    pub data_pos: usize,
    pub data: Vec<u8>,
}

impl BitCstreamOwned {
    pub fn new(data: Vec<u8>, data_pos: usize, bit_pos: u32) -> (stream: Self)
        ensures
            stream.data == data,
            stream.data_pos == data_pos,
            stream.bit_pos == bit_pos,
    {
        BitCstreamOwned { data, data_pos, bit_pos }
    }

    /// The written part of the buffer.
    pub fn get_compressed_data(&self) -> (out: &[u8])
        requires
            self.data_pos + (if self.bit_pos > 0 { 1int } else { 0int }) <= self.data@.len(),
        ensures
            out@ == self.data@.subrange(
                0,
                self.data_pos + (if self.bit_pos > 0 { 1int } else { 0int }),
            ),
    {
        let len = self.data.len();
        vstd::slice::slice_subrange(self.data.as_slice(), 0, self.get_compressed_size())
    }

    /// Bytes written, a started byte counted as one.
    pub fn get_compressed_size(&self) -> (size: usize)
        requires
            self.bit_pos > 0 ==> self.data_pos < usize::MAX,
        ensures
            size == self.data_pos + (if self.bit_pos > 0 { 1int } else { 0int }),
    {
        let last_byte: usize = if self.bit_pos > 0 { 1 } else { 0 };
        self.data_pos + last_byte
    }
}

} // verus!

verus! {

/// Reader of a reverse bit stream: it starts at the end of the buffer and
/// moves towards its start.
#[derive(Debug)]
pub struct BitDStreamReverse {
    /// Eight bytes of the buffer, from `input_pos` on.
    pub bit_container: u64,
    /// Bits of the register that have been read, counted from its top.
    pub bits_consumed: u32,
    /// Below this position a reload has to mind the start of the buffer.
    pub limit_pos: usize,
    /// Position in the buffer of the register's first byte.
    pub input_pos: usize,
}

/// The reader under its other name.
pub type BitDstream = BitDStreamReverse;

/// The eight bytes of `input` from `pos` on, as a little-endian number.
pub open spec fn word_at(input: Seq<u8>, pos: int) -> u64 {
    le_value(input.subrange(pos, pos + 8)) as u64
}

/// The `nb_bits` bits of `container` that end `start` bits above its low end.
pub open spec fn bit_field(container: u64, start: nat, nb_bits: nat) -> nat {
    (container as nat / pow2(start)) % pow2(nb_bits)
}

/// What a checked look at the next `nb_bits` bits gives. Where the bits
/// asked for lie inside the register, it is the field right below the bits
/// already read.
pub open spec fn spec_look_bits(container: u64, bits_consumed: u32, nb_bits: u32) -> nat {
    bit_field(container, ((64 - bits_consumed - nb_bits) % 64) as nat, nb_bits as nat)
}

/// What an unchecked look gives: the bits already read are shifted out at
/// the top, the rest is shifted down.
pub open spec fn spec_look_bits_fast(container: u64, bits_consumed: u32, nb_bits: u32) -> u64 {
    (container << (bits_consumed & 63u32)) >> (((64 - nb_bits) as u32) & 63u32)
}

/// The register and the status after a reload.
pub open spec fn spec_reload(stream: BitDStreamReverse, input: Seq<u8>) -> (
    BitDStreamReverse,
    BitDstreamStatus,
) {
    let consumed = stream.bits_consumed;
    if consumed > 64 {
        (stream, BitDstreamStatus::Overflow)
    } else if stream.input_pos >= stream.limit_pos || (stream.input_pos != 0 && consumed / 8
        <= stream.input_pos) {
        let pos = stream.input_pos - consumed / 8;
        (
            BitDStreamReverse {
                bit_container: word_at(input, pos),
                bits_consumed: (consumed % 8) as u32,
                limit_pos: stream.limit_pos,
                input_pos: pos as usize,
            },
            BitDstreamStatus::Unfinished,
        )
    } else if stream.input_pos == 0 {
        (
            stream,
            if consumed < 64 {
                BitDstreamStatus::EndOfBuffer
            } else {
                BitDstreamStatus::Completed
            },
        )
    } else {
        (
            BitDStreamReverse {
                bit_container: word_at(input, 0),
                bits_consumed: (consumed - 8 * stream.input_pos) as u32,
                limit_pos: stream.limit_pos,
                input_pos: 0,
            },
            BitDstreamStatus::EndOfBuffer,
        )
    }
}

/// The `nb_bits` bits of `bit_container` from bit `start % 64` on.
pub fn get_middle_bits(bit_container: u64, start: u32, nb_bits: u32) -> (bits: u64)
    requires
        nb_bits < 32,
    ensures
        bits == bit_field(bit_container, (start % 64) as nat, nb_bits as nat),
{
    assert(start & 63 == start % 64) by (bit_vector);
    let shift: u32 = start & 63;
    let field: u64 = bit_container >> shift;
    proof {
        lemma2_to64();
        vstd::arithmetic::power2::lemma_pow2_strictly_increases(nb_bits as nat, 32);
        vstd::bits::lemma_u64_shl_is_mul(1, nb_bits as u64);
        vstd::bits::lemma_u64_shr_is_div(bit_container, shift as u64);
        vstd::bits::lemma_u64_low_bits_mask_is_mod(field, nb_bits as nat);
    }
    field & ((1u64 << nb_bits) - 1)
}

impl BitDStreamReverse {
    /// The reader belongs to `input`: its register can be refilled from it.
    pub open spec fn attached(&self, input: Seq<u8>) -> bool {
        self.limit_pos == 8 && (self.input_pos + 8 <= input.len() || self.input_pos == 0)
    }

    /// A reader at the end of `input`. The last byte holds the end mark, the
    /// highest set bit of the stream; the bits above it count as read.
    pub fn new(input: &[u8]) -> (stream: Self)
        requires
            input@.len() >= 1,
            input@[input@.len() - 1] != 0,
        ensures
            stream.attached(input@),
            stream.input_pos == (if input@.len() >= 8 { input@.len() - 8 } else { 0 }),
            stream.bit_container == le_value(
                input@.subrange(stream.input_pos as int, input@.len() as int),
            ),
            stream.bits_consumed == 8 - spec_highbit(input@[input@.len() - 1] as nat) + (if input@.len()
                < 8 {
                8 * (8 - input@.len())
            } else {
                0
            }),
    {
        let limit_pos: usize = BIT_CONTAINER_BYTES;
        let len = input.len();
        let (input_pos, bit_container) = if len >= BIT_CONTAINER_BYTES {
            let input_pos = len - BIT_CONTAINER_BYTES;
            (input_pos, read_usize(input, input_pos))
        } else {
            (0, read_le_bytes(input, 0, len))
        };
        let last_byte: u8 = input[len - 1];
        proof {
            lemma_highbit_bounds(last_byte as nat);
            lemma2_to64();
            if spec_highbit(last_byte as nat) >= 8 {
                if spec_highbit(last_byte as nat) > 8 {
                    vstd::arithmetic::power2::lemma_pow2_strictly_increases(
                        8,
                        spec_highbit(last_byte as nat),
                    );
                }
                assert(false);
            }
        }
        let mut bits_consumed: u32 = 8 - highbit_pos(last_byte as u32);
        if len < BIT_CONTAINER_BYTES {
            bits_consumed += (BIT_CONTAINER_BYTES as u32 - len as u32) * 8;
        }
        BitDStreamReverse { bit_container, bits_consumed, limit_pos, input_pos }
    }

    /// Moves back over the whole bytes that have been read and refills the
    /// register, with no regard to the start of the buffer.
    pub fn reload_stream_fast(&mut self, input: &[u8]) -> (status: BitDstreamStatus)
        requires
            old(self).bits_consumed / 8 <= old(self).input_pos,
            old(self).input_pos - old(self).bits_consumed / 8 + 8 <= input@.len(),
        ensures
            status == BitDstreamStatus::Unfinished,
            final(self).input_pos == old(self).input_pos - old(self).bits_consumed / 8,
            final(self).bits_consumed == old(self).bits_consumed % 8,
            final(self).bit_container == word_at(input@, final(self).input_pos as int),
            final(self).limit_pos == old(self).limit_pos,
    {
        let consumed = self.bits_consumed;
        assert(consumed >> 3 == consumed / 8 && consumed & 7 == consumed % 8) by (bit_vector);
        self.input_pos -= (self.bits_consumed >> 3) as usize;
        self.bits_consumed &= 7;
        self.bit_container = read_usize(input, self.input_pos);
        BitDstreamStatus::Unfinished
    }

    /// Refills the register as far as the buffer allows and says where the
    /// reader stands.
    pub fn reload_stream(&mut self, input: &[u8]) -> (status: BitDstreamStatus)
        requires
            old(self).attached(input@),
        ensures
            (*final(self), status) == spec_reload(*old(self), input@),
            final(self).attached(input@),
    {
        let len = input.len();
        if self.bits_consumed > NUM_BITS_IN_BIT_CONTAINER {
            return BitDstreamStatus::Overflow;
        }
        if self.input_pos >= self.limit_pos {
            return self.reload_stream_fast(input);
        }
        if self.input_pos == 0 {
            if self.bits_consumed < NUM_BITS_IN_BIT_CONTAINER {
                return BitDstreamStatus::EndOfBuffer;
            }
            return BitDstreamStatus::Completed;
        }
        let consumed = self.bits_consumed;
        assert(consumed >> 3 == consumed / 8) by (bit_vector);
        let nb_bytes: u32 = self.bits_consumed >> 3;
        if nb_bytes > self.input_pos as u32 {
            self.bits_consumed -= self.input_pos as u32 * 8;
            self.input_pos = 0;
            self.bit_container = read_usize(input, self.input_pos);
            BitDstreamStatus::EndOfBuffer
        } else {
            self.input_pos -= nb_bytes as usize;
            self.bits_consumed -= nb_bytes * 8;
            self.bit_container = read_usize(input, self.input_pos);
            BitDstreamStatus::Unfinished
        }
    }

    /// The next `nb_bits` bits, without moving on.
    pub fn look_bits(&self, nb_bits: u32) -> (bits: u64)
        requires
            nb_bits < 32,
        ensures
            bits == spec_look_bits(self.bit_container, self.bits_consumed, nb_bits),
    {
        let start: u32 = NUM_BITS_IN_BIT_CONTAINER.wrapping_sub(self.bits_consumed).wrapping_sub(
            nb_bits,
        );
        get_middle_bits(self.bit_container, start, nb_bits)
    }

    /// Reads the next `nb_bits` bits.
    pub fn read_bits(&mut self, nb_bits: u32) -> (bits: u64)
        requires
            nb_bits < 32,
            old(self).bits_consumed + nb_bits <= u32::MAX,
        ensures
            bits == spec_look_bits(old(self).bit_container, old(self).bits_consumed, nb_bits),
            final(self).bits_consumed == old(self).bits_consumed + nb_bits,
            final(self).bit_container == old(self).bit_container,
            final(self).input_pos == old(self).input_pos,
            final(self).limit_pos == old(self).limit_pos,
    {
        let value = self.look_bits(nb_bits);
        self.bits_consumed += nb_bits;
        value
    }

    /// The next `nb_bits` bits by two shifts, without moving on.
    pub fn look_bits_fast(&self, nb_bits: u32) -> (bits: u64)
        requires
            nb_bits <= 64,
        ensures
            bits == spec_look_bits_fast(self.bit_container, self.bits_consumed, nb_bits),
            1 <= nb_bits ==> bits < pow2(nb_bits as nat),
    {
        let consumed = self.bits_consumed;
        assert((consumed & 63u32) < 64 && (((64 - nb_bits) as u32) & 63u32) < 64) by (bit_vector);
        assert(1 <= nb_bits <= 64 ==> (((64 - nb_bits) as u32) & 63u32) == 64 - nb_bits)
            by (bit_vector);
        proof {
            if 1 <= nb_bits {
                let raised = self.bit_container << (consumed & 63u32);
                let down = (64 - nb_bits) as u64;
                vstd::bits::lemma_u64_shr_is_div(raised, down);
                vstd::arithmetic::power2::lemma_pow2_adds(down as nat, nb_bits as nat);
                lemma_pow2_pos(down as nat);
                lemma2_to64();
                vstd::arithmetic::div_mod::lemma_multiply_divide_lt(
                    raised as int,
                    pow2(down as nat) as int,
                    pow2(nb_bits as nat) as int,
                );
            }
        }
        (self.bit_container << (self.bits_consumed & 63)) >> ((NUM_BITS_IN_BIT_CONTAINER - nb_bits)
            & 63)
    }

    /// Reads the next `nb_bits` bits by two shifts. Meant for at least one
    /// bit at a time.
    pub fn read_bits_fast(&mut self, nb_bits: u32) -> (bits: u64)
        requires
            nb_bits <= 64,
            old(self).bits_consumed + nb_bits <= u32::MAX,
        ensures
            bits == spec_look_bits_fast(old(self).bit_container, old(self).bits_consumed, nb_bits),
            1 <= nb_bits ==> bits < pow2(nb_bits as nat),
            final(self).bits_consumed == old(self).bits_consumed + nb_bits,
            final(self).bit_container == old(self).bit_container,
            final(self).input_pos == old(self).input_pos,
            final(self).limit_pos == old(self).limit_pos,
    {
        let value = self.look_bits_fast(nb_bits);
        self.bits_consumed += nb_bits;
        value
    }
}

} // verus!

verus! {

/// Bits of a sequence of fields, each a value and its width.
pub open spec fn fields_bits(fields: Seq<(nat, nat)>) -> nat
    decreases fields.len(),
{
    if fields.len() == 0 {
        0
    } else {
        fields_bits(fields.drop_last()) + fields.last().1
    }
}

/// The number that a sequence of fields makes up: the first field takes the
/// lowest bits, each later one the bits above.
pub open spec fn fields_value(fields: Seq<(nat, nat)>) -> nat
    decreases fields.len(),
{
    if fields.len() == 0 {
        0
    } else {
        fields_value(fields.drop_last()) + fields.last().0 * pow2(fields_bits(fields.drop_last()))
    }
}

/// What one more field adds to the bits and to the number.
pub proof fn lemma_push_field(fields: Seq<(nat, nat)>, field: (nat, nat))
    ensures
        fields_bits(fields.push(field)) == fields_bits(fields) + field.1,
        fields_value(fields.push(field)) == fields_value(fields) + field.0 * pow2(
            fields_bits(fields),
        ),
{
    assert(fields.push(field).drop_last() =~= fields);
}

impl BitCstream {
    /// Bits written so far.
    pub open spec fn bits(&self) -> nat {
        (8 * self.data_pos + self.bit_pos) as nat
    }

    /// The number that the stream stands for: the stored bytes of `data` at
    /// the low end, the register above them.
    #[verifier::opaque]
    pub open spec fn value(&self, data: Seq<u8>) -> nat {
        le_value(data.subrange(0, self.data_pos as int)) + self.bit_container as nat * pow2(
            (8 * self.data_pos) as nat,
        )
    }
}

pub proof fn lemma_le_value_single(byte: u8)
    ensures
        le_value(seq![byte]) == byte,
{
    let one = seq![byte];
    assert(one.drop_first() =~= Seq::<u8>::empty());
    assert(le_value(one) == one[0] as nat + 256 * le_value(one.drop_first()));
}

pub proof fn lemma_le_value_append(a: Seq<u8>, b: Seq<u8>)
    ensures
        le_value(a + b) == le_value(a) + pow2(8 * a.len()) * le_value(b),
    decreases a.len(),
{
    lemma2_to64();
    if a.len() == 0 {
        assert(a + b =~= b);
        assert(pow2(8 * a.len()) == 1);
        assert(1 * le_value(b) == le_value(b));
    } else {
        let joined = a + b;
        assert(joined.drop_first() =~= a.drop_first() + b);
        lemma_le_value_append(a.drop_first(), b);
        vstd::arithmetic::power2::lemma_pow2_adds(8, (8 * (a.len() - 1)) as nat);
        let rest = le_value(b);
        let low = pow2((8 * (a.len() - 1)) as nat);
        assert(pow2(8 * a.len()) == 256 * low);
        assert(256 * (low * rest) == (256 * low) * rest) by (nonlinear_arith);
        assert(joined[0] == a[0]);
        assert(le_value(joined) == joined[0] as nat + 256 * le_value(joined.drop_first()));
        assert(le_value(a) == a[0] as nat + 256 * le_value(a.drop_first()));
    }
}

/// The first `n` bytes of a register make up its value modulo `2^(8n)`.
pub proof fn lemma_le_bytes_value(container: u64, n: nat)
    ensures
        le_value(Seq::new(n, |i: int| le_byte(container, i as nat))) == container as nat % pow2(
            8 * n,
        ),
    decreases n,
{
    lemma2_to64();
    let bytes = Seq::new(n, |i: int| le_byte(container, i as nat));
    if n == 0 {
    } else {
        let lower = Seq::new((n - 1) as nat, |i: int| le_byte(container, i as nat));
        let top = seq![le_byte(container, (n - 1) as nat)];
        assert(bytes =~= lower + top);
        lemma_le_bytes_value(container, (n - 1) as nat);
        lemma_le_value_append(lower, top);
        lemma_le_value_single(le_byte(container, (n - 1) as nat));
        let unit = pow2((8 * (n - 1)) as nat);
        lemma_pow2_pos((8 * (n - 1)) as nat);
        vstd::arithmetic::power2::lemma_pow2_adds((8 * (n - 1)) as nat, 8);
        vstd::arithmetic::div_mod::lemma_mod_breakdown(container as int, unit as int, 256);
    }
}

/// Adding a field to the register adds it to the stream above all bits
/// written so far.
pub proof fn lemma_stream_add(before: BitCstream, after: BitCstream, data: Seq<u8>, field: nat)
    requires
        after.bit_container == before.bit_container + field * pow2(before.bit_pos as nat),
        after.data_pos == before.data_pos,
    ensures
        after.value(data) == before.value(data) + field * pow2(before.bits()),
{
    reveal(BitCstream::value);
    let low = pow2((8 * before.data_pos) as nat);
    let mid = pow2(before.bit_pos as nat);
    vstd::arithmetic::power2::lemma_pow2_adds(before.bit_pos as nat, (8 * before.data_pos) as nat);
    assert((before.bit_container + field * mid) * low == before.bit_container * low + field * (mid
        * low)) by (nonlinear_arith);
}

/// Storing the register changes nothing of what the stream stands for.
pub proof fn lemma_stream_flush(
    before: BitCstream,
    after: BitCstream,
    data_before: Seq<u8>,
    data_after: Seq<u8>,
)
    requires
        before.wf(),
        before.data_pos + 8 <= data_before.len(),
        data_after.len() == data_before.len(),
        after.data_pos == before.data_pos + before.bit_pos / 8,
        after.bit_pos == before.bit_pos % 8,
        after.bit_container == before.bit_container as nat / pow2(
            (8 * (before.bit_pos / 8)) as nat,
        ),
        forall|i: int| 0 <= i < before.data_pos ==> data_after[i] == data_before[i],
        forall|i: int|
            0 <= i < 8 ==> #[trigger] data_after[before.data_pos + i] == le_byte(
                before.bit_container,
                i as nat,
            ),
    ensures
        after.value(data_after) == before.value(data_before),
        after.bits() == before.bits(),
        after.bit_pos > 0 ==> data_after[after.data_pos as int] == after.bit_container,
{
    reveal(BitCstream::value);
    let count = (before.bit_pos / 8) as nat;
    let container = before.bit_container;
    let stored = data_before.subrange(0, before.data_pos as int);
    let fresh = Seq::new(count, |i: int| le_byte(container, i as nat));
    assert forall|j: int| 0 <= j < count implies data_after[before.data_pos + j] == fresh[j] by {
        assert(data_after[before.data_pos + j] == le_byte(container, j as nat));
    }
    assert(data_after.subrange(0, after.data_pos as int) =~= stored + fresh);
    lemma_le_value_append(stored, fresh);
    lemma_le_bytes_value(container, count);
    let low = pow2((8 * before.data_pos) as nat);
    let unit = pow2(8 * count);
    lemma_pow2_pos(8 * count);
    vstd::arithmetic::power2::lemma_pow2_adds(8 * count, (8 * before.data_pos) as nat);
    vstd::arithmetic::div_mod::lemma_fundamental_div_mod(container as int, unit as int);
    let quotient = container as nat / unit;
    let rest = container as nat % unit;
    assert(low * rest + quotient * (unit * low) == (unit * quotient + rest) * low)
        by (nonlinear_arith);
    if after.bit_pos > 0 {
        lemma2_to64();
        vstd::arithmetic::power2::lemma_pow2_strictly_increases(after.bit_pos as nat, 8);
        vstd::arithmetic::power2::lemma_pow2_adds(8 * count, (before.bit_pos % 8) as nat);
        vstd::arithmetic::div_mod::lemma_multiply_divide_lt(
            container as int,
            unit as int,
            pow2((before.bit_pos % 8) as nat) as int,
        );
        assert(data_after[before.data_pos + count] == le_byte(container, count));
    }
}

/// A stream with nothing stored stands for what its register holds.
pub proof fn lemma_stream_start(stream: BitCstream, data: Seq<u8>)
    requires
        stream.data_pos == 0,
    ensures
        stream.value(data) == stream.bit_container,
{
    reveal(BitCstream::value);
    lemma2_to64();
    assert(data.subrange(0, 0) =~= Seq::<u8>::empty());
    assert(stream.bit_container as nat * 1 == stream.bit_container);
}

/// Bytes from the stored part on do not matter to what a stream stands for.
pub proof fn lemma_stream_prefix(stream: BitCstream, data: Seq<u8>, other: Seq<u8>)
    requires
        stream.data_pos <= data.len(),
        stream.data_pos <= other.len(),
        other.subrange(0, stream.data_pos as int) == data.subrange(0, stream.data_pos as int),
    ensures
        stream.value(other) == stream.value(data),
{
    reveal(BitCstream::value);
}

/// A stream that has just been stored: its written bytes, a started byte
/// included, make up the number that it stands for.
pub proof fn lemma_stream_bytes(stream: BitCstream, data: Seq<u8>)
    requires
        stream.wf(),
        stream.bit_pos < 8,
        stream.data_pos < data.len(),
        stream.bit_pos > 0 ==> data[stream.data_pos as int] == stream.bit_container,
    ensures
        le_value(
            data.subrange(0, stream.data_pos + (if stream.bit_pos > 0 { 1int } else { 0int })),
        ) == stream.value(data),
{
    reveal(BitCstream::value);
    lemma2_to64();
    let stored = data.subrange(0, stream.data_pos as int);
    if stream.bit_pos > 0 {
        let top = seq![data[stream.data_pos as int]];
        assert(data.subrange(0, stream.data_pos + 1) =~= stored + top);
        lemma_le_value_append(stored, top);
        lemma_le_value_single(data[stream.data_pos as int]);
        let low = pow2((8 * stream.data_pos) as nat);
        assert(low * stream.bit_container == stream.bit_container * low) by (nonlinear_arith);
    } else {
        assert(stream.bit_container == 0);
        assert(0 * pow2((8 * stream.data_pos) as nat) == 0);
    }
}

} // verus!

verus! {

proof fn lemma_shl_keeps_low(container: u64, shift: u64)
    by (bit_vector)
    requires
        shift < 64,
    ensures
        container << shift == (container & (0xffff_ffff_ffff_ffffu64 >> shift)) << shift,
{
}

/// A shift to the left keeps the low bits of the register: those that stay
/// inside it.
pub proof fn lemma_shl_wraps(container: u64, shift: u32)
    requires
        shift < 64,
    ensures
        container << shift == (container as nat % pow2((64 - shift) as nat)) * pow2(shift as nat),
{
    lemma2_to64();
    vstd::arithmetic::power2::lemma2_to64_rest();
    if shift == 0 {
        assert(container << 0u32 == container) by (bit_vector);
        vstd::arithmetic::div_mod::lemma_small_mod(container as nat, pow2(64));
        assert(container as nat * 1 == container);
    } else {
        let mask: u64 = 0xffff_ffff_ffff_ffffu64 >> shift;
        let kept = (64 - shift) as nat;
        lemma_shl_keeps_low(container, shift as u64);
        vstd::bits::lemma_u64_shr_is_div(0xffff_ffff_ffff_ffffu64, shift as u64);
        vstd::arithmetic::power2::lemma_pow2_adds(kept, shift as nat);
        lemma_pow2_pos(shift as nat);
        lemma_pow2_pos(kept);
        let unit = pow2(shift as nat) as int;
        let rest = pow2(kept) as int;
        assert(rest * unit == 0x1_0000_0000_0000_0000);
        assert((rest - 1) * unit + (unit - 1) == 0xffff_ffff_ffff_ffff) by (nonlinear_arith)
            requires
                rest * unit == 0x1_0000_0000_0000_0000,
        ;
        vstd::arithmetic::div_mod::lemma_fundamental_div_mod_converse(
            0xffff_ffff_ffff_ffff,
            unit,
            rest - 1,
            unit - 1,
        );
        assert(mask == rest - 1);
        vstd::bits::lemma_u64_low_bits_mask_is_mod(container, kept);
        let low = container & mask;
        vstd::arithmetic::div_mod::lemma_mod_bound(container as int, rest);
        assert(low * unit < rest * unit) by (nonlinear_arith)
            requires
                0 <= low < rest,
                unit > 0,
        ;
        vstd::bits::lemma_u64_shl_is_mul(low, shift as u64);
    }
}

/// Where the bits asked for lie inside the register, both looks give the
/// field right below the bits already read.
pub proof fn lemma_look_bits_agree(container: u64, bits_consumed: u32, nb_bits: u32)
    requires
        1 <= nb_bits,
        bits_consumed + nb_bits <= 64,
    ensures
        spec_look_bits_fast(container, bits_consumed, nb_bits) == bit_field(
            container,
            (64 - bits_consumed - nb_bits) as nat,
            nb_bits as nat,
        ),
        spec_look_bits(container, bits_consumed, nb_bits) == bit_field(
            container,
            (64 - bits_consumed - nb_bits) as nat,
            nb_bits as nat,
        ),
{
    let up: u32 = bits_consumed & 63u32;
    let down: u32 = ((64 - nb_bits) as u32) & 63u32;
    assert(up == bits_consumed && down == 64 - nb_bits) by (bit_vector)
        requires
            1 <= nb_bits,
            bits_consumed + nb_bits <= 64,
            up == bits_consumed & 63u32,
            down == ((64 - nb_bits) as u32) & 63u32,
    ;
    let start = (64 - bits_consumed - nb_bits) as nat;
    let kept = (64 - bits_consumed) as nat;
    lemma_shl_wraps(container, bits_consumed);
    let raised = container << bits_consumed;
    vstd::bits::lemma_u64_shr_is_div(raised, down as u64);
    let low = container as nat % pow2(kept);
    lemma_pow2_pos(kept);
    vstd::arithmetic::div_mod::lemma_mod_bound(container as int, pow2(kept) as int);
    // (low * 2^consumed) / 2^(consumed + start) == low / 2^start
    lemma_pow2_pos(bits_consumed as nat);
    lemma_pow2_pos(start);
    lemma_pow2_pos(nb_bits as nat);
    vstd::arithmetic::power2::lemma_pow2_adds(bits_consumed as nat, start);
    vstd::arithmetic::power2::lemma_pow2_adds(start, nb_bits as nat);
    vstd::arithmetic::div_mod::lemma_div_denominator(
        (low * pow2(bits_consumed as nat)) as int,
        pow2(bits_consumed as nat) as int,
        pow2(start) as int,
    );
    vstd::arithmetic::div_mod::lemma_div_by_multiple(
        low as int,
        pow2(bits_consumed as nat) as int,
    );
    assert(low * pow2(bits_consumed as nat) == pow2(bits_consumed as nat) * low)
        by (nonlinear_arith);
    // (container % (2^start * 2^nb)) / 2^start == (container / 2^start) % 2^nb
    vstd::arithmetic::div_mod::lemma_mod_breakdown(
        container as int,
        pow2(start) as int,
        pow2(nb_bits as nat) as int,
    );
    vstd::arithmetic::div_mod::lemma_mod_bound(container as int, pow2(start) as int);
    vstd::arithmetic::div_mod::lemma_mod_bound(
        (container as nat / pow2(start)) as int,
        pow2(nb_bits as nat) as int,
    );
    let q = ((container as nat / pow2(start)) % pow2(nb_bits as nat)) as int;
    let r = (container as nat % pow2(start)) as int;
    assert(q * pow2(start) == pow2(start) * q) by (nonlinear_arith);
    vstd::arithmetic::div_mod::lemma_fundamental_div_mod_converse(
        low as int,
        pow2(start) as int,
        q,
        r,
    );
}

} // verus!
