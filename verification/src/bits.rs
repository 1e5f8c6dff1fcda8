//! Bit strings, most significant bit first, and the two accumulators that
//! write them to bytes and read them back.

use crate::error::ReadError;
use vstd::arithmetic::power2::{lemma2_to64, pow2};
use vstd::bits::lemma_u32_shr_is_div;
use vstd::prelude::*;

verus! {

/// Bit `k` of `x`, counted from the least significant end.
pub open spec fn bit_at(x: u32, k: u32) -> bool {
    (x >> k) & 1 == 1
}

/// The `size` low bits of `x` as a bit string, most significant bit first.
pub open spec fn bits_of(x: u32, size: nat) -> Seq<bool> {
    Seq::new(size, |i: int| bit_at(x, (size - 1 - i) as u32))
}

/// The number that a bit string spells, most significant bit first.
pub open spec fn num_of(bits: Seq<bool>) -> nat
    decreases bits.len(),
{
    if bits.len() == 0 {
        0
    } else {
        2 * num_of(bits.drop_last()) + if bits.last() {
            1nat
        } else {
            0nat
        }
    }
}

/// The bits of a byte string: eight per byte, most significant bit first.
#[verifier::opaque]
pub open spec fn unpack(bytes: Seq<u8>) -> Seq<bool> {
    Seq::new(8 * bytes.len(), |i: int| bit_at(bytes[i / 8] as u32, (7 - i % 8) as u32))
}

/// The number that eight bits spell, most significant bit first.
pub open spec fn sum8(
    b0: bool,
    b1: bool,
    b2: bool,
    b3: bool,
    b4: bool,
    b5: bool,
    b6: bool,
    b7: bool,
) -> int {
    (if b0 { 128int } else { 0 }) + (if b1 { 64int } else { 0 }) + (if b2 { 32int } else { 0 }) + (
    if b3 { 16int } else { 0 }) + (if b4 { 8int } else { 0 }) + (if b5 { 4int } else { 0 }) + (
    if b6 { 2int } else { 0 }) + (if b7 { 1int } else { 0 })
}

/// The byte spelled by the eight bits of `bits` that start at `at`.
pub open spec fn byte_of(bits: Seq<bool>, at: int) -> u8 {
    sum8(
        bits[at],
        bits[at + 1],
        bits[at + 2],
        bits[at + 3],
        bits[at + 4],
        bits[at + 5],
        bits[at + 6],
        bits[at + 7],
    ) as u8
}

/// The whole bytes of a bit string; up to seven bits at its end are left out.
#[verifier::opaque]
pub open spec fn pack(bits: Seq<bool>) -> Seq<u8> {
    Seq::new(bits.len() / 8, |k: int| byte_of(bits, 8 * k))
}

/// `bits`, followed by as many zero bits as it takes to reach a byte boundary.
pub open spec fn pad8(bits: Seq<bool>) -> Seq<bool> {
    bits + Seq::new(((8 - bits.len() % 8) % 8) as nat, |i: int| false)
}

/// The unsigned field of `size` bits that starts at bit `at` of `bytes`.
pub open spec fn field_at(bytes: Seq<u8>, at: nat, size: nat) -> nat {
    num_of(unpack(bytes).subrange(at as int, (at + size) as int))
}

/// Halving a number moves every bit down by one place; the number is twice
/// its half and its lowest bit.
proof fn lemma_bit_halves(x: u32, k: u32)
    by (bit_vector)
    requires
        k < 31,
    ensures
        bit_at(x >> 1, k) == bit_at(x, (k + 1) as u32),
        x == 2 * (x >> 1) + (x & 1),
        (x & 1) == 0 || (x & 1) == 1,
        x >> 0 == x,
{
}

/// The half of a number below `2^size` is below `2^(size - 1)`.
proof fn lemma_shift_halves(x: u32, size: u32)
    by (bit_vector)
    requires
        1 <= size < 32,
        x >> size == 0,
    ensures
        (x >> 1) >> ((size - 1) as u32) == 0,
{
}

/// A number below `2^size` is the one that its `size` low bits spell.
pub proof fn lemma_num_of_bits(bits: Seq<bool>, x: u32)
    requires
        bits.len() < 32,
        x >> (bits.len() as u32) == 0,
        forall|t: int| 0 <= t < bits.len() ==> bits[t] == bit_at(x, (bits.len() - 1 - t) as u32),
    ensures
        num_of(bits) == x,
    decreases bits.len(),
{
    let size = bits.len() as u32;
    lemma_bit_halves(x, 0);
    if size > 0 {
        let y = x >> 1;
        let rest = bits.drop_last();
        lemma_shift_halves(x, size);
        assert forall|t: int| 0 <= t < rest.len() implies rest[t] == bit_at(
            y,
            (rest.len() - 1 - t) as u32,
        ) by {
            lemma_bit_halves(x, (rest.len() - 1 - t) as u32);
        }
        lemma_num_of_bits(rest, y);
        assert(bits.last() == bit_at(x, 0));
    }
}

/// A string of `n` bits spells a number below `2^n`.
pub proof fn lemma_num_of_bound(bits: Seq<bool>)
    ensures
        num_of(bits) < pow2(bits.len()),
    decreases bits.len(),
{
    if bits.len() == 0 {
        lemma2_to64();
    } else {
        lemma_num_of_bound(bits.drop_last());
        vstd::arithmetic::power2::lemma_pow2_unfold(bits.len());
    }
}

/// Reading back the bits of `x` gives `x`.
pub proof fn lemma_num_of_bits_of(x: u32, size: nat)
    requires
        size < 32,
        x < pow2(size),
    ensures
        num_of(bits_of(x, size)) == x,
{
    lemma_fits(x, size);
    lemma_num_of_bits(bits_of(x, size), x);
}

/// A number below `2^size` has no bit at or above position `size`.
pub proof fn lemma_fits(x: u32, size: nat)
    requires
        size < 32,
        x < pow2(size),
    ensures
        x >> (size as u32) == 0,
{
    lemma_u32_shr_is_div(x, size as u32);
    vstd::arithmetic::div_mod::lemma_basic_div(x as int, pow2(size) as int);
}

/// A byte is the sum of its bits, each at its place.
proof fn lemma_byte_bits(c: u32)
    by (bit_vector)
    requires
        c < 256,
    ensures
        c == sum8(
            bit_at(c, 7),
            bit_at(c, 6),
            bit_at(c, 5),
            bit_at(c, 4),
            bit_at(c, 3),
            bit_at(c, 2),
            bit_at(c, 1),
            bit_at(c, 0),
        ),
{
}

/// The byte that eight bits make.
pub open spec fn join8(
    b0: bool,
    b1: bool,
    b2: bool,
    b3: bool,
    b4: bool,
    b5: bool,
    b6: bool,
    b7: bool,
) -> u32 {
    (if b0 { 128u32 } else { 0 }) | (if b1 { 64u32 } else { 0 }) | (if b2 { 32u32 } else { 0 }) | (
    if b3 { 16u32 } else { 0 }) | (if b4 { 8u32 } else { 0 }) | (if b5 { 4u32 } else { 0 }) | (
    if b6 { 2u32 } else { 0 }) | (if b7 { 1u32 } else { 0 })
}

/// Eight bits make a byte whose bits they are.
proof fn lemma_bits_byte(
    b0: bool,
    b1: bool,
    b2: bool,
    b3: bool,
    b4: bool,
    b5: bool,
    b6: bool,
    b7: bool,
)
    by (bit_vector)
    ensures
        ({
            let v = join8(b0, b1, b2, b3, b4, b5, b6, b7);
            &&& v < 256
            &&& v == sum8(b0, b1, b2, b3, b4, b5, b6, b7)
            &&& bit_at(v, 7) == b0
            &&& bit_at(v, 6) == b1
            &&& bit_at(v, 5) == b2
            &&& bit_at(v, 4) == b3
            &&& bit_at(v, 3) == b4
            &&& bit_at(v, 2) == b5
            &&& bit_at(v, 1) == b6
            &&& bit_at(v, 0) == b7
        }),
{
}

/// A byte string has eight bits per byte.
pub proof fn lemma_unpack_len(bytes: Seq<u8>)
    ensures
        unpack(bytes).len() == 8 * bytes.len(),
{
    reveal(unpack);
}

/// A bit string has one whole byte per eight bits.
pub proof fn lemma_pack_len(bits: Seq<bool>)
    ensures
        pack(bits).len() == bits.len() / 8,
{
    reveal(pack);
}

/// A bit string that is filled up to a byte boundary ends on one, and is
/// as long as the bytes that it takes.
pub proof fn lemma_pad8_len(bits: Seq<bool>)
    ensures
        pad8(bits).len() % 8 == 0,
        pad8(bits).len() == 8 * ((bits.len() + 7) / 8),
        pack(pad8(bits)).len() == (bits.len() + 7) / 8,
{
    reveal(pack);
    let len = bits.len() as int;
    let fill = (8 - len % 8) % 8;
    assert(pad8(bits).len() == len + fill);
    assert(len == 8 * (len / 8) + len % 8);
    if len % 8 == 0 {
        assert(fill == 0);
        assert((len + 7) / 8 == len / 8);
    } else {
        assert(fill == 8 - len % 8);
        assert((len + 7) / 8 == len / 8 + 1);
    }
}

/// Packing the bits of a byte string gives the byte string back.
pub proof fn lemma_pack_unpack(bytes: Seq<u8>)
    ensures
        pack(unpack(bytes)) == bytes,
{
    reveal(unpack);
    reveal(pack);
    let bits = unpack(bytes);
    assert forall|k: int| 0 <= k < bytes.len() implies byte_of(bits, 8 * k) == bytes[k] by {
        lemma_byte_bits(bytes[k] as u32);
    }
    assert(pack(bits) =~= bytes);
}

/// Unpacking the bytes of a bit string that ends on a byte boundary gives
/// the bit string back.
pub proof fn lemma_unpack_pack(bits: Seq<bool>)
    requires
        bits.len() % 8 == 0,
    ensures
        unpack(pack(bits)) == bits,
{
    reveal(unpack);
    reveal(pack);
    let bytes = pack(bits);
    assert forall|i: int| 0 <= i < bits.len() implies unpack(bytes)[i] == bits[i] by {
        let k = i / 8;
        lemma_bits_byte(
            bits[8 * k],
            bits[8 * k + 1],
            bits[8 * k + 2],
            bits[8 * k + 3],
            bits[8 * k + 4],
            bits[8 * k + 5],
            bits[8 * k + 6],
            bits[8 * k + 7],
        );
    }
    assert(unpack(bytes) =~= bits);
}

/// The bits of a concatenation are the concatenation of the bits.
pub proof fn lemma_unpack_add(a: Seq<u8>, b: Seq<u8>)
    ensures
        unpack(a + b) == unpack(a) + unpack(b),
{
    reveal(unpack);
    reveal(pack);
    assert(unpack(a + b) =~= unpack(a) + unpack(b));
}

/// The bytes of a concatenation whose first part ends on a byte boundary are
/// the concatenation of the bytes.
pub proof fn lemma_pack_add(a: Seq<bool>, b: Seq<bool>)
    requires
        a.len() % 8 == 0,
    ensures
        pack(a + b) == pack(a) + pack(b),
{
    reveal(unpack);
    reveal(pack);
    assert(pack(a + b) =~= pack(a) + pack(b));
}

/// The field of eight bits at a byte boundary is the byte that stands there.
pub proof fn lemma_field_byte(bytes: Seq<u8>, k: int)
    requires
        0 <= k < bytes.len(),
    ensures
        field_at(bytes, (8 * k) as nat, 8) == bytes[k],
{
    reveal(unpack);
    lemma2_to64();
    assert(unpack(bytes).subrange(8 * k, 8 * k + 8) =~= bits_of(bytes[k] as u32, 8));
    lemma_num_of_bits_of(bytes[k] as u32, 8);
}

/// The bits of one byte are the eight bits of its value.
pub proof fn lemma_unpack_one(c: u8)
    ensures
        unpack(seq![c]) == bits_of(c as u32, 8),
{
    reveal(unpack);
    reveal(pack);
    assert(unpack(seq![c]) =~= bits_of(c as u32, 8));
}

/// Bit `i` of `buf`, counted from the most significant end.
pub open spec fn top_bit(buf: u32, i: int) -> bool {
    bit_at(buf, (31 - i) as u32)
}

/// No bit of `buf` is set below its `pos` most significant ones.
pub open spec fn tail_clear(buf: u32, pos: u32) -> bool {
    pos >= 32 || buf & (0xffff_ffffu32 >> pos) == 0
}

/// When a byte leaves the accumulator, the bits behind it move up by eight
/// places, and what was clear behind the bits held stays clear.
proof fn lemma_drain(buf: u32, pos: u32, k: u32)
    by (bit_vector)
    requires
        8 <= pos <= 32,
        pos >= 32 || buf & (0xffff_ffffu32 >> pos) == 0,
        8 <= k < 32,
    ensures
        bit_at(buf << 8, k) == bit_at(buf, (k - 8) as u32),
        (buf << 8) & (0xffff_ffffu32 >> ((pos - 8) as u32)) == 0,
{
}

/// Behind the bits held every bit is clear.
proof fn lemma_tail(buf: u32, pos: u32, k: u32)
    by (bit_vector)
    requires
        pos >= 32 || buf & (0xffff_ffffu32 >> pos) == 0,
        k < 32,
        k + pos < 32,
    ensures
        !bit_at(buf, k),
{
}

/// The byte at the top of the accumulator is the sum of its eight top
/// bits, each at its place.
proof fn lemma_top_byte(buf: u32)
    by (bit_vector)
    ensures
        (buf >> 24) < 256,
        (buf >> 24) == sum8(
            bit_at(buf, 31),
            bit_at(buf, 30),
            bit_at(buf, 29),
            bit_at(buf, 28),
            bit_at(buf, 27),
            bit_at(buf, 26),
            bit_at(buf, 25),
            bit_at(buf, 24),
        ),
{
}

/// Putting a field behind the bits held leaves those bits as they are, puts
/// the bits of the field behind them, and leaves clear what comes after.
proof fn lemma_merge(buf: u32, x: u32, size: u32, pos: u32, k: u32)
    by (bit_vector)
    requires
        1 <= size <= 25,
        pos < 8,
        x >> size == 0,
        buf & (0xffff_ffffu32 >> pos) == 0,
        k < 32,
    ensures
        ({
            let mask = ((1u32 << size) - 1) as u32;
            let nb = buf | ((x & mask) << ((32 - size - pos) as u32));
            &&& (1u32 << size) >= 1
            &&& k >= 32 - pos ==> bit_at(nb, k) == bit_at(buf, k)
            &&& 32 - pos - size <= k < 32 - pos ==> bit_at(nb, k) == bit_at(
                x,
                (k - (32 - pos - size)) as u32,
            )
            &&& (pos + size >= 32 || nb & (0xffff_ffffu32 >> ((pos + size) as u32)) == 0)
        }),
{
}

/// Eight bits of a bit string that are the top bits of the accumulator
/// spell the byte at its top.
proof fn lemma_byte_of_top(bits: Seq<bool>, at: int, buf: u32)
    requires
        forall|j: int| 0 <= j < 8 ==> bits[at + j] == #[trigger] top_bit(buf, j),
    ensures
        byte_of(bits, at) == (buf >> 24) as u8,
        (buf >> 24) < 256,
{
    lemma_top_byte(buf);
    assert(bits[at] == top_bit(buf, 0));
    assert(bits[at + 1] == top_bit(buf, 1));
    assert(bits[at + 2] == top_bit(buf, 2));
    assert(bits[at + 3] == top_bit(buf, 3));
    assert(bits[at + 4] == top_bit(buf, 4));
    assert(bits[at + 5] == top_bit(buf, 5));
    assert(bits[at + 6] == top_bit(buf, 6));
    assert(bits[at + 7] == top_bit(buf, 7));
}

/// Packs fields of up to 25 bits into bytes, most significant bit first.
///
/// The writer keeps the bits that do not fill a byte yet; whole bytes go to
/// the target that each call names. Its view is the string of bits it holds.
pub struct BitWriter {
    buf: u32,
    pos: usize,
}

impl View for BitWriter {
    type V = Seq<bool>;

    closed spec fn view(&self) -> Seq<bool> {
        Seq::new(self.pos as nat, |i: int| top_bit(self.buf, i))
    }
}

impl BitWriter {
    /// The writer holds at most 32 bits, and nothing behind them.
    pub closed spec fn wf(&self) -> bool {
        &&& self.pos <= 32
        &&& tail_clear(self.buf, self.pos as u32)
    }

    /// A writer that holds no bit.
    pub fn new() -> (w: BitWriter)
        ensures
            w.wf(),
            w@ == Seq::<bool>::empty(),
    {
        let w = BitWriter { buf: 0, pos: 0 };
        proof {
            assert(0u32 & (0xffff_ffffu32 >> 0u32) == 0) by (bit_vector);
            assert(w@ =~= Seq::<bool>::empty());
        }
        w
    }

    /// Moves the whole bytes that the writer holds to `target` and returns
    /// how many they were. Fewer than eight bits stay behind.
    pub fn flush(&mut self, target: &mut Vec<u8>) -> (written: usize)
        requires
            old(self).wf(),
        ensures
            final(self).wf(),
            written == old(self)@.len() / 8,
            final(target)@ == old(target)@ + pack(old(self)@.take(8 * written)),
            final(self)@ == old(self)@.skip(8 * written),
            final(self)@.len() < 8,
    {
        proof {
            reveal(unpack);
            reveal(pack);
        }
        let mut num_written: usize = 0;
        while self.pos >= 8
            invariant
                self.wf(),
                old(self).pos <= 32,
                num_written <= 4,
                8 * num_written + self.pos == old(self).pos,
                self@ == old(self)@.skip(8 * num_written),
                target@ == old(target)@ + pack(old(self)@.take(8 * num_written)),
            decreases self.pos,
        {
            let ghost before = *self;
            let byte = self.buf >> 24;
            proof {
                reveal(pack);
                lemma_drain(self.buf, self.pos as u32, 8);
                lemma_top_byte(self.buf);
                assert forall|i: int| 0 <= i < self.pos - 8 implies #[trigger] top_bit(
                    self.buf << 8,
                    i,
                ) == top_bit(self.buf, i + 8) by {
                    lemma_drain(self.buf, self.pos as u32, (31 - i) as u32);
                }
            }
            self.buf = self.buf << 8;
            self.pos = self.pos - 8;
            target.push(byte as u8);
            num_written = num_written + 1;
            proof {
                assert(self@ =~= before@.skip(8));
                assert(self@ =~= old(self)@.skip(8 * num_written));
                let done = old(self)@.take(8 * num_written);
                let at = 8 * (num_written - 1);
                assert forall|j: int| 0 <= j < 8 implies done[at + j] == #[trigger] top_bit(
                    before.buf,
                    j,
                ) by {
                    assert(done[at + j] == before@[j]);
                }
                lemma_byte_of_top(done, at, before.buf);
                assert(target@ =~= old(target)@ + pack(done));
            }
        }
        proof {
            assert(old(self)@.skip(8 * num_written).len() == self.pos);
        }
        num_written
    }

    /// Appends the `size` low bits of `x` to the stream, after moving the
    /// whole bytes held so far to `target`. Returns how many bytes moved.
    ///
    /// The bits of `target` followed by the bits held are, after the call,
    /// what they were before it followed by the bits of `x`.
    pub fn write(&mut self, target: &mut Vec<u8>, size: usize, x: u32) -> (written: usize)
        requires
            old(self).wf(),
            size <= 25,
            x < pow2(size as nat),
        ensures
            final(self).wf(),
            written == old(self)@.len() / 8,
            final(target)@ == old(target)@ + pack(old(self)@.take(8 * written)),
            final(self)@ == old(self)@.skip(8 * written) + bits_of(x, size as nat),
            unpack(final(target)@) + final(self)@ == unpack(old(target)@) + old(self)@ + bits_of(
                x,
                size as nat,
            ),
    {
        proof {
            reveal(unpack);
            reveal(pack);
        }
        let written = self.flush(target);
        let ghost held = self@;
        if size > 0 {
            proof {
                lemma_fits(x, size as nat);
                lemma_merge(self.buf, x, size as u32, self.pos as u32, 0);
            }
            let mask: u32 = (1u32 << (size as u32)) - 1;
            let shift: u32 = (32 - size - self.pos) as u32;
            let ghost before = self.buf;
            self.buf = self.buf | ((x & mask) << shift);
            proof {
                assert forall|i: int| 0 <= i < self.pos + size implies #[trigger] top_bit(
                    self.buf,
                    i,
                ) == (held + bits_of(x, size as nat))[i] by {
                    lemma_merge(before, x, size as u32, self.pos as u32, (31 - i) as u32);
                }
            }
            self.pos = self.pos + size;
        }
        proof {
            assert(self@ =~= held + bits_of(x, size as nat));
            let moved = old(self)@.take(8 * written);
            lemma_unpack_add(old(target)@, pack(moved));
            lemma_unpack_pack(moved);
            assert(moved + held =~= old(self)@);
            assert(unpack(target@) + self@ =~= unpack(old(target)@) + old(self)@ + bits_of(
                x,
                size as nat,
            ));
        }
        written
    }

    /// Ends the stream: moves the whole bytes to `target`, then the bits left
    /// over as one more byte, filled up with zero bits. Returns how many bytes
    /// moved. The writer holds no bit afterwards.
    pub fn close(&mut self, target: &mut Vec<u8>) -> (written: usize)
        requires
            old(self).wf(),
        ensures
            final(self).wf(),
            final(self)@ == Seq::<bool>::empty(),
            final(target)@ == old(target)@ + pack(pad8(old(self)@)),
            written == (old(self)@.len() + 7) / 8,
    {
        proof {
            reveal(unpack);
            reveal(pack);
        }
        let mut num_written = self.flush(target);
        if self.pos > 0 {
            let byte = self.buf >> 24;
            proof {
                lemma_top_byte(self.buf);
            }
            target.push(byte as u8);
            num_written = num_written + 1;
        }
        proof {
            let whole = pack(old(self)@.take((8 * (old(self)@.len() / 8)) as int));
            let padded = pad8(old(self)@);
            assert(pack(padded).len() == (old(self)@.len() + 7) / 8);
            assert forall|k: int| 0 <= k < pack(padded).len() implies #[trigger] pack(padded)[k]
                == target@[old(target)@.len() + k] by {
                if k < old(self)@.len() / 8 {
                    assert(target@[old(target)@.len() + k] == whole[k]);
                } else {
                    assert forall|j: int| 0 <= j < 8 implies padded[8 * k + j]
                        == #[trigger] top_bit(self.buf, j) by {
                        if j < self.pos {
                            assert(padded[8 * k + j] == self@[j]);
                        } else {
                            lemma_tail(self.buf, self.pos as u32, (31 - j) as u32);
                        }
                    }
                    lemma_byte_of_top(padded, 8 * k, self.buf);
                }
            }
            assert(target@ =~= old(target)@ + pack(padded));
        }
        self.buf = 0;
        self.pos = 0;
        proof {
            assert(0u32 & (0xffff_ffffu32 >> 0u32) == 0) by (bit_vector);
            assert(self@ =~= Seq::<bool>::empty());
        }
        num_written
    }
}

/// Bit `k` of `buf`, counted from the least significant end.
pub open spec fn low_bit(buf: u32, k: int) -> bool {
    bit_at(buf, k as u32)
}

/// When a byte enters the accumulator, the bits held move up by eight
/// places, and the bits of the byte stand below them.
proof fn lemma_refill(buf: u32, h: u32, k: u32)
    by (bit_vector)
    requires
        h < 256,
        k < 32,
    ensures
        k >= 8 ==> bit_at((buf << 8) | h, k) == bit_at(buf, (k - 8) as u32),
        k < 8 ==> bit_at((buf << 8) | h, k) == bit_at(h, k),
{
}

/// A field of `size` bits that is taken from the accumulator is below
/// `2^size`.
proof fn lemma_extract_fits(buf: u32, size: u32, shift: u32)
    by (bit_vector)
    requires
        size <= 25,
        shift < 32,
    ensures
        (1u32 << size) >= 1,
        ((((1u32 << size) - 1) as u32) & (buf >> shift)) >> size == 0,
{
}

/// The bits of a field that is taken from the accumulator are the bits of
/// the accumulator at the place of the field.
proof fn lemma_extract(buf: u32, size: u32, shift: u32, t: u32)
    by (bit_vector)
    requires
        size <= 25,
        shift < 32,
        t < size,
        t + shift < 32,
    ensures
        bit_at((((1u32 << size) - 1) as u32) & (buf >> shift), t) == bit_at(
            buf,
            (t + shift) as u32,
        ),
{
}

/// Reads fields of up to 25 bits from bytes, most significant bit first.
///
/// The reader fetches a byte only when a field needs it, so that the number
/// of bytes fetched is the number of bytes that the fields read so far reach
/// into.
pub struct BitReader<'a> {
    buf: u32,
    pos: usize,
    advanced_bytes: usize,
    bytes: &'a [u8],
}

impl<'a> BitReader<'a> {
    /// The bytes that the reader was made for.
    pub closed spec fn data(&self) -> Seq<u8> {
        self.bytes@
    }

    /// The number of bytes fetched from the data.
    pub closed spec fn fetched(&self) -> nat {
        self.advanced_bytes as nat
    }

    /// The number of bits fetched and not read yet.
    pub closed spec fn held(&self) -> nat {
        (32 - self.pos) as nat
    }

    /// The number of bits read so far.
    pub open spec fn cursor(&self) -> int {
        8 * self.fetched() - self.held()
    }

    /// The bits held are the bits of the data that lie between the cursor and
    /// the end of the bytes fetched.
    pub closed spec fn loaded(&self) -> bool {
        &&& self.pos <= 32
        &&& self.advanced_bytes <= self.bytes@.len()
        &&& 32 - self.pos <= 8 * self.advanced_bytes
        &&& forall|k: int|
            0 <= k < 32 - self.pos ==> #[trigger] low_bit(self.buf, k) == unpack(self.bytes@)[8
                * self.advanced_bytes - 1 - k]
    }

    /// The reader is loaded and holds less than a byte, as it does between
    /// two reads.
    pub open spec fn wf(&self) -> bool {
        &&& self.loaded()
        &&& self.held() < 8
    }

    /// The cursor lies within the data.
    pub proof fn lemma_cursor_in_data(&self)
        requires
            self.loaded(),
        ensures
            0 <= self.cursor() <= 8 * self.data().len(),
            self.fetched() <= self.data().len(),
    {
    }

    /// A reader at the start of `bytes`.
    pub fn new(bytes: &'a [u8]) -> (r: BitReader<'a>)
        ensures
            r.wf(),
            r.data() == bytes@,
            r.cursor() == 0,
            r.fetched() == 0,
    {
        proof {
            reveal(unpack);
            reveal(pack);
        }
        BitReader { buf: 0, pos: 32, advanced_bytes: 0, bytes: bytes }
    }

    /// The number of bytes fetched: those that the fields read so far reach
    /// into.
    pub fn advanced_by(&self) -> (n: usize)
        requires
            self.wf(),
        ensures
            n == self.fetched(),
            n == (self.cursor() + 7) / 8,
            n <= self.data().len(),
    {
        proof {
            reveal(unpack);
            reveal(pack);
        }
        self.advanced_bytes
    }

    /// Fetches the next byte of the data, if there is one.
    pub fn fill(&mut self)
        requires
            old(self).loaded(),
            old(self).held() <= 24,
        ensures
            final(self).loaded(),
            final(self).data() == old(self).data(),
            final(self).cursor() == old(self).cursor(),
            old(self).fetched() < old(self).data().len() ==> final(self).fetched() == old(
                self,
            ).fetched() + 1,
            old(self).fetched() >= old(self).data().len() ==> *final(self) == *old(self),
    {
        proof {
            reveal(unpack);
            reveal(pack);
        }
        if self.advanced_bytes < self.bytes.len() {
            let head = self.bytes[self.advanced_bytes];
            let ghost before = self.buf;
            self.buf = (self.buf << 8) | (head as u32);
            self.pos = self.pos - 8;
            self.advanced_bytes = self.advanced_bytes + 1;
            proof {
                reveal(unpack);
                let stream = unpack(self.bytes@);
                assert forall|k: int| 0 <= k < 32 - self.pos implies #[trigger] low_bit(self.buf, k)
                    == stream[8 * self.advanced_bytes - 1 - k] by {
                    lemma_refill(before, head as u32, k as u32);
                    if k >= 8 {
                        let at = 8 * (self.advanced_bytes - 1) - 1 - (k - 8);
                        assert(low_bit(before, k - 8) == stream[at]);
                    }
                }
            }
        }
    }

    /// Reads the next `size` bits as an unsigned number.
    ///
    /// Fails, and leaves the reader as it was, where fewer than `size` bits
    /// are left in the data.
    pub fn read(&mut self, size: usize) -> (r: Result<u32, ReadError>)
        requires
            old(self).wf(),
            size <= 25,
        ensures
            final(self).wf(),
            final(self).data() == old(self).data(),
            match r {
                Ok(x) => {
                    &&& old(self).cursor() + size <= 8 * old(self).data().len()
                    &&& x == field_at(old(self).data(), old(self).cursor() as nat, size as nat)
                    &&& final(self).cursor() == old(self).cursor() + size
                },
                Err(e) => {
                    &&& e == ReadError::Truncated
                    &&& old(self).cursor() + size > 8 * old(self).data().len()
                    &&& *final(self) == *old(self)
                },
            },
    {
        proof {
            reveal(unpack);
            reveal(pack);
        }
        let avail = 32 - self.pos;
        if size > avail {
            let need = size - avail;
            if (need + 7) / 8 > self.bytes.len() - self.advanced_bytes {
                return Err(ReadError::Truncated);
            }
        }
        while 32 - self.pos < size
            invariant
                self.loaded(),
                size <= 25,
                self.data() == old(self).data(),
                self.cursor() == old(self).cursor(),
                self.cursor() + size <= 8 * self.data().len(),
                self.held() < 8 || self.held() < size + 8,
            decreases self.pos,
        {
            self.fill();
        }
        let avail = 32 - self.pos;
        let shift: u32 = (avail - size) as u32;
        proof {
            lemma_extract_fits(self.buf, size as u32, shift);
        }
        let mask: u32 = (1u32 << (size as u32)) - 1;
        let x = mask & (self.buf >> shift);
        proof {
            let stream = unpack(self.bytes@);
            let bits = stream.subrange(self.cursor(), self.cursor() + size);
            assert forall|t: int| 0 <= t < size implies bits[t] == bit_at(
                x,
                (bits.len() - 1 - t) as u32,
            ) by {
                let k = size - 1 - t;
                lemma_extract(self.buf, size as u32, shift, k as u32);
                assert(low_bit(self.buf, k + shift) == stream[8 * self.advanced_bytes - 1 - (k
                    + shift)]);
            }
            lemma_num_of_bits(bits, x);
        }
        self.pos = self.pos + size;
        Ok(x)
    }
}

} // verus!
