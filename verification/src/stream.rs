//! The bit stream that every codec of this crate writes to and reads from.
//!
//! A stream is a sequence of bits. Bytes are produced from it and consumed
//! into it through `bitbuffer`, bit by bit. Fixed-width integers are laid out
//! in the stream's bit order, least significant bit first in a little-endian
//! stream and most significant bit first in a big-endian one, which is the
//! layout of `bitbuffer`'s own integers.

use bitbuffer::{BigEndian, BitReadBuffer, BitReadStream, BitWriteStream, LittleEndian};
use vstd::arithmetic::div_mod::{lemma_breakdown, lemma_div_denominator, lemma_small_mod};
use vstd::prelude::*;

verus! {

/// Bit order of a stream within each byte and within each fixed-width integer.
#[derive(Clone, Copy, Debug, PartialEq, Eq, Structural)]
pub enum Endian {
    Little,
    Big,
}

/// Why a stream of bits could not be decoded.
#[derive(Clone, Copy, Debug, PartialEq, Eq, Structural)]
pub enum DecodeError {
    /// The stream ended inside a tag, a payload or a child.
    Truncated,
    /// A variable-length number does not fit in 64 bits.
    NumberTooLarge,
    /// The bytes of a reference name are not UTF-8.
    InvalidName,
    /// The decoded forest holds an odd number of variables.
    OddVariableCount,
    /// A wiring index selects a port that does not exist.
    WiringViolation,
    /// The names of a book do not rise strictly.
    KeyDisorder,
}

/// Two to the power `n`.
pub open spec fn pow2(n: nat) -> nat
    decreases n,
{
    if n == 0 {
        1
    } else {
        2 * pow2((n - 1) as nat)
    }
}

/// Bit `j` of `v`, counted from the least significant one.
pub open spec fn bit(v: nat, j: nat) -> bool {
    (v / pow2(j)) % 2 == 1
}

/// The `w` low bits of `v` in stream order: least significant first in a
/// little-endian stream, most significant first in a big-endian one.
pub open spec fn uint_bits(v: nat, w: nat, big: bool) -> Seq<bool> {
    Seq::new(
        w,
        |j: int|
            if big {
                bit(v, (w - 1 - j) as nat)
            } else {
                bit(v, j as nat)
            },
    )
}

/// The number that `bits` spell in stream order.
pub open spec fn uint_value(bits: Seq<bool>, big: bool) -> nat
    decreases bits.len(),
{
    if bits.len() == 0 {
        0
    } else if big {
        2 * uint_value(bits.drop_last(), big) + if bits.last() {
            1nat
        } else {
            0nat
        }
    } else {
        uint_value(bits.drop_last(), big) + if bits.last() {
            pow2((bits.len() - 1) as nat)
        } else {
            0nat
        }
    }
}

/// `n` zero bits.
pub open spec fn zeros(n: nat) -> Seq<bool> {
    Seq::new(n, |j: int| false)
}

/// Bit `k` of a byte in stream order.
pub open spec fn byte_bit(b: u8, k: nat, big: bool) -> bool {
    if big {
        bit(b as nat, (7 - k) as nat)
    } else {
        bit(b as nat, k)
    }
}

/// The bits that a byte buffer holds, in stream order.
pub open spec fn unpacked(bytes: Seq<u8>, big: bool) -> Seq<bool> {
    Seq::new(8 * bytes.len(), |i: int| byte_bit(bytes[i / 8], (i % 8) as nat, big))
}

/// `bits` followed by the zero bits that fill its last byte.
pub open spec fn padded(bits: Seq<bool>) -> Seq<bool> {
    bits + zeros(((8 - bits.len() % 8) % 8) as nat)
}

pub proof fn lemma_pow2_positive(n: nat)
    ensures
        pow2(n) > 0,
    decreases n,
{
    if n > 0 {
        lemma_pow2_positive((n - 1) as nat);
    }
}

pub proof fn lemma_pow2_64()
    ensures
        pow2(64) == 0x1_0000_0000_0000_0000,
        pow2(63) == 0x8000_0000_0000_0000,
{
    reveal_with_fuel(pow2, 65);
}

pub proof fn lemma_pow2_monotonic(a: nat, b: nat)
    requires
        a <= b,
    ensures
        pow2(a) <= pow2(b),
    decreases b,
{
    if a < b {
        lemma_pow2_monotonic(a, (b - 1) as nat);
    }
}

/// Halving a number shifts its bits down by one place.
pub proof fn lemma_bit_of_half(v: nat, j: nat)
    ensures
        bit(v, j + 1) == bit(v / 2, j),
{
    lemma_pow2_positive(j);
    lemma_div_denominator(v as int, 2, pow2(j) as int);
}

/// The bits of a fixed-width integer spell its value modulo two to the width.
pub proof fn lemma_uint_value_of_bits(v: nat, w: nat, big: bool)
    ensures
        uint_value(uint_bits(v, w, big), big) == v % pow2(w),
    decreases w,
{
    let bits = uint_bits(v, w, big);
    if w > 0 {
        let p = pow2((w - 1) as nat);
        lemma_pow2_positive((w - 1) as nat);
        if big {
            assert(bits.drop_last() =~= uint_bits(v / 2, (w - 1) as nat, big)) by {
                assert forall|j: int| 0 <= j < w - 1 implies bits[j] == uint_bits(
                    v / 2,
                    (w - 1) as nat,
                    big,
                )[j] by {
                    lemma_bit_of_half(v, (w - 2 - j) as nat);
                }
            }
            lemma_uint_value_of_bits(v / 2, (w - 1) as nat, big);
            lemma_breakdown(v as int, 2, p as int);
            assert(pow2(0) == 1);
            assert(bits.last() == bit(v, 0));
        } else {
            assert(bits.drop_last() =~= uint_bits(v, (w - 1) as nat, big));
            lemma_uint_value_of_bits(v, (w - 1) as nat, big);
            lemma_breakdown(v as int, p as int, 2);
            assert(p * 2 == pow2(w));
            assert(bits.last() == ((v / p) % 2 == 1));
            if bits.last() {
                assert(p * ((v as int / p as int) % 2) == p) by (nonlinear_arith)
                    requires
                        (v as int / p as int) % 2 == 1,
                ;
            } else {
                assert(p * ((v as int / p as int) % 2) == 0) by (nonlinear_arith)
                    requires
                        (v as int / p as int) % 2 == 0,
                ;
            }
        }
    } else {
        assert(v % 1 == 0);
    }
}

/// A number that fits its width is read back unchanged.
pub proof fn lemma_uint_round_trip(v: nat, w: nat, big: bool)
    requires
        v < pow2(w),
    ensures
        uint_value(uint_bits(v, w, big), big) == v,
{
    lemma_uint_value_of_bits(v, w, big);
    lemma_small_mod(v, pow2(w));
}

/// A number spelled by `w` bits is below two to the `w`.
pub proof fn lemma_uint_value_bound(bits: Seq<bool>, big: bool)
    ensures
        uint_value(bits, big) < pow2(bits.len()),
    decreases bits.len(),
{
    if bits.len() > 0 {
        lemma_uint_value_bound(bits.drop_last(), big);
    }
}

/// Two byte buffers of one length that hold the same bits are the same
/// buffer: the bytes of a value are a function of its bits alone.
pub proof fn lemma_bytes_from_bits(a: Seq<u8>, b: Seq<u8>, big: bool)
    requires
        a.len() == b.len(),
        unpacked(a, big) == unpacked(b, big),
    ensures
        a == b,
{
    assert(pow2(8) == 256) by {
        reveal_with_fuel(pow2, 9);
    }
    assert forall|i: int| 0 <= i < a.len() implies a[i] == b[i] by {
        let field = unpacked(a, big).subrange(8 * i, 8 * i + 8);
        assert(field =~= uint_bits(a[i] as nat, 8, big)) by {
            assert forall|k: int| 0 <= k < 8 implies field[k] == uint_bits(a[i] as nat, 8, big)[k] by {
                assert(field[k] == unpacked(a, big)[8 * i + k]);
                assert((8 * i + k) / 8 == i && (8 * i + k) % 8 == k);
            }
        }
        assert(field =~= uint_bits(b[i] as nat, 8, big)) by {
            assert forall|k: int| 0 <= k < 8 implies field[k] == uint_bits(b[i] as nat, 8, big)[k] by {
                assert(field[k] == unpacked(b, big)[8 * i + k]);
                assert((8 * i + k) / 8 == i && (8 * i + k) % 8 == k);
            }
        }
        lemma_uint_round_trip(a[i] as nat, 8, big);
        lemma_uint_round_trip(b[i] as nat, 8, big);
    }
    assert(a =~= b);
}

/// An append-only stream of bits.
pub struct BitWriter {
    bits: Vec<bool>,
    endian: Endian,
}

impl View for BitWriter {
    type V = Seq<bool>;

    closed spec fn view(&self) -> Seq<bool> {
        self.bits@
    }
}

impl BitWriter {
    /// Whether fixed-width integers go out most significant bit first.
    pub closed spec fn big(&self) -> bool {
        self.endian == Endian::Big
    }

    /// An empty stream with the given bit order.
    pub fn new(endian: Endian) -> (stream: BitWriter)
        ensures
            stream@ == Seq::<bool>::empty(),
            stream.big() == (endian == Endian::Big),
    {
        BitWriter { bits: Vec::new(), endian }
    }

    /// Appends one bit.
    pub fn write_bool(&mut self, value: bool)
        ensures
            final(self)@ == old(self)@.push(value),
            final(self).big() == old(self).big(),
    {
        self.bits.push(value);
    }

    /// Appends the `width` low bits of `value` in the stream's bit order.
    pub fn write_uint(&mut self, value: u64, width: usize)
        requires
            width <= 64,
        ensures
            final(self)@ == old(self)@ + uint_bits(value as nat, width as nat, old(self).big()),
            final(self).big() == old(self).big(),
    {
        let ghost start = self.bits@;
        let mut low_first: Vec<bool> = Vec::new();
        let mut rest: u64 = value;
        let mut j: usize = 0;
        assert(pow2(0) == 1);
        while j < width
            invariant
                j <= width <= 64,
                rest == value as nat / pow2(j as nat),
                low_first@ == uint_bits(value as nat, j as nat, false),
            decreases width - j,
        {
            proof {
                lemma_pow2_positive(j as nat);
                lemma_div_denominator(value as int, pow2(j as nat) as int, 2);
            }
            low_first.push(rest % 2 == 1);
            rest = rest / 2;
            j += 1;
            assert(low_first@ =~= uint_bits(value as nat, j as nat, false));
        }
        let big = match self.endian {
            Endian::Big => true,
            Endian::Little => false,
        };
        let mut i: usize = 0;
        while i < width
            invariant
                i <= width,
                low_first@ == uint_bits(value as nat, width as nat, false),
                big == self.big(),
                self.big() == old(self).big(),
                self@ == start + uint_bits(value as nat, width as nat, big).take(i as int),
            decreases width - i,
        {
            let b = if big {
                low_first[width - 1 - i]
            } else {
                low_first[i]
            };
            self.bits.push(b);
            i += 1;
            assert(self@ =~= start + uint_bits(value as nat, width as nat, big).take(i as int));
        }
        assert(uint_bits(value as nat, width as nat, big).take(width as int) =~= uint_bits(
            value as nat,
            width as nat,
            big,
        ));
    }

    /// The bytes of the stream, its last byte filled up with zero bits.
    pub fn into_bytes(self) -> (bytes: Vec<u8>)
        ensures
            bytes@.len() == (self@.len() + 7) / 8,
            unpacked(bytes@, self.big()) == padded(self@),
    {
        match self.endian {
            Endian::Big => pack_big(&self.bits),
            Endian::Little => pack_little(&self.bits),
        }
    }
}

/// A stream of bits that is read from front to back.
pub struct BitReader {
    bits: Vec<bool>,
    pos: usize,
    endian: Endian,
}

impl BitReader {
    /// The bits that have not been read yet.
    pub closed spec fn remaining(&self) -> Seq<bool> {
        if self.pos <= self.bits@.len() {
            self.bits@.skip(self.pos as int)
        } else {
            Seq::empty()
        }
    }

    /// Whether fixed-width integers come in most significant bit first.
    pub closed spec fn big(&self) -> bool {
        self.endian == Endian::Big
    }

    /// A stream over the bits of `bytes`, whose number must fit in `usize`.
    pub fn new(bytes: &[u8], endian: Endian) -> (stream: BitReader)
        requires
            8 * bytes@.len() <= usize::MAX,
        ensures
            stream.remaining() == unpacked(bytes@, endian == Endian::Big),
            stream.big() == (endian == Endian::Big),
    {
        let bits = match endian {
            Endian::Big => unpack_big(bytes),
            Endian::Little => unpack_little(bytes),
        };
        BitReader { bits, pos: 0, endian }
    }

    /// How many bits are left.
    pub fn bits_left(&self) -> (n: usize)
        ensures
            n == self.remaining().len(),
    {
        if self.pos <= self.bits.len() {
            self.bits.len() - self.pos
        } else {
            0
        }
    }

    /// Reads one bit, or fails at the end of the stream.
    pub fn read_bool(&mut self) -> (result: Result<bool, DecodeError>)
        ensures
            final(self).big() == old(self).big(),
            match result {
                Ok(b) => old(self).remaining().len() > 0 && b == old(self).remaining()[0]
                    && final(self).remaining() == old(self).remaining().skip(1),
                Err(e) => old(self).remaining().len() == 0 && e == DecodeError::Truncated
                    && final(self).remaining() == old(self).remaining(),
            },
    {
        if self.pos < self.bits.len() {
            let b = self.bits[self.pos];
            self.pos += 1;
            assert(final(self).remaining() =~= old(self).remaining().skip(1));
            Ok(b)
        } else {
            Err(DecodeError::Truncated)
        }
    }

    /// Reads a `width`-bit integer in the stream's bit order, or fails where
    /// fewer bits are left.
    pub fn read_uint(&mut self, width: usize) -> (result: Result<u64, DecodeError>)
        requires
            width <= 64,
        ensures
            final(self).big() == old(self).big(),
            match result {
                Ok(v) => old(self).remaining().len() >= width && v == uint_value(
                    old(self).remaining().take(width as int),
                    old(self).big(),
                ) && final(self).remaining() == old(self).remaining().skip(width as int),
                Err(e) => old(self).remaining().len() < width && e == DecodeError::Truncated
                    && final(self).remaining() == old(self).remaining(),
            },
    {
        if self.bits_left() < width {
            return Err(DecodeError::Truncated);
        }
        if width == 0 {
            assert(self.remaining().skip(0) =~= self.remaining());
            return Ok(0);
        }
        let ghost field = self.remaining().take(width as int);
        let big = match self.endian {
            Endian::Big => true,
            Endian::Little => false,
        };
        let start = self.pos;
        let mut acc: u64 = 0;
        let mut weight: u64 = 1;
        let mut j: usize = 0;
        proof {
            lemma_pow2_64();
            assert(pow2(0) == 1);
            assert(field =~= self.bits@.subrange(start as int, start + width));
        }
        while j < width
            invariant
                j <= width <= 64,
                start + width <= self.bits.len(),
                field == self.bits@.subrange(start as int, start + width),
                acc == uint_value(field.take(j as int), big),
                j < width ==> weight == pow2(j as nat),
                pow2(64) == 0x1_0000_0000_0000_0000,
            decreases width - j,
        {
            let b = self.bits[start + j];
            proof {
                let prefix = field.take(j + 1);
                assert(prefix.drop_last() =~= field.take(j as int));
                assert(prefix.last() == b);
                lemma_uint_value_bound(field.take(j as int), big);
                lemma_uint_value_bound(prefix, big);
                lemma_pow2_monotonic((j + 1) as nat, 64);
            }
            if big {
                acc = 2 * acc + if b {
                    1
                } else {
                    0
                };
            } else if b {
                acc = acc + weight;
            }
            j += 1;
            if j < width {
                proof {
                    lemma_pow2_monotonic((j + 1) as nat, 64);
                }
                weight = weight * 2;
            }
        }
        assert(field.take(width as int) =~= field);
        self.pos = start + width;
        assert(final(self).remaining() =~= old(self).remaining().skip(width as int));
        Ok(acc)
    }
}

/// Packs bits into bytes with `bitbuffer::BitWriteStream::write_bool` on a
/// little-endian stream over a fresh buffer. Claimed: the buffer holds one
/// byte for every eight bits begun, bit `i` of the stream is bit `i % 8` of
/// byte `i / 8` counted from the least significant one, and the bits after
/// the last one written are zero.
#[verifier::external_body]
fn pack_little(bits: &Vec<bool>) -> (bytes: Vec<u8>)
    ensures
        bytes@.len() == (bits@.len() + 7) / 8,
        unpacked(bytes@, false) == padded(bits@),
{
    let mut bytes = Vec::new();
    let mut stream = BitWriteStream::new(&mut bytes, LittleEndian);
    for b in bits.iter() {
        let _ = stream.write_bool(*b);
    }
    bytes
}

/// Packs bits into bytes with `bitbuffer::BitWriteStream::write_bool` on a
/// big-endian stream over a fresh buffer. Claimed: as for the little-endian
/// stream, but bit `i` of the stream is bit `7 - i % 8` of byte `i / 8`.
#[verifier::external_body]
fn pack_big(bits: &Vec<bool>) -> (bytes: Vec<u8>)
    ensures
        bytes@.len() == (bits@.len() + 7) / 8,
        unpacked(bytes@, true) == padded(bits@),
{
    let mut bytes = Vec::new();
    let mut stream = BitWriteStream::new(&mut bytes, BigEndian);
    for b in bits.iter() {
        let _ = stream.write_bool(*b);
    }
    bytes
}

/// Reads every bit of a byte buffer with `bitbuffer::BitReadStream::read_bool`
/// on a little-endian stream. Claimed: eight bits come out of each byte,
/// least significant first, and reading fails only after the last of them.
#[verifier::external_body]
fn unpack_little(bytes: &[u8]) -> (bits: Vec<bool>)
    requires
        8 * bytes@.len() <= usize::MAX,
    ensures
        bits@ == unpacked(bytes@, false),
{
    let mut stream = BitReadStream::new(BitReadBuffer::new_owned(bytes.to_vec(), LittleEndian));
    let mut bits = Vec::new();
    while let Ok(b) = stream.read_bool() {
        bits.push(b);
    }
    bits
}

/// Reads every bit of a byte buffer with `bitbuffer::BitReadStream::read_bool`
/// on a big-endian stream. Claimed: eight bits come out of each byte, most
/// significant first, and reading fails only after the last of them.
#[verifier::external_body]
fn unpack_big(bytes: &[u8]) -> (bits: Vec<bool>)
    requires
        8 * bytes@.len() <= usize::MAX,
    ensures
        bits@ == unpacked(bytes@, true),
{
    let mut stream = BitReadStream::new(BitReadBuffer::new_owned(bytes.to_vec(), BigEndian));
    let mut bits = Vec::new();
    while let Ok(b) = stream.read_bool() {
        bits.push(b);
    }
    bits
}

} // verus!
