//! A compact bit-level codec for interaction nets.
//!
//! A net is a root tree and a list of active pairs of trees. Its variables
//! come in pairs of one name: the two ends of a wire. The codec writes the
//! trees without any names and the pairing of the variable occurrences, the
//! wiring, in as few bits as a perfect matching needs. A decoded net is in
//! normal form: the variables of the wire at place `p` of the wiring are
//! both named `p` in decimal.
//!
//! # Wire format
//!
//! The stream is a sequence of bits without framing, padded with zero bits
//! to a whole byte. Its bit order, little-endian by default, is the order of
//! the bits within each byte and within each fixed-width integer.
//!
//! * A number is a shifted Elias gamma code: for `n`, as many zero bits as
//!   `n + 1` has binary digits after its first, then `n + 1` itself, most
//!   significant bit first, in either bit order.
//! * A tree is written in pre-order. Each node is a three-bit tag, the
//!   payload of the tag, and the children from left to right:
//!
//!   | Code | Node | Payload | Children |
//!   |---|---|---|---|
//!   | 0 | eraser | | |
//!   | 1 | reference | the UTF-8 bytes of the name, then a zero byte | |
//!   | 2 | variable | | |
//!   | 3 | number | the 32-bit value as a gamma code | |
//!   | 4 | operator | | 2 |
//!   | 5 | switch | | 2 |
//!   | 6 | constructor | | 2 |
//!   | 7 | duplicator | | 2 |
//!
//!   All eight codes are taken, so no tag is unknown to the decoder.
//! * A wiring of `k` pairs on the occurrences `0 .. 2k` is written pair by
//!   pair in the order of the first members. The first member of each pair
//!   is the first occurrence still open; the second is written as its place
//!   among the occurrences open after that, in `ceil(log2(r))` bits for `r`
//!   of them.
//! * A net is its root, the number of its active pairs as a gamma code, both
//!   trees of each pair, and the wiring.
//! * A book is the number of its definitions as a gamma code, then for each
//!   definition the number of bytes of its name as a gamma code, the bytes,
//!   and the net.

use vstd::prelude::*;

pub mod book;
pub mod net;
pub mod scalars;
pub mod stream;
pub mod tree;
pub mod wiring;

use crate::stream::{padded, unpacked, BitReader, BitWriter, DecodeError, Endian};

verus! {

/// A value with a place in the bit stream.
pub trait BitWrite {
    /// Whether the value can be written at all.
    spec fn encodable(&self) -> bool;

    /// The bits that stand for the value in a stream of the given bit order.
    spec fn bits(&self, big: bool) -> Seq<bool>;

    /// Appends the value's bits to the stream.
    fn write(&self, stream: &mut BitWriter)
        requires
            self.encodable(),
        ensures
            final(stream)@ == old(stream)@ + self.bits(old(stream).big()),
            final(stream).big() == old(stream).big(),
    ;
}

/// A value that can be read back from the bit stream without outside help.
pub trait BitRead: Sized + View {
    /// What the front of `bits` decodes to, with the number of bits taken.
    spec fn parse(bits: Seq<bool>, big: bool) -> Result<(Self::V, nat), DecodeError>;

    /// Reads one value from the front of the stream.
    fn read(stream: &mut BitReader) -> (result: Result<Self, DecodeError>)
        ensures
            final(stream).big() == old(stream).big(),
            reads_as(
                result,
                old(stream).remaining(),
                final(stream).remaining(),
                Self::parse(old(stream).remaining(), old(stream).big()),
            ),
    ;
}

/// A value that can be read back once its size is known.
pub trait BitReadSized: Sized + View {
    /// What the front of `bits` decodes to as a value of the given size, with
    /// the number of bits taken.
    spec fn parse_sized(bits: Seq<bool>, size: nat, big: bool) -> Result<
        (Self::V, nat),
        DecodeError,
    >;

    /// Reads one value of the given size from the front of the stream.
    fn read(stream: &mut BitReader, size: usize) -> (result: Result<Self, DecodeError>)
        ensures
            final(stream).big() == old(stream).big(),
            reads_as(
                result,
                old(stream).remaining(),
                final(stream).remaining(),
                Self::parse_sized(old(stream).remaining(), size as nat, old(stream).big()),
            ),
    ;
}

/// Whether a read that turned `before` into `after` and returned `result`
/// agrees with `parsed`: the same value and as many bits taken, or the same
/// error.
pub open spec fn reads_as<T: View>(
    result: Result<T, DecodeError>,
    before: Seq<bool>,
    after: Seq<bool>,
    parsed: Result<(T::V, nat), DecodeError>,
) -> bool {
    match (result, parsed) {
        (Ok(v), Ok((model, taken))) => v@ == model && taken <= before.len() && after
            == before.skip(taken as int),
        (Err(e), Err(expected)) => e == expected,
        _ => false,
    }
}

/// Whether a decoded `result` is what `parsed` says of the whole input: the
/// same value, or the same error.
pub open spec fn decodes_as<T: View>(
    result: Result<T, DecodeError>,
    parsed: Result<(T::V, nat), DecodeError>,
) -> bool {
    match (result, parsed) {
        (Ok(v), Ok((model, _))) => v@ == model,
        (Err(e), Err(expected)) => e == expected,
        _ => false,
    }
}

/// The bytes of a value in a little-endian stream, the last byte filled up
/// with zero bits.
pub fn encode<T: BitWrite>(value: &T) -> (bytes: Vec<u8>)
    requires
        value.encodable(),
    ensures
        bytes@.len() == (value.bits(false).len() + 7) / 8,
        unpacked(bytes@, false) == padded(value.bits(false)),
{
    encode_endian(value, Endian::Little)
}

/// The value at the front of a little-endian stream of bytes, whose bits
/// must be no more than `usize` counts.
pub fn decode<T: BitRead>(bytes: &[u8]) -> (result: Result<T, DecodeError>)
    requires
        8 * bytes@.len() <= usize::MAX,
    ensures
        decodes_as(result, T::parse(unpacked(bytes@, false), false)),
{
    decode_endian(bytes, Endian::Little)
}

/// The value of the given size at the front of a little-endian stream of
/// bytes, whose bits must be no more than `usize` counts.
pub fn decode_sized<T: BitReadSized>(bytes: &[u8], size: usize) -> (result: Result<T, DecodeError>)
    requires
        8 * bytes@.len() <= usize::MAX,
    ensures
        decodes_as(result, T::parse_sized(unpacked(bytes@, false), size as nat, false)),
{
    decode_sized_endian(bytes, Endian::Little, size)
}

/// The bytes of a value in a stream of the given bit order, the last byte
/// filled up with zero bits.
pub fn encode_endian<T: BitWrite>(value: &T, endianness: Endian) -> (bytes: Vec<u8>)
    requires
        value.encodable(),
    ensures
        bytes@.len() == (value.bits(endianness == Endian::Big).len() + 7) / 8,
        unpacked(bytes@, endianness == Endian::Big) == padded(
            value.bits(endianness == Endian::Big),
        ),
{
    let mut stream = BitWriter::new(endianness);
    value.write(&mut stream);
    assert(stream@ =~= value.bits(endianness == Endian::Big));
    stream.into_bytes()
}

/// The value at the front of a stream of bytes of the given bit order, whose
/// bits must be no more than `usize` counts.
pub fn decode_endian<T: BitRead>(bytes: &[u8], endianness: Endian) -> (result: Result<
    T,
    DecodeError,
>)
    requires
        8 * bytes@.len() <= usize::MAX,
    ensures
        decodes_as(
            result,
            T::parse(unpacked(bytes@, endianness == Endian::Big), endianness == Endian::Big),
        ),
{
    let mut stream = BitReader::new(bytes, endianness);
    T::read(&mut stream)
}

/// The value of the given size at the front of a stream of bytes of the
/// given bit order, whose bits must be no more than `usize` counts.
pub fn decode_sized_endian<T: BitReadSized>(bytes: &[u8], endianness: Endian, size: usize) -> (result:
    Result<T, DecodeError>)
    requires
        8 * bytes@.len() <= usize::MAX,
    ensures
        decodes_as(
            result,
            T::parse_sized(
                unpacked(bytes@, endianness == Endian::Big),
                size as nat,
                endianness == Endian::Big,
            ),
        ),
{
    let mut stream = BitReader::new(bytes, endianness);
    T::read(&mut stream, size)
}

} // verus!
