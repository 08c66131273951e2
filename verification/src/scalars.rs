//! The scalar payloads of a tree: reference names, variable-length numbers
//! and node tags.

use crate::stream::{
    lemma_pow2_64, lemma_pow2_monotonic, lemma_pow2_positive, lemma_uint_round_trip,
    lemma_uint_value_bound, pow2,
    uint_bits, uint_value, zeros, BitReader, BitWriter, DecodeError,
};
use crate::tree::{Kind, Tree, TreeView};
use crate::{BitRead, BitWrite};
use vstd::prelude::*;
use vstd::std_specs::convert::FromSpecImpl;
use vstd::utf8::{decode_utf8, encode_utf8, valid_utf8};

verus! {

/// The name of a definition that a tree refers to.
#[derive(Debug, PartialEq, Eq, Clone)]
pub struct HVMRef(pub String);

impl View for HVMRef {
    type V = Seq<char>;

    open spec fn view(&self) -> Seq<char> {
        self.0@
    }
}

/// The stream form of a run of bytes: eight bits each, in stream order.
pub open spec fn bytes_bits(bytes: Seq<u8>, big: bool) -> Seq<bool>
    decreases bytes.len(),
{
    if bytes.len() == 0 {
        Seq::empty()
    } else {
        bytes_bits(bytes.drop_last(), big) + uint_bits(bytes.last() as nat, 8, big)
    }
}

/// The stream form of a name: its UTF-8 bytes and a closing zero byte.
pub open spec fn name_bits(name: Seq<char>, big: bool) -> Seq<bool> {
    bytes_bits(encode_utf8(name), big) + uint_bits(0, 8, big)
}

/// A name can be written when none of its UTF-8 bytes is zero.
pub open spec fn name_encodable(name: Seq<char>) -> bool {
    forall|i: int| 0 <= i < encode_utf8(name).len() ==> encode_utf8(name)[i] != 0
}

/// The bytes at the front of `bits` up to the first zero byte, with the
/// number of bits taken, the zero byte included.
pub open spec fn bytes_until_zero(bits: Seq<bool>, big: bool) -> Result<(Seq<u8>, nat), DecodeError>
    decreases bits.len(),
{
    if bits.len() < 8 {
        Err(DecodeError::Truncated)
    } else {
        let b = uint_value(bits.take(8), big);
        if b == 0 {
            Ok((Seq::empty(), 8nat))
        } else {
            prepend_bytes(seq![b as u8], bytes_until_zero(bits.skip(8), big))
        }
    }
}

/// `parsed` after `front` has been read before it.
pub open spec fn prepend_bytes(
    front: Seq<u8>,
    parsed: Result<(Seq<u8>, nat), DecodeError>,
) -> Result<(Seq<u8>, nat), DecodeError> {
    match parsed {
        Ok((rest, taken)) => Ok((front + rest, taken + 8 * front.len())),
        Err(e) => Err(e),
    }
}

/// The name at the front of `bits`.
pub open spec fn name_parse(bits: Seq<bool>, big: bool) -> Result<(Seq<char>, nat), DecodeError> {
    match bytes_until_zero(bits, big) {
        Ok((bytes, taken)) => if valid_utf8(bytes) {
            Ok((decode_utf8(bytes), taken))
        } else {
            Err(DecodeError::InvalidName)
        },
        Err(e) => Err(e),
    }
}

/// Turns bytes into a string with `String::from_utf8`. Claimed: the call
/// succeeds exactly on valid UTF-8 and then yields the characters that the
/// bytes encode.
#[verifier::external_body]
pub(crate) fn string_from_utf8(bytes: Vec<u8>) -> (name: Option<String>)
    ensures
        match name {
            Some(s) => valid_utf8(bytes@) && s@ == decode_utf8(bytes@),
            None => !valid_utf8(bytes@),
        },
{
    String::from_utf8(bytes).ok()
}

/// The bits of a run of bytes start with the bits of its first byte.
#[verifier::rlimit(50)]
pub proof fn lemma_bytes_bits_front(bytes: Seq<u8>, big: bool)
    requires
        bytes.len() > 0,
    ensures
        bytes_bits(bytes, big) == uint_bits(bytes[0] as nat, 8, big) + bytes_bits(
            bytes.skip(1),
            big,
        ),
    decreases bytes.len(),
{
    let front = bytes.drop_last();
    if bytes.len() == 1 {
        assert(bytes.skip(1) =~= Seq::<u8>::empty());
        assert(front =~= Seq::<u8>::empty());
        assert(bytes_bits(bytes, big) =~= uint_bits(bytes[0] as nat, 8, big) + bytes_bits(
            bytes.skip(1),
            big,
        ));
    } else {
        lemma_bytes_bits_front(front, big);
        assert(bytes.skip(1).drop_last() =~= front.skip(1));
        assert(bytes_bits(bytes, big) =~= uint_bits(bytes[0] as nat, 8, big) + bytes_bits(
            bytes.skip(1),
            big,
        ));
    }
}

/// Bytes without a zero among them are read back from their bits and the
/// closing zero byte, whatever follows.
#[verifier::rlimit(50)]
pub proof fn lemma_bytes_round_trip(bytes: Seq<u8>, big: bool, rest: Seq<bool>)
    requires
        forall|i: int| 0 <= i < bytes.len() ==> bytes[i] != 0,
    ensures
        bytes_until_zero(bytes_bits(bytes, big) + uint_bits(0, 8, big) + rest, big) == Ok::<
            (Seq<u8>, nat),
            DecodeError,
        >((bytes, 8 * bytes.len() + 8)),
    decreases bytes.len(),
{
    let bits = bytes_bits(bytes, big) + uint_bits(0, 8, big) + rest;
    assert(pow2(8) == 256) by {
        reveal_with_fuel(pow2, 9);
    }
    if bytes.len() == 0 {
        assert(bits.take(8) =~= uint_bits(0, 8, big));
        lemma_uint_round_trip(0, 8, big);
        assert(bytes =~= Seq::<u8>::empty());
    } else {
        let first = uint_bits(bytes[0] as nat, 8, big);
        let tail = bytes.skip(1);
        lemma_bytes_bits_front(bytes, big);
        assert(bits.take(8) =~= first);
        assert(bits.skip(8) =~= bytes_bits(tail, big) + uint_bits(0, 8, big) + rest);
        lemma_uint_round_trip(bytes[0] as nat, 8, big);
        lemma_bytes_round_trip(tail, big, rest);
        assert(uint_value(bits.take(8), big) == bytes[0]);
        assert(seq![bytes[0]] + tail =~= bytes);
        assert(bytes_until_zero(bits.skip(8), big) == Ok::<(Seq<u8>, nat), DecodeError>(
            (tail, 8 * tail.len() + 8),
        ));
    }
}

/// A name without a zero byte is read back from its bits, whatever follows
/// them.
pub proof fn lemma_name_round_trip(name: Seq<char>, big: bool, rest: Seq<bool>)
    requires
        name_encodable(name),
    ensures
        name_parse(name_bits(name, big) + rest, big) == Ok::<(Seq<char>, nat), DecodeError>(
            (name, name_bits(name, big).len()),
        ),
{
    broadcast use vstd::utf8::encode_utf8_valid_utf8, vstd::utf8::encode_utf8_decode_utf8;

    let bytes = encode_utf8(name);
    lemma_bytes_round_trip(bytes, big, rest);
    lemma_bytes_bits_len(bytes, big);
}

/// Every byte takes eight bits.
pub proof fn lemma_bytes_bits_len(bytes: Seq<u8>, big: bool)
    ensures
        bytes_bits(bytes, big).len() == 8 * bytes.len(),
    decreases bytes.len(),
{
    if bytes.len() > 0 {
        lemma_bytes_bits_len(bytes.drop_last(), big);
    }
}

impl HVMRef {
    /// Whether the name can be written: no byte of it is zero.
    pub fn is_encodable(&self) -> (ok: bool)
        ensures
            ok == name_encodable(self@),
    {
        let bytes = self.0.as_str().as_bytes();
        let mut i: usize = 0;
        while i < bytes.len()
            invariant
                i <= bytes.len(),
                bytes@ == encode_utf8(self@),
                forall|j: int| 0 <= j < i ==> bytes@[j] != 0,
            decreases bytes.len() - i,
        {
            if bytes[i] == 0 {
                return false;
            }
            i += 1;
        }
        true
    }
}

impl BitWrite for HVMRef {
    open spec fn encodable(&self) -> bool {
        name_encodable(self@)
    }

    open spec fn bits(&self, big: bool) -> Seq<bool> {
        name_bits(self@, big)
    }

    fn write(&self, stream: &mut BitWriter) {
        let bytes = self.0.as_str().as_bytes();
        let ghost start = stream@;
        let ghost big = stream.big();
        let mut i: usize = 0;
        while i < bytes.len()
            invariant
                i <= bytes.len(),
                stream.big() == big,
                stream@ == start + bytes_bits(bytes@.take(i as int), big),
            decreases bytes.len() - i,
        {
            stream.write_uint(bytes[i] as u64, 8);
            i += 1;
            proof {
                assert(bytes@.take(i as int).drop_last() =~= bytes@.take(i - 1));
                assert(stream@ =~= start + bytes_bits(bytes@.take(i as int), big));
            }
        }
        stream.write_uint(0, 8);
        proof {
            assert(bytes@.take(bytes.len() as int) =~= bytes@);
            assert(stream@ =~= start + name_bits(self@, big));
        }
    }
}

impl BitRead for HVMRef {
    open spec fn parse(bits: Seq<bool>, big: bool) -> Result<(Seq<char>, nat), DecodeError> {
        name_parse(bits, big)
    }

    fn read(stream: &mut BitReader) -> (result: Result<Self, DecodeError>) {
        let ghost orig = stream.remaining();
        let ghost big = stream.big();
        let mut bytes: Vec<u8> = Vec::new();
        loop
            invariant_except_break
                8 * bytes@.len() <= orig.len(),
                stream.remaining() == orig.skip(8 * bytes@.len() as int),
                bytes_until_zero(orig, big) == prepend_bytes(
                    bytes@,
                    bytes_until_zero(stream.remaining(), big),
                ),
            invariant
                stream.big() == big,
                big == old(stream).big(),
                orig == old(stream).remaining(),
            ensures
                8 * bytes@.len() + 8 <= orig.len(),
                stream.remaining() == orig.skip(8 * bytes@.len() as int + 8),
                bytes_until_zero(orig, big) == Ok::<(Seq<u8>, nat), DecodeError>(
                    (bytes@, (8 * bytes@.len() + 8) as nat),
                ),
            decreases stream.remaining().len(),
        {
            let ghost rest = stream.remaining();
            let ghost before = bytes@;
            match stream.read_uint(8) {
                Err(e) => {
                    return Err(e);
                },
                Ok(b) => {
                    proof {
                        lemma_uint_value_bound(rest.take(8), big);
                        reveal_with_fuel(pow2, 9);
                        assert(orig.skip(8 * before.len() as int).skip(8) =~= orig.skip(
                            8 * before.len() as int + 8,
                        ));
                    }
                    if b == 0 {
                        proof {
                            assert(before + Seq::<u8>::empty() =~= before);
                        }
                        break ;
                    }
                    bytes.push(b as u8);
                    proof {
                        assert(before + (seq![b as u8] + bytes_until_zero(
                            rest.skip(8),
                            big,
                        )->Ok_0.0) =~= bytes@ + bytes_until_zero(rest.skip(8), big)->Ok_0.0);
                    }
                },
            }
        }
        match string_from_utf8(bytes) {
            Some(name) => Ok(HVMRef(name)),
            None => Err(DecodeError::InvalidName),
        }
    }
}

/// A number written as a shifted Elias gamma code.
#[derive(Clone, Copy, PartialEq, Eq, Debug)]
pub struct VarLenNumber(pub u64);

impl View for VarLenNumber {
    type V = nat;

    open spec fn view(&self) -> nat {
        self.0 as nat
    }
}

/// The position of the highest set bit of `m`: its binary logarithm, rounded
/// down.
pub open spec fn log2(m: nat) -> nat
    decreases m,
{
    if m <= 1 {
        0
    } else {
        1 + log2(m / 2)
    }
}

/// The gamma code of `n`: as many zeros as `n + 1` has bits after its first,
/// then `n + 1` itself, most significant bit first.
pub open spec fn gamma_bits(n: nat) -> Seq<bool> {
    zeros(log2(n + 1)) + uint_bits(n + 1, log2(n + 1) + 1, true)
}

/// How many zero bits stand at the front of `bits`.
pub open spec fn leading_zeros(bits: Seq<bool>) -> nat
    decreases bits.len(),
{
    if bits.len() == 0 || bits[0] {
        0
    } else {
        1 + leading_zeros(bits.skip(1))
    }
}

/// The number whose gamma code stands at the front of `bits`.
pub open spec fn gamma_parse(bits: Seq<bool>) -> Result<(nat, nat), DecodeError> {
    let z = leading_zeros(bits);
    if z >= 64 {
        Err(DecodeError::NumberTooLarge)
    } else if bits.len() < 2 * z + 1 {
        Err(DecodeError::Truncated)
    } else {
        Ok(((uint_value(bits.subrange(z as int, 2 * z as int + 1), true) - 1) as nat, 2 * z + 1))
    }
}

/// A run of `z` zeros is a lower bound on the leading zeros, and exact where a
/// one follows or the bits end.
pub proof fn lemma_leading_zeros(bits: Seq<bool>, z: nat)
    requires
        z <= bits.len(),
        forall|i: int| 0 <= i < z ==> !bits[i],
    ensures
        leading_zeros(bits) >= z,
        (z == bits.len() || bits[z as int]) ==> leading_zeros(bits) == z,
    decreases z,
{
    if z > 0 {
        lemma_leading_zeros(bits.skip(1), (z - 1) as nat);
    }
}

/// A number below two to the `k + 1` has its highest set bit at `k` or below.
pub proof fn lemma_log2_bound(m: nat, k: nat)
    requires
        m < pow2(k + 1),
    ensures
        log2(m) <= k,
    decreases k,
{
    if m > 1 {
        if k == 0 {
            assert(pow2(1) == 2) by {
                reveal_with_fuel(pow2, 2);
            }
        } else {
            lemma_log2_bound(m / 2, (k - 1) as nat);
        }
    }
}

/// A positive number lies between two to its logarithm and twice that.
pub proof fn lemma_log2_range(m: nat)
    requires
        m >= 1,
    ensures
        pow2(log2(m)) <= m < pow2(log2(m) + 1),
    decreases m,
{
    reveal_with_fuel(pow2, 2);
    if m > 1 {
        lemma_log2_range(m / 2);
    }
}

/// The first bit of a number written in exactly as many bits as it has is
/// set.
pub proof fn lemma_top_bit(m: nat)
    requires
        m >= 1,
    ensures
        uint_bits(m, log2(m) + 1, true)[0],
{
    let b = log2(m);
    let p = pow2(b);
    lemma_log2_range(m);
    lemma_pow2_positive(b);
    assert(pow2(b + 1) == 2 * p);
    assert(m as int / p as int == 1) by (nonlinear_arith)
        requires
            p <= m < 2 * p,
            p > 0,
    ;
}

/// The gamma code of `n` takes `2 * log2(n + 1) + 1` bits, and a number
/// below two to the 64 less one is read back from its code, whatever
/// follows it, with exactly the bits of the code taken.
pub proof fn lemma_gamma_round_trip(n: nat, rest: Seq<bool>)
    requires
        n + 1 < pow2(64),
    ensures
        gamma_bits(n).len() == 2 * log2(n + 1) + 1,
        gamma_parse(gamma_bits(n) + rest) == Ok::<(nat, nat), DecodeError>(
            (n, gamma_bits(n).len()),
        ),
{
    let m = n + 1;
    let b = log2(m);
    let code = uint_bits(m, b + 1, true);
    let bits = gamma_bits(n) + rest;
    lemma_log2_bound(m, 63);
    lemma_log2_range(m);
    lemma_top_bit(m);
    assert(bits[b as int] == code[0]);
    lemma_leading_zeros(bits, b);
    assert(bits.subrange(b as int, 2 * b as int + 1) =~= code);
    lemma_uint_round_trip(m, b + 1, true);
}

impl BitWrite for VarLenNumber {
    open spec fn encodable(&self) -> bool {
        self.0 < u64::MAX
    }

    open spec fn bits(&self, big: bool) -> Seq<bool> {
        gamma_bits(self@)
    }

    fn write(&self, stream: &mut BitWriter) {
        let m: u64 = self.0 + 1;
        let ghost start = stream@;
        let mut width: usize = 0;
        let mut top: u64 = m;
        let mut weight: u64 = 1;
        proof {
            lemma_pow2_64();
            lemma_log2_bound(m as nat, 63);
            assert(pow2(0) == 1);
        }
        while top > 1
            invariant
                top >= 1,
                top as nat == m as nat / pow2(width as nat),
                weight as nat == pow2(width as nat),
                width + log2(top as nat) == log2(m as nat),
                log2(m as nat) <= 63,
            decreases top,
        {
            proof {
                lemma_pow2_positive(width as nat);
                vstd::arithmetic::div_mod::lemma_div_denominator(
                    m as int,
                    pow2(width as nat) as int,
                    2,
                );
                vstd::arithmetic::div_mod::lemma_fundamental_div_mod(m as int, weight as int);
                assert(weight * 2 <= weight * top) by (nonlinear_arith)
                    requires
                        top >= 2,
                        weight >= 0,
                ;
            }
            top = top / 2;
            width += 1;
            weight = weight * 2;
        }
        let mut i: usize = 0;
        while i < width
            invariant
                i <= width,
                stream.big() == old(stream).big(),
                stream@ == start + zeros(i as nat),
            decreases width - i,
        {
            stream.write_bool(false);
            i += 1;
            assert(stream@ =~= start + zeros(i as nat));
        }
        let ghost code = uint_bits(m as nat, (width + 1) as nat, true);
        let mut j: usize = 0;
        while j <= width
            invariant
                j <= width + 1,
                width <= 63,
                j <= width ==> weight as nat == pow2((width - j) as nat),
                stream.big() == old(stream).big(),
                code == uint_bits(m as nat, (width + 1) as nat, true),
                stream@ == start + zeros(width as nat) + code.take(j as int),
            decreases width + 1 - j,
        {
            proof {
                lemma_pow2_positive((width - j) as nat);
            }
            stream.write_bool((m / weight) % 2 == 1);
            j += 1;
            if j <= width {
                weight = weight / 2;
            }
            assert(stream@ =~= start + zeros(width as nat) + code.take(j as int));
        }
        proof {
            assert(code.take(width + 1) =~= code);
            assert(stream@ =~= start + gamma_bits(self@));
        }
    }
}

impl BitRead for VarLenNumber {
    open spec fn parse(bits: Seq<bool>, big: bool) -> Result<(nat, nat), DecodeError> {
        gamma_parse(bits)
    }

    fn read(stream: &mut BitReader) -> (result: Result<Self, DecodeError>) {
        let ghost orig = stream.remaining();
        let mut z: usize = 0;
        loop
            invariant_except_break
                z <= orig.len(),
                stream.remaining() == orig.skip(z as int),
                forall|i: int| 0 <= i < z ==> !orig[i],
            invariant
                z < 64,
                stream.big() == old(stream).big(),
                orig == old(stream).remaining(),
            ensures
                z + 1 <= orig.len(),
                z < orig.len() && orig[z as int],
                leading_zeros(orig) == z,
                stream.remaining() == orig.skip(z + 1),
            decreases 64 - z,
        {
            match stream.read_bool() {
                Err(e) => {
                    proof {
                        lemma_leading_zeros(orig, z as nat);
                    }
                    return Err(e);
                },
                Ok(b) => {
                    proof {
                        assert(orig.skip(z as int).skip(1) =~= orig.skip(z + 1));
                    }
                    if b {
                        proof {
                            lemma_leading_zeros(orig, z as nat);
                        }
                        break ;
                    }
                    z += 1;
                    if z >= 64 {
                        proof {
                            lemma_leading_zeros(orig, z as nat);
                        }
                        return Err(DecodeError::NumberTooLarge);
                    }
                },
            }
        }
        let mut acc: u64 = 1;
        let mut j: usize = 0;
        proof {
            lemma_pow2_64();
            assert(orig.subrange(z as int, z + 1) =~= seq![true]);
            assert(seq![true].drop_last() =~= Seq::<bool>::empty());
            reveal_with_fuel(uint_value, 2);
        }
        while j < z
            invariant
                j <= z < 64,
                orig == old(stream).remaining(),
                leading_zeros(orig) == z,
                z + 1 + j <= orig.len(),
                stream.big() == old(stream).big(),
                stream.remaining() == orig.skip(z + 1 + j),
                acc == uint_value(orig.subrange(z as int, z + 1 + j), true),
                acc >= 1,
                pow2(64) == 0x1_0000_0000_0000_0000,
            decreases z - j,
        {
            match stream.read_bool() {
                Err(e) => {
                    return Err(e);
                },
                Ok(b) => {
                    proof {
                        let prefix = orig.subrange(z as int, z + 2 + j);
                        assert(prefix.drop_last() =~= orig.subrange(z as int, z + 1 + j));
                        assert(prefix.last() == b);
                        lemma_uint_value_bound(prefix, true);
                        lemma_pow2_monotonic((j + 2) as nat, 64);
                        assert(orig.skip(z + 1 + j).skip(1) =~= orig.skip(z + 2 + j));
                    }
                    acc = 2 * acc + if b {
                        1
                    } else {
                        0
                    };
                    j += 1;
                },
            }
        }
        Ok(VarLenNumber(acc - 1))
    }
}

/// The kind of a node, with the payload that follows its three-bit code.
#[derive(Clone, PartialEq, Eq, Debug)]
#[allow(clippy::upper_case_acronyms)]
pub enum Tag {
    /// A reference, followed by its name.
    REF(HVMRef),
    /// A variable; which one is told by the wiring, not here.
    VAR,
    /// A number, followed by its gamma code.
    NUM(VarLenNumber),
    /// An operator node, followed by its two children.
    OPS,
    /// A switch node, followed by its two children.
    MAT,
    /// An eraser.
    ERA,
    /// A constructor, followed by its two children.
    CON,
    /// A duplicator, followed by its two children.
    DUP,
}

/// What a tag is in contracts.
pub enum TagView {
    REF(Seq<char>),
    VAR,
    NUM(nat),
    OPS,
    MAT,
    ERA,
    CON,
    DUP,
}

impl View for Tag {
    type V = TagView;

    open spec fn view(&self) -> TagView {
        match self {
            Tag::REF(name) => TagView::REF(name@),
            Tag::VAR => TagView::VAR,
            Tag::NUM(n) => TagView::NUM(n@),
            Tag::OPS => TagView::OPS,
            Tag::MAT => TagView::MAT,
            Tag::ERA => TagView::ERA,
            Tag::CON => TagView::CON,
            Tag::DUP => TagView::DUP,
        }
    }
}

/// The three-bit code of each kind of node.
pub open spec fn tag_code(tag: TagView) -> nat {
    match tag {
        TagView::ERA => 0,
        TagView::REF(_) => 1,
        TagView::VAR => 2,
        TagView::NUM(_) => 3,
        TagView::OPS => 4,
        TagView::MAT => 5,
        TagView::CON => 6,
        TagView::DUP => 7,
    }
}

/// The bits of a tag: its code as a three-bit integer, then its payload.
pub open spec fn tag_bits(tag: TagView, big: bool) -> Seq<bool> {
    uint_bits(tag_code(tag), 3, big) + match tag {
        TagView::REF(name) => name_bits(name, big),
        TagView::NUM(n) => gamma_bits(n),
        _ => Seq::empty(),
    }
}

/// Whether the payload of a tag can be written.
pub open spec fn tag_encodable(tag: TagView) -> bool {
    match tag {
        TagView::REF(name) => name_encodable(name),
        TagView::NUM(n) => n < u64::MAX,
        _ => true,
    }
}

/// The tag at the front of `bits`.
#[verifier::opaque]
pub open spec fn tag_parse(bits: Seq<bool>, big: bool) -> Result<(TagView, nat), DecodeError> {
    if bits.len() < 3 {
        Err(DecodeError::Truncated)
    } else {
        let code = uint_value(bits.take(3), big);
        if code == 0 {
            Ok((TagView::ERA, 3nat))
        } else if code == 1 {
            match name_parse(bits.skip(3), big) {
                Ok((name, taken)) => Ok((TagView::REF(name), 3 + taken)),
                Err(e) => Err(e),
            }
        } else if code == 2 {
            Ok((TagView::VAR, 3nat))
        } else if code == 3 {
            match gamma_parse(bits.skip(3)) {
                Ok((n, taken)) => Ok((TagView::NUM(n), 3 + taken)),
                Err(e) => Err(e),
            }
        } else if code == 4 {
            Ok((TagView::OPS, 3nat))
        } else if code == 5 {
            Ok((TagView::MAT, 3nat))
        } else if code == 6 {
            Ok((TagView::CON, 3nat))
        } else {
            Ok((TagView::DUP, 3nat))
        }
    }
}

/// The tag of the node at the root of a tree.
pub open spec fn tag_of(tree: TreeView) -> TagView {
    match tree {
        TreeView::Era => TagView::ERA,
        TreeView::Var(_) => TagView::VAR,
        TreeView::Ref(name) => TagView::REF(name),
        TreeView::Num(n) => TagView::NUM(n),
        TreeView::Bin(Kind::Con, _, _) => TagView::CON,
        TreeView::Bin(Kind::Dup, _, _) => TagView::DUP,
        TreeView::Bin(Kind::Opr, _, _) => TagView::OPS,
        TreeView::Bin(Kind::Swi, _, _) => TagView::MAT,
    }
}

/// The code of a tag is read back from the three bits that open it.
pub proof fn lemma_tag_code_round_trip(tag: TagView, big: bool, rest: Seq<bool>)
    ensures
        (tag_bits(tag, big) + rest).len() >= 3,
        uint_value((tag_bits(tag, big) + rest).take(3), big) == tag_code(tag),
        (tag_bits(tag, big) + rest).skip(3) =~= match tag {
            TagView::REF(name) => name_bits(name, big),
            TagView::NUM(n) => gamma_bits(n),
            _ => Seq::empty(),
        } + rest,
{
    assert(pow2(3) == 8) by {
        reveal_with_fuel(pow2, 4);
    }
    lemma_uint_round_trip(tag_code(tag), 3, big);
    assert((tag_bits(tag, big) + rest).take(3) =~= uint_bits(tag_code(tag), 3, big));
}

/// A tag whose payload can be written is read back from its bits, whatever
/// follows them.
#[verifier::rlimit(50)]
pub proof fn lemma_tag_round_trip(tag: TagView, big: bool, rest: Seq<bool>)
    requires
        tag_encodable(tag),
    ensures
        tag_parse(tag_bits(tag, big) + rest, big) == Ok::<(TagView, nat), DecodeError>(
            (tag, tag_bits(tag, big).len()),
        ),
        tag_bits(tag, big).len() >= 3,
        (tag is REF || tag is NUM) || tag_bits(tag, big).len() == 3,
{
    reveal(tag_parse);
    let bits = tag_bits(tag, big) + rest;
    lemma_tag_code_round_trip(tag, big, rest);
    match tag {
        TagView::REF(name) => {
            lemma_name_round_trip(name, big, rest);
            assert(bits.skip(3) == name_bits(name, big) + rest);
        },
        TagView::NUM(n) => {
            lemma_pow2_64();
            lemma_gamma_round_trip(n, rest);
            assert(bits.skip(3) == gamma_bits(n) + rest);
        },
        _ => {},
    }
}

impl Tag {
    /// The tag of the node at the root of `tree`.
    pub fn from(tree: &Tree) -> (tag: Tag)
        ensures
            tag@ == tag_of(tree@),
    {
        match tree {
            Tree::Era => Tag::ERA,
            Tree::Con { .. } => Tag::CON,
            Tree::Dup { .. } => Tag::DUP,
            Tree::Var { .. } => Tag::VAR,
            Tree::Ref { nam } => Tag::REF(HVMRef(nam.clone())),
            Tree::Num { val } => Tag::NUM(VarLenNumber(*val as u64)),
            Tree::Opr { .. } => Tag::OPS,
            Tree::Swi { .. } => Tag::MAT,
        }
    }

    fn code(&self) -> (code: u64)
        ensures
            code == tag_code(self@),
    {
        match self {
            Tag::ERA => 0,
            Tag::REF(_) => 1,
            Tag::VAR => 2,
            Tag::NUM(_) => 3,
            Tag::OPS => 4,
            Tag::MAT => 5,
            Tag::CON => 6,
            Tag::DUP => 7,
        }
    }
}

impl BitWrite for Tag {
    open spec fn encodable(&self) -> bool {
        tag_encodable(self@)
    }

    open spec fn bits(&self, big: bool) -> Seq<bool> {
        tag_bits(self@, big)
    }

    fn write(&self, stream: &mut BitWriter) {
        let ghost start = stream@;
        let ghost big = stream.big();
        stream.write_uint(self.code(), 3);
        match self {
            Tag::REF(name) => {
                name.write(stream);
                assert(stream@ =~= start + tag_bits(self@, big));
            },
            Tag::NUM(n) => {
                n.write(stream);
                assert(stream@ =~= start + tag_bits(self@, big));
            },
            _ => {
                assert(stream@ =~= start + tag_bits(self@, big));
            },
        }
    }
}

impl BitRead for Tag {
    open spec fn parse(bits: Seq<bool>, big: bool) -> Result<(TagView, nat), DecodeError> {
        tag_parse(bits, big)
    }

    fn read(stream: &mut BitReader) -> (result: Result<Self, DecodeError>) {
        reveal(tag_parse);
        let ghost orig = stream.remaining();
        let code = match stream.read_uint(3) {
            Ok(code) => code,
            Err(e) => {
                return Err(e);
            },
        };
        if code == 0 {
            Ok(Tag::ERA)
        } else if code == 1 {
            match HVMRef::read(stream) {
                Ok(name) => {
                    proof {
                        let taken = name_parse(orig.skip(3), old(stream).big())->Ok_0.1;
                        assert(orig.skip(3).skip(taken as int) =~= orig.skip(3 + taken as int));
                    }
                    Ok(Tag::REF(name))
                },
                Err(e) => Err(e),
            }
        } else if code == 2 {
            Ok(Tag::VAR)
        } else if code == 3 {
            match VarLenNumber::read(stream) {
                Ok(n) => {
                    proof {
                        let taken = gamma_parse(orig.skip(3))->Ok_0.1;
                        assert(orig.skip(3).skip(taken as int) =~= orig.skip(3 + taken as int));
                    }
                    Ok(Tag::NUM(n))
                },
                Err(e) => Err(e),
            }
        } else if code == 4 {
            Ok(Tag::OPS)
        } else if code == 5 {
            Ok(Tag::MAT)
        } else if code == 6 {
            Ok(Tag::CON)
        } else {
            Ok(Tag::DUP)
        }
    }
}

/// The 64 bits of a signed number in two's complement.
pub open spec fn signed_bits(n: i64) -> u64 {
    if n >= 0 {
        n as u64
    } else {
        (n + 0x1_0000_0000_0000_0000) as u64
    }
}

/// The signed number that 64 bits are in two's complement.
pub open spec fn bits_signed(n: u64) -> i64 {
    if n < 0x8000_0000_0000_0000 {
        n as i64
    } else {
        (n - 0x1_0000_0000_0000_0000) as i64
    }
}

/// A reference by its name.
impl From<String> for HVMRef {
    fn from(n: String) -> (ret: HVMRef) {
        HVMRef(n)
    }
}

impl FromSpecImpl<String> for HVMRef {
    open spec fn obeys_from_spec() -> bool {
        true
    }

    open spec fn from_spec(n: String) -> HVMRef {
        HVMRef(n)
    }
}

/// The name of a reference.
impl From<HVMRef> for String {
    fn from(n: HVMRef) -> (ret: String) {
        n.0
    }
}

impl FromSpecImpl<HVMRef> for String {
    open spec fn obeys_from_spec() -> bool {
        true
    }

    open spec fn from_spec(n: HVMRef) -> String {
        n.0
    }
}

/// The number itself.
impl From<u64> for VarLenNumber {
    fn from(n: u64) -> (ret: VarLenNumber) {
        VarLenNumber(n)
    }
}

impl FromSpecImpl<u64> for VarLenNumber {
    open spec fn obeys_from_spec() -> bool {
        true
    }

    open spec fn from_spec(n: u64) -> VarLenNumber {
        VarLenNumber(n)
    }
}

/// The number, widened.
impl From<u32> for VarLenNumber {
    fn from(n: u32) -> (ret: VarLenNumber) {
        VarLenNumber(n as u64)
    }
}

impl FromSpecImpl<u32> for VarLenNumber {
    open spec fn obeys_from_spec() -> bool {
        true
    }

    open spec fn from_spec(n: u32) -> VarLenNumber {
        VarLenNumber(n as u64)
    }
}

/// The number, widened.
impl From<u16> for VarLenNumber {
    fn from(n: u16) -> (ret: VarLenNumber) {
        VarLenNumber(n as u64)
    }
}

impl FromSpecImpl<u16> for VarLenNumber {
    open spec fn obeys_from_spec() -> bool {
        true
    }

    open spec fn from_spec(n: u16) -> VarLenNumber {
        VarLenNumber(n as u64)
    }
}

/// The number in two's complement.
impl From<i64> for VarLenNumber {
    fn from(n: i64) -> (ret: VarLenNumber) {
        if n >= 0 {
            VarLenNumber(n as u64)
        } else {
            VarLenNumber(((n - i64::MIN) as u64) + 0x8000_0000_0000_0000)
        }
    }
}

impl FromSpecImpl<i64> for VarLenNumber {
    open spec fn obeys_from_spec() -> bool {
        true
    }

    open spec fn from_spec(n: i64) -> VarLenNumber {
        VarLenNumber(signed_bits(n))
    }
}

/// The number itself.
impl From<VarLenNumber> for u64 {
    fn from(n: VarLenNumber) -> (ret: u64) {
        n.0
    }
}

impl FromSpecImpl<VarLenNumber> for u64 {
    open spec fn obeys_from_spec() -> bool {
        true
    }

    open spec fn from_spec(n: VarLenNumber) -> u64 {
        n.0
    }
}

/// The low 32 bits of the number.
impl From<VarLenNumber> for u32 {
    fn from(n: VarLenNumber) -> (ret: u32) {
        (n.0 % 0x1_0000_0000) as u32
    }
}

impl FromSpecImpl<VarLenNumber> for u32 {
    open spec fn obeys_from_spec() -> bool {
        true
    }

    open spec fn from_spec(n: VarLenNumber) -> u32 {
        (n.0 % 0x1_0000_0000) as u32
    }
}

/// The low 16 bits of the number.
impl From<VarLenNumber> for u16 {
    fn from(n: VarLenNumber) -> (ret: u16) {
        (n.0 % 0x1_0000) as u16
    }
}

impl FromSpecImpl<VarLenNumber> for u16 {
    open spec fn obeys_from_spec() -> bool {
        true
    }

    open spec fn from_spec(n: VarLenNumber) -> u16 {
        (n.0 % 0x1_0000) as u16
    }
}

/// The low 8 bits of the number.
impl From<VarLenNumber> for u8 {
    fn from(n: VarLenNumber) -> (ret: u8) {
        (n.0 % 0x100) as u8
    }
}

impl FromSpecImpl<VarLenNumber> for u8 {
    open spec fn obeys_from_spec() -> bool {
        true
    }

    open spec fn from_spec(n: VarLenNumber) -> u8 {
        (n.0 % 0x100) as u8
    }
}

/// The number read as two's complement.
impl From<VarLenNumber> for i64 {
    fn from(n: VarLenNumber) -> (ret: i64) {
        if n.0 < 0x8000_0000_0000_0000 {
            n.0 as i64
        } else {
            ((n.0 - 0x8000_0000_0000_0000) as i64) + i64::MIN
        }
    }
}

impl FromSpecImpl<VarLenNumber> for i64 {
    open spec fn obeys_from_spec() -> bool {
        true
    }

    open spec fn from_spec(n: VarLenNumber) -> i64 {
        bits_signed(n.0)
    }
}

} // verus!
