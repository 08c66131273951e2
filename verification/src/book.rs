//! Books: definitions by name, in the order of their names.

use crate::net::{
    lemma_net_round_trip, net_bits, net_encodable, net_parse, normalized, Net, NetView,
};
use crate::scalars::{
    bytes_bits, gamma_bits, gamma_parse, lemma_bytes_bits_front, lemma_bytes_bits_len,
    lemma_gamma_round_trip, prepend_bytes, string_from_utf8, VarLenNumber,
};
use crate::stream::{
    lemma_pow2_64, lemma_uint_round_trip, lemma_uint_value_bound, pow2, uint_bits, uint_value,
    BitReader, BitWriter, DecodeError,
};
use crate::{BitRead, BitWrite};
use vstd::prelude::*;
use vstd::utf8::{decode_utf8, encode_utf8, valid_utf8};

verus! {

/// A book of definitions: nets by name, the names in strictly rising order.
#[derive(Clone, PartialEq, Eq, Debug)]
pub struct Book {
    /// The definitions, ordered by name.
    pub defs: Vec<(String, Net)>,
}

impl View for Book {
    type V = Seq<(Seq<char>, NetView)>;

    open spec fn view(&self) -> Seq<(Seq<char>, NetView)> {
        self.defs@.map_values(|def: (String, Net)| (def.0@, def.1@))
    }
}

/// Whether `a` comes before `b` in the order of byte strings: at the first
/// place where they differ `a` has the smaller byte, or `a` ends there and
/// `b` goes on.
pub open spec fn bytes_less(a: Seq<u8>, b: Seq<u8>) -> bool
    decreases a.len(),
{
    if b.len() == 0 {
        false
    } else if a.len() == 0 {
        true
    } else if a[0] != b[0] {
        a[0] < b[0]
    } else {
        bytes_less(a.skip(1), b.skip(1))
    }
}

/// Whether name `a` comes before name `b`: the order of their UTF-8 bytes.
pub open spec fn name_less(a: Seq<char>, b: Seq<char>) -> bool {
    bytes_less(encode_utf8(a), encode_utf8(b))
}

/// The bits of a name in a book: the number of its UTF-8 bytes as a gamma
/// code, then the bytes.
pub open spec fn key_bits(key: Seq<char>, big: bool) -> Seq<bool> {
    gamma_bits(encode_utf8(key).len()) + bytes_bits(encode_utf8(key), big)
}

/// The bits of the definitions: name and net of each, in order.
pub open spec fn defs_bits(defs: Seq<(Seq<char>, NetView)>, big: bool) -> Seq<bool>
    decreases defs.len(),
{
    if defs.len() == 0 {
        Seq::empty()
    } else {
        defs_bits(defs.drop_last(), big) + key_bits(defs.last().0, big) + net_bits(
            defs.last().1,
            big,
        )
    }
}

/// The bits of a book: the number of its definitions as a gamma code, then
/// the definitions.
pub open spec fn book_bits(defs: Seq<(Seq<char>, NetView)>, big: bool) -> Seq<bool> {
    gamma_bits(defs.len()) + defs_bits(defs, big)
}

/// The next `count` bytes at the front of `bits`.
pub open spec fn bytes_parse(bits: Seq<bool>, count: nat, big: bool) -> Result<
    (Seq<u8>, nat),
    DecodeError,
>
    decreases count,
{
    if count == 0 {
        Ok((Seq::empty(), 0nat))
    } else if bits.len() < 8 {
        Err(DecodeError::Truncated)
    } else {
        prepend_bytes(
            seq![uint_value(bits.take(8), big) as u8],
            bytes_parse(bits.skip(8), (count - 1) as nat, big),
        )
    }
}

/// The name at the front of `bits`.
pub open spec fn key_parse(bits: Seq<bool>, big: bool) -> Result<(Seq<char>, nat), DecodeError> {
    match gamma_parse(bits) {
        Err(e) => Err(e),
        Ok((len, a)) => match bytes_parse(bits.skip(a as int), len, big) {
            Err(e) => Err(e),
            Ok((bytes, b)) => if valid_utf8(bytes) {
                Ok((decode_utf8(bytes), a + b))
            } else {
                Err(DecodeError::InvalidName)
            },
        },
    }
}

/// `parsed` after `done` has been read in `taken` bits before it.
pub open spec fn join_defs(
    done: Seq<(Seq<char>, NetView)>,
    taken: nat,
    parsed: Result<(Seq<(Seq<char>, NetView)>, nat), DecodeError>,
) -> Result<(Seq<(Seq<char>, NetView)>, nat), DecodeError> {
    match parsed {
        Ok((more, n)) => Ok((done + more, taken + n)),
        Err(e) => Err(e),
    }
}

/// The next `count` definitions at the front of `bits`, where `last` is the
/// name before them, if there is one: every name must come after the one
/// before it.
#[verifier::opaque]
pub open spec fn defs_parse(bits: Seq<bool>, count: nat, last: Option<Seq<char>>, big: bool) -> Result<
    (Seq<(Seq<char>, NetView)>, nat),
    DecodeError,
>
    decreases count,
{
    if count == 0 {
        Ok((Seq::empty(), 0nat))
    } else {
        match key_parse(bits, big) {
            Err(e) => Err(e),
            Ok((key, a)) => if last is Some && !name_less(last->Some_0, key) {
                Err(DecodeError::KeyDisorder)
            } else {
                match net_parse(bits.skip(a as int), big) {
                    Err(e) => Err(e),
                    Ok((net, b)) => join_defs(
                        seq![(key, net)],
                        a + b,
                        defs_parse(
                            bits.skip(a as int + b as int),
                            (count - 1) as nat,
                            Some(key),
                            big,
                        ),
                    ),
                }
            },
        }
    }
}

/// The book at the front of `bits`.
pub open spec fn book_parse(bits: Seq<bool>, big: bool) -> Result<
    (Seq<(Seq<char>, NetView)>, nat),
    DecodeError,
> {
    match gamma_parse(bits) {
        Err(e) => Err(e),
        Ok((count, a)) => join_defs(
            Seq::empty(),
            a,
            defs_parse(bits.skip(a as int), count, None, big),
        ),
    }
}

/// Whether the names of a book rise strictly from one definition to the
/// next.
pub open spec fn keys_rising(defs: Seq<(Seq<char>, NetView)>) -> bool {
    forall|i: int| 0 < i < defs.len() ==> name_less(defs[i - 1].0, (#[trigger] defs[i]).0)
}

/// Whether byte string `a` comes before byte string `b`.
fn key_less(a: &[u8], b: &[u8]) -> (less: bool)
    ensures
        less == bytes_less(a@, b@),
{
    let mut i: usize = 0;
    assert(a@.skip(0) =~= a@);
    assert(b@.skip(0) =~= b@);
    while i < a.len() && i < b.len() && a[i] == b[i]
        invariant
            i <= a.len(),
            i <= b.len(),
            bytes_less(a@, b@) == bytes_less(a@.skip(i as int), b@.skip(i as int)),
        decreases a.len() - i,
    {
        assert(a@.skip(i as int).skip(1) =~= a@.skip(i + 1));
        assert(b@.skip(i as int).skip(1) =~= b@.skip(i + 1));
        i += 1;
    }
    if i >= b.len() {
        false
    } else if i >= a.len() {
        true
    } else {
        a[i] < b[i]
    }
}

impl Book {
    /// Whether the book can be written: its names rise strictly, and every
    /// net in it can be written.
    pub fn is_encodable(&self) -> (ok: bool)
        ensures
            ok == self.encodable(),
    {
        if self.defs.len() as u64 == u64::MAX {
            return false;
        }
        let mut i: usize = 0;
        while i < self.defs.len()
            invariant
                i <= self.defs.len(),
                forall|k: int| 0 < k < i ==> name_less(self@[k - 1].0, (#[trigger] self@[k]).0),
                forall|k: int|
                    0 <= k < i ==> net_encodable((#[trigger] self@[k]).1) && encode_utf8(
                        self@[k].0,
                    ).len() < u64::MAX,
            decreases self.defs.len() - i,
        {
            let key = self.defs[i].0.as_str().as_bytes();
            assert(key@ == encode_utf8(self@[i as int].0));
            if key.len() as u64 == u64::MAX {
                return false;
            }
            if i > 0 {
                let before = self.defs[i - 1].0.as_str().as_bytes();
                assert(before@ == encode_utf8(self@[i - 1].0));
                if !key_less(before, key) {
                    return false;
                }
            }
            if !self.defs[i].1.is_encodable() {
                return false;
            }
            i += 1;
        }
        true
    }
}

impl BitWrite for Book {
    open spec fn encodable(&self) -> bool {
        defs_encodable(self@)
    }

    open spec fn bits(&self, big: bool) -> Seq<bool> {
        book_bits(self@, big)
    }

    fn write(&self, stream: &mut BitWriter) {
        let ghost start = stream@;
        let ghost big = stream.big();
        VarLenNumber(self.defs.len() as u64).write(stream);
        let ghost head = stream@;
        let mut i: usize = 0;
        while i < self.defs.len()
            invariant
                i <= self.defs.len(),
                self.encodable(),
                stream.big() == big,
                stream@ == head + defs_bits(self@.take(i as int), big),
            decreases self.defs.len() - i,
        {
            let key = self.defs[i].0.as_str().as_bytes();
            assert(key@ == encode_utf8(self@[i as int].0));
            VarLenNumber(key.len() as u64).write(stream);
            let ghost named = stream@;
            let mut j: usize = 0;
            while j < key.len()
                invariant
                    j <= key.len(),
                    stream.big() == big,
                    stream@ == named + bytes_bits(key@.take(j as int), big),
                decreases key.len() - j,
            {
                stream.write_uint(key[j] as u64, 8);
                j += 1;
                proof {
                    assert(key@.take(j as int).drop_last() =~= key@.take(j - 1));
                    assert(stream@ =~= named + bytes_bits(key@.take(j as int), big));
                }
            }
            assert(key@.take(key.len() as int) =~= key@);
            assert(net_encodable(self@[i as int].1));
            self.defs[i].1.write(stream);
            i += 1;
            proof {
                assert(self@.take(i as int).drop_last() =~= self@.take(i - 1));
                assert(stream@ =~= head + defs_bits(self@.take(i as int), big));
            }
        }
        assert(self@.take(self.defs.len() as int) =~= self@);
        assert(stream@ =~= start + book_bits(self@, big));
    }
}

/// Reads `count` bytes of eight bits each.
fn read_bytes(stream: &mut BitReader, count: u64) -> (result: Result<Vec<u8>, DecodeError>)
    ensures
        final(stream).big() == old(stream).big(),
        match (result, bytes_parse(old(stream).remaining(), count as nat, old(stream).big())) {
            (Ok(bytes), Ok((model, taken))) => bytes@ == model && taken <= old(
                stream,
            ).remaining().len() && final(stream).remaining() == old(stream).remaining().skip(
                taken as int,
            ),
            (Err(e), Err(expected)) => e == expected,
            _ => false,
        },
{
    let ghost orig = stream.remaining();
    let ghost big = stream.big();
    let mut bytes: Vec<u8> = Vec::new();
    let mut i: u64 = 0;
    assert(orig.skip(0) =~= orig);
    assert(Seq::<u8>::empty() + Seq::<u8>::empty() =~= Seq::<u8>::empty());
    while i < count
        invariant
            i <= count,
            bytes@.len() == i,
            stream.big() == big,
            big == old(stream).big(),
            orig == old(stream).remaining(),
            8 * i <= orig.len(),
            stream.remaining() == orig.skip(8 * i as int),
            bytes_parse(orig, count as nat, big) == prepend_bytes(
                bytes@,
                bytes_parse(stream.remaining(), (count - i) as nat, big),
            ),
        decreases count - i,
    {
        let ghost rest = stream.remaining();
        let ghost done = bytes@;
        let b = match stream.read_uint(8) {
            Ok(b) => b,
            Err(e) => {
                return Err(e);
            },
        };
        proof {
            lemma_uint_value_bound(rest.take(8), big);
            assert(pow2(8) == 256) by {
                reveal_with_fuel(pow2, 9);
            }
            assert(orig.skip(8 * i as int).skip(8) =~= orig.skip(8 * (i + 1) as int));
        }
        bytes.push(b as u8);
        i += 1;
        proof {
            let next = bytes_parse(stream.remaining(), (count - i) as nat, big);
            if let Ok((more, n)) = next {
                assert(done + (seq![b as u8] + more) =~= bytes@ + more);
            }
        }
    }
    assert(bytes@ + Seq::<u8>::empty() =~= bytes@);
    Ok(bytes)
}

/// Reads one name: the number of its bytes, then the bytes.
fn read_key(stream: &mut BitReader) -> (result: Result<String, DecodeError>)
    ensures
        final(stream).big() == old(stream).big(),
        match (result, key_parse(old(stream).remaining(), old(stream).big())) {
            (Ok(key), Ok((model, taken))) => key@ == model && taken <= old(
                stream,
            ).remaining().len() && final(stream).remaining() == old(stream).remaining().skip(
                taken as int,
            ),
            (Err(e), Err(expected)) => e == expected,
            _ => false,
        },
{
    let ghost orig = stream.remaining();
    let len = match VarLenNumber::read(stream) {
        Ok(len) => len.0,
        Err(e) => {
            return Err(e);
        },
    };
    let ghost a = gamma_parse(orig)->Ok_0.1;
    let bytes = match read_bytes(stream, len) {
        Ok(bytes) => bytes,
        Err(e) => {
            return Err(e);
        },
    };
    let ghost b = bytes_parse(orig.skip(a as int), len as nat, old(stream).big())->Ok_0.1;
    assert(orig.skip(a as int).skip(b as int) =~= orig.skip(a as int + b as int));
    match string_from_utf8(bytes) {
        Some(key) => Ok(key),
        None => Err(DecodeError::InvalidName),
    }
}

impl BitRead for Book {
    open spec fn parse(bits: Seq<bool>, big: bool) -> Result<
        (Seq<(Seq<char>, NetView)>, nat),
        DecodeError,
    > {
        book_parse(bits, big)
    }

    #[verifier::rlimit(100)]
    fn read(stream: &mut BitReader) -> (result: Result<Self, DecodeError>) {
        let ghost orig = stream.remaining();
        let ghost big = stream.big();
        let count = match VarLenNumber::read(stream) {
            Ok(count) => count.0,
            Err(e) => {
                return Err(e);
            },
        };
        let ghost head = gamma_parse(orig)->Ok_0.1;
        let ghost body = stream.remaining();
        let mut defs: Vec<(String, Net)> = Vec::new();
        let ghost mut taken: nat = 0;
        let mut i: u64 = 0;
        proof {
            assert(body.skip(0) =~= body);
            let done = defs@.map_values(|def: (String, Net)| (def.0@, def.1@));
            let next = defs_parse(body, count as nat, None, big);
            if let Ok((more, n)) = next {
                assert(done + more =~= more);
            }
        }
        while i < count
            invariant
                i <= count,
                defs@.len() == i,
                stream.big() == big,
                big == old(stream).big(),
                orig == old(stream).remaining(),
                gamma_parse(orig) == Ok::<(nat, nat), DecodeError>((count as nat, head)),
                head <= orig.len(),
                body == orig.skip(head as int),
                taken <= body.len(),
                stream.remaining() == body.skip(taken as int),
                defs_parse(body, count as nat, None, big) == join_defs(
                    defs@.map_values(|def: (String, Net)| (def.0@, def.1@)),
                    taken,
                    defs_parse(
                        stream.remaining(),
                        (count - i) as nat,
                        if i == 0 {
                            None
                        } else {
                            Some(defs@[i - 1].0@)
                        },
                        big,
                    ),
                ),
            decreases count - i,
        {
            reveal(defs_parse);
            let ghost rest = stream.remaining();
            let ghost done = defs@.map_values(|def: (String, Net)| (def.0@, def.1@));
            let key = match read_key(stream) {
                Ok(key) => key,
                Err(e) => {
                    return Err(e);
                },
            };
            let ghost a = key_parse(rest, big)->Ok_0.1;
            if defs.len() > 0 {
                let before = defs[defs.len() - 1].0.as_str().as_bytes();
                if !key_less(before, key.as_str().as_bytes()) {
                    return Err(DecodeError::KeyDisorder);
                }
            }
            let net = match Net::read(stream) {
                Ok(net) => net,
                Err(e) => {
                    return Err(e);
                },
            };
            let ghost b = net_parse(rest.skip(a as int), big)->Ok_0.1;
            let ghost entry = (key@, net@);
            defs.push((key, net));
            i += 1;
            proof {
                assert(rest.skip(a as int).skip(b as int) =~= rest.skip(a as int + b as int));
                assert(body.skip(taken as int).skip(a as int + b as int) =~= body.skip(
                    taken as int + a as int + b as int,
                ));
                let now = defs@.map_values(|def: (String, Net)| (def.0@, def.1@));
                let next = defs_parse(stream.remaining(), (count - i) as nat, Some(entry.0), big);
                if let Ok((more, n)) = next {
                    assert(done + (seq![entry] + more) =~= now + more);
                }
                taken = taken + a + b;
            }
        }
        proof {
            reveal(defs_parse);
            let now = defs@.map_values(|def: (String, Net)| (def.0@, def.1@));
            assert(now + Seq::<(Seq<char>, NetView)>::empty() =~= now);
            assert(Seq::<(Seq<char>, NetView)>::empty() + now =~= now);
            assert(orig.skip(head as int).skip(taken as int) =~= orig.skip(head as int + taken as int));
        }
        Ok(Book { defs })
    }
}

/// The definitions with every net in normal form.
pub open spec fn defs_normalized(defs: Seq<(Seq<char>, NetView)>) -> Seq<(Seq<char>, NetView)> {
    Seq::new(defs.len(), |i: int| (defs[i].0, normalized(defs[i].1)))
}

/// Whether a book can be written: its definitions and the bytes of each
/// name can be counted in a gamma code, the names rise strictly, and every
/// net can be written.
pub open spec fn defs_encodable(defs: Seq<(Seq<char>, NetView)>) -> bool {
    &&& defs.len() < u64::MAX
    &&& keys_rising(defs)
    &&& forall|i: int|
        0 <= i < defs.len() ==> net_encodable((#[trigger] defs[i]).1) && encode_utf8(defs[i].0).len()
            < u64::MAX
}

/// Bytes are read back from their bits, whatever follows them, once their
/// number is given.
#[verifier::rlimit(50)]
pub proof fn lemma_counted_bytes_round_trip(bytes: Seq<u8>, big: bool, rest: Seq<bool>)
    ensures
        bytes_parse(bytes_bits(bytes, big) + rest, bytes.len(), big) == Ok::<
            (Seq<u8>, nat),
            DecodeError,
        >((bytes, 8 * bytes.len())),
        bytes_bits(bytes, big).len() == 8 * bytes.len(),
    decreases bytes.len(),
{
    let bits = bytes_bits(bytes, big) + rest;
    lemma_bytes_bits_len(bytes, big);
    assert(pow2(8) == 256) by {
        reveal_with_fuel(pow2, 9);
    }
    if bytes.len() == 0 {
        assert(bytes =~= Seq::<u8>::empty());
    } else {
        let first = uint_bits(bytes[0] as nat, 8, big);
        let tail = bytes.skip(1);
        lemma_bytes_bits_front(bytes, big);
        assert(bits.take(8) =~= first);
        assert(bits.skip(8) =~= bytes_bits(tail, big) + rest);
        lemma_uint_round_trip(bytes[0] as nat, 8, big);
        lemma_counted_bytes_round_trip(tail, big, rest);
        assert(seq![bytes[0]] + tail =~= bytes);
    }
}

/// A name is read back from its bits in a book, whatever follows them.
#[verifier::rlimit(50)]
pub proof fn lemma_key_round_trip(key: Seq<char>, big: bool, rest: Seq<bool>)
    requires
        encode_utf8(key).len() < u64::MAX,
    ensures
        key_parse(key_bits(key, big) + rest, big) == Ok::<(Seq<char>, nat), DecodeError>(
            (key, key_bits(key, big).len()),
        ),
{
    broadcast use vstd::utf8::encode_utf8_valid_utf8, vstd::utf8::encode_utf8_decode_utf8;

    let bytes = encode_utf8(key);
    let count = gamma_bits(bytes.len());
    let body = bytes_bits(bytes, big);
    let bits = key_bits(key, big) + rest;
    assert(bits =~= count + (body + rest));
    assert(bytes.len() + 1 < pow2(64)) by {
        lemma_pow2_64();
    }
    lemma_gamma_round_trip(bytes.len(), body + rest);
    assert(bits.skip(count.len() as int) =~= body + rest);
    lemma_counted_bytes_round_trip(bytes, big, rest);
}

/// The bits of the definitions start with the bits of the first of them.
#[verifier::rlimit(50)]
pub proof fn lemma_defs_bits_front(defs: Seq<(Seq<char>, NetView)>, big: bool)
    requires
        defs.len() > 0,
    ensures
        defs_bits(defs, big) == key_bits(defs[0].0, big) + net_bits(defs[0].1, big) + defs_bits(
            defs.skip(1),
            big,
        ),
    decreases defs.len(),
{
    let front = defs.drop_last();
    let first = key_bits(defs[0].0, big) + net_bits(defs[0].1, big);
    if defs.len() == 1 {
        assert(defs.skip(1) =~= Seq::<(Seq<char>, NetView)>::empty());
        assert(front =~= Seq::<(Seq<char>, NetView)>::empty());
        assert(defs_bits(defs, big) =~= first + defs_bits(defs.skip(1), big));
    } else {
        lemma_defs_bits_front(front, big);
        assert(defs.skip(1).drop_last() =~= front.skip(1));
        assert(defs_bits(defs, big) =~= first + defs_bits(defs.skip(1), big));
    }
}

/// What `defs_parse` makes of a first definition and those after it, once
/// they are known to parse and the first name to come after the one before.
proof fn lemma_parse_defs(
    bits: Seq<bool>,
    count: nat,
    last: Option<Seq<char>>,
    big: bool,
    key: Seq<char>,
    a: nat,
    net: NetView,
    b: nat,
    more: Seq<(Seq<char>, NetView)>,
    c: nat,
)
    requires
        count > 0,
        key_parse(bits, big) == Ok::<(Seq<char>, nat), DecodeError>((key, a)),
        last is Some ==> name_less(last->Some_0, key),
        net_parse(bits.skip(a as int), big) == Ok::<(NetView, nat), DecodeError>((net, b)),
        defs_parse(bits.skip(a as int + b as int), (count - 1) as nat, Some(key), big) == Ok::<
            (Seq<(Seq<char>, NetView)>, nat),
            DecodeError,
        >((more, c)),
    ensures
        defs_parse(bits, count, last, big) == Ok::<(Seq<(Seq<char>, NetView)>, nat), DecodeError>(
            (seq![(key, net)] + more, a + b + c),
        ),
{
    reveal(defs_parse);
}

/// Where each of two parts and what follows them starts.
proof fn lemma_two_parts(a: Seq<bool>, b: Seq<bool>, c: Seq<bool>, rest: Seq<bool>)
    ensures
        a + b + c + rest == a + (b + c + rest),
        (a + b + c + rest).skip(a.len() as int) == b + (c + rest),
        (a + b + c + rest).skip(a.len() as int + b.len() as int) == c + rest,
        (a + b + c).len() == a.len() + b.len() + c.len(),
{
    let all = a + b + c + rest;
    assert(all =~= a + (b + c + rest));
    assert(all.skip(a.len() as int) =~= b + (c + rest));
    assert(all.skip(a.len() as int + b.len() as int) =~= c + rest);
}

/// The definitions of a book are read back from their bits, whatever
/// follows them, with every net in normal form.
#[verifier::rlimit(100)]
#[verifier::spinoff_prover]
pub proof fn lemma_defs_round_trip(
    defs: Seq<(Seq<char>, NetView)>,
    last: Option<Seq<char>>,
    big: bool,
    rest: Seq<bool>,
)
    requires
        defs_encodable(defs),
        last is Some && defs.len() > 0 ==> name_less(last->Some_0, defs[0].0),
    ensures
        defs_parse(defs_bits(defs, big) + rest, defs.len(), last, big) == Ok::<
            (Seq<(Seq<char>, NetView)>, nat),
            DecodeError,
        >((defs_normalized(defs), defs_bits(defs, big).len())),
    decreases defs.len(),
{
    if defs.len() == 0 {
        reveal(defs_parse);
        assert(defs_normalized(defs) =~= Seq::<(Seq<char>, NetView)>::empty());
    } else {
        let key = key_bits(defs[0].0, big);
        let net = net_bits(defs[0].1, big);
        let tail = defs.skip(1);
        let more = defs_bits(tail, big);
        lemma_defs_bits_front(defs, big);
        lemma_two_parts(key, net, more, rest);
        assert(defs_encodable(tail)) by {
            assert forall|i: int| 0 < i < tail.len() implies name_less(
                tail[i - 1].0,
                (#[trigger] tail[i]).0,
            ) by {
                assert(tail[i] == defs[i + 1] && tail[i - 1] == defs[i]);
            }
            assert forall|i: int| 0 <= i < tail.len() implies net_encodable(
                (#[trigger] tail[i]).1,
            ) && encode_utf8(tail[i].0).len() < u64::MAX by {
                assert(tail[i] == defs[i + 1]);
            }
        }
        if tail.len() > 0 {
            assert(tail[0] == defs[1]);
            assert(name_less(defs[0].0, defs[1].0));
        }
        lemma_key_round_trip(defs[0].0, big, net + more + rest);
        lemma_net_round_trip(defs[0].1, big, more + rest);
        lemma_defs_round_trip(tail, Some(defs[0].0), big, rest);
        assert(seq![(defs[0].0, normalized(defs[0].1))] + defs_normalized(tail) == defs_normalized(
            defs,
        )) by {
            assert(seq![(defs[0].0, normalized(defs[0].1))] + defs_normalized(tail)
                =~= defs_normalized(defs));
        }
        lemma_parse_defs(
            defs_bits(defs, big) + rest,
            defs.len(),
            last,
            big,
            defs[0].0,
            key.len(),
            normalized(defs[0].1),
            net.len(),
            defs_normalized(tail),
            more.len(),
        );
    }
}

/// A book whose names rise strictly and whose nets can be written is read
/// back from its bits, whatever follows them, with every net in normal form.
pub proof fn lemma_book_round_trip(defs: Seq<(Seq<char>, NetView)>, big: bool, rest: Seq<bool>)
    requires
        defs_encodable(defs),
    ensures
        book_parse(book_bits(defs, big) + rest, big) == Ok::<
            (Seq<(Seq<char>, NetView)>, nat),
            DecodeError,
        >((defs_normalized(defs), book_bits(defs, big).len())),
{
    let count = gamma_bits(defs.len());
    let body = defs_bits(defs, big);
    let bits = book_bits(defs, big) + rest;
    assert(bits =~= count + (body + rest));
    assert(defs.len() + 1 < pow2(64)) by {
        lemma_pow2_64();
    }
    lemma_gamma_round_trip(defs.len(), body + rest);
    assert(bits.skip(count.len() as int) =~= body + rest);
    lemma_defs_round_trip(defs, None, big, rest);
    assert(Seq::<(Seq<char>, NetView)>::empty() + defs_normalized(defs) =~= defs_normalized(defs));
}

} // verus!
