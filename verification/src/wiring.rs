//! The wiring of a net: which variable occurrences are the two ends of one
//! wire, written in as few bits as the open ports at each step allow.

use crate::stream::{
    lemma_pow2_64, pow2, uint_bits, uint_value, BitReader, BitWriter, DecodeError,
};
use crate::{reads_as, BitReadSized, BitWrite};
use vstd::prelude::*;

verus! {

/// A pairing of the variable occurrences of a net.
#[derive(Clone, PartialEq, Eq, Debug)]
pub struct Wiring {
    /// The pairs of occurrences that share a wire, ordered by their first
    /// member.
    pub connections: Vec<(usize, usize)>,
}

impl View for Wiring {
    type V = Seq<(usize, usize)>;

    open spec fn view(&self) -> Seq<(usize, usize)> {
        self.connections@
    }
}

/// Whether `i` is one of the two members of `pair`.
pub open spec fn touches(pair: (usize, usize), i: int) -> bool {
    pair.0 == i || pair.1 == i
}

/// Whether port `i` is in one of `pairs`.
pub open spec fn covered(pairs: Seq<(usize, usize)>, i: int) -> bool {
    exists|p: int| 0 <= p < pairs.len() && touches(#[trigger] pairs[p], i)
}

/// A perfect matching on the ports `0 .. 2k` in canonical order: every pair
/// names its smaller port first, the pairs are listed by rising first port,
/// and every port is in exactly one pair.
pub open spec fn is_matching(pairs: Seq<(usize, usize)>) -> bool {
    &&& 2 * pairs.len() <= usize::MAX
    &&& forall|p: int| 0 <= p < pairs.len() ==> (#[trigger] pairs[p]).0 < pairs[p].1 < 2 * pairs.len()
    &&& forall|p: int, q: int|
        0 <= p < q < pairs.len() ==> (#[trigger] pairs[p]).0 < (#[trigger] pairs[q]).0
    &&& forall|p: int, q: int|
        0 <= p < q < pairs.len() ==> !touches(#[trigger] pairs[p], (#[trigger] pairs[q]).0 as int)
            && !touches(pairs[p], pairs[q].1 as int)
    &&& forall|i: int| 0 <= i < 2 * pairs.len() ==> #[trigger] covered(pairs, i)
}

/// The least number of bits that tell `r` choices apart: the binary
/// logarithm of `r`, rounded up.
pub open spec fn ceil_log2(r: nat) -> nat
    decreases r,
{
    if r <= 1 {
        0
    } else {
        1 + ceil_log2((r - r / 2) as nat)
    }
}

/// The ports that are still open, in rising order.
pub open spec fn free_ports(filled: Seq<bool>) -> Seq<usize>
    decreases filled.len(),
{
    if filled.len() == 0 {
        Seq::empty()
    } else if filled.last() {
        free_ports(filled.drop_last())
    } else {
        free_ports(filled.drop_last()).push((filled.len() - 1) as usize)
    }
}

/// The first open port, or the number of ports where none is open.
pub open spec fn first_free(filled: Seq<bool>) -> nat
    decreases filled.len(),
{
    if filled.len() == 0 || !filled[0] {
        0
    } else {
        1 + first_free(filled.skip(1))
    }
}

/// Where `port` first stands in `ports`, or their number where it does not.
pub open spec fn position(ports: Seq<usize>, port: usize) -> nat
    decreases ports.len(),
{
    if ports.len() == 0 || ports[0] == port {
        0
    } else {
        1 + position(ports.skip(1), port)
    }
}

/// `n` ports, all open.
pub open spec fn all_open(n: nat) -> Seq<bool> {
    Seq::new(n, |i: int| false)
}

/// The bits of the pairs in `pairs` when the ports in `filled` are taken
/// already. Each pair closes its first port, then names its second by its
/// place among the ports still open, in just enough bits for their number.
pub open spec fn wiring_bits_from(pairs: Seq<(usize, usize)>, filled: Seq<bool>, big: bool) -> Seq<
    bool,
>
    decreases pairs.len(),
{
    if pairs.len() == 0 {
        Seq::empty()
    } else {
        let (this, other) = pairs[0];
        let marked = filled.update(this as int, true);
        let open = free_ports(marked);
        uint_bits(position(open, other), ceil_log2(open.len()), big) + wiring_bits_from(
            pairs.skip(1),
            marked.update(other as int, true),
            big,
        )
    }
}

/// The bits of a whole wiring.
pub open spec fn wiring_bits(pairs: Seq<(usize, usize)>, big: bool) -> Seq<bool> {
    wiring_bits_from(pairs, all_open(2 * pairs.len()), big)
}

/// `parsed` after `pair` has been read in `width` bits before it.
pub open spec fn prepend_pair(
    pair: (usize, usize),
    width: nat,
    parsed: Result<(Seq<(usize, usize)>, nat), DecodeError>,
) -> Result<(Seq<(usize, usize)>, nat), DecodeError> {
    match parsed {
        Ok((more, taken)) => Ok((seq![pair] + more, width + taken)),
        Err(e) => Err(e),
    }
}

/// The next `count` pairs at the front of `bits` when the ports in `filled`
/// are taken already. Each pair starts at the first open port; the bits name
/// its partner among the ports that are open after that.
pub open spec fn wiring_parse_from(bits: Seq<bool>, count: nat, filled: Seq<bool>, big: bool) -> Result<
    (Seq<(usize, usize)>, nat),
    DecodeError,
>
    decreases count,
{
    if count == 0 {
        Ok((Seq::empty(), 0nat))
    } else {
        let this = first_free(filled);
        if this >= filled.len() {
            Err(DecodeError::WiringViolation)
        } else {
            let marked = filled.update(this as int, true);
            let open = free_ports(marked);
            let width = ceil_log2(open.len());
            if bits.len() < width {
                Err(DecodeError::Truncated)
            } else {
                let local = uint_value(bits.take(width as int), big);
                if local >= open.len() {
                    Err(DecodeError::WiringViolation)
                } else {
                    let other = open[local as int];
                    prepend_pair(
                        (this as usize, other),
                        width,
                        wiring_parse_from(
                            bits.skip(width as int),
                            (count - 1) as nat,
                            marked.update(other as int, true),
                            big,
                        ),
                    )
                }
            }
        }
    }
}

/// The wiring of `count` pairs at the front of `bits`.
pub open spec fn wiring_parse(bits: Seq<bool>, count: nat, big: bool) -> Result<
    (Seq<(usize, usize)>, nat),
    DecodeError,
> {
    if 2 * count > usize::MAX {
        Err(DecodeError::WiringViolation)
    } else {
        wiring_parse_from(bits, count, all_open(2 * count), big)
    }
}

/// `r` choices fit in `ceil_log2(r)` bits.
pub proof fn lemma_ceil_log2_fits(r: nat)
    ensures
        r <= pow2(ceil_log2(r)),
    decreases r,
{
    if r > 1 {
        lemma_ceil_log2_fits((r - r / 2) as nat);
    }
}

/// Fewer choices never need more bits.
pub proof fn lemma_ceil_log2_bound(r: nat, k: nat)
    requires
        r <= pow2(k),
    ensures
        ceil_log2(r) <= k,
    decreases k,
{
    if r > 1 {
        if k > 0 {
            lemma_ceil_log2_bound((r - r / 2) as nat, (k - 1) as nat);
        }
    }
}

/// Every open port is below the number of ports, and its place in the list
/// of open ports is no more than its own number.
pub proof fn lemma_free_ports_bounds(filled: Seq<bool>)
    requires
        filled.len() <= usize::MAX,
    ensures
        free_ports(filled).len() <= filled.len(),
        forall|i: int|
            0 <= i < free_ports(filled).len() ==> (#[trigger] free_ports(filled)[i]) < filled.len()
                && !filled[free_ports(filled)[i] as int],
    decreases filled.len(),
{
    if filled.len() > 0 {
        let front = filled.drop_last();
        lemma_free_ports_bounds(front);
        assert forall|i: int| 0 <= i < free_ports(filled).len() implies (#[trigger] free_ports(
            filled,
        )[i]) < filled.len() && !filled[free_ports(filled)[i] as int] by {
            if i < free_ports(front).len() {
                assert(free_ports(filled)[i] == free_ports(front)[i]);
                assert(front[free_ports(front)[i] as int] == filled[free_ports(front)[i] as int]);
            }
        }
    }
}

/// `pair` put into a list ordered by first member: behind every pair whose
/// first member is no greater than its own.
pub open spec fn insert_by_first(sorted: Seq<(usize, usize)>, pair: (usize, usize)) -> Seq<
    (usize, usize),
>
    decreases sorted.len(),
{
    if sorted.len() == 0 {
        seq![pair]
    } else if sorted.last().0 <= pair.0 {
        sorted.push(pair)
    } else {
        insert_by_first(sorted.drop_last(), pair).push(sorted.last())
    }
}

/// The pairs ordered by first member, pairs with one first member in the
/// order in which they came.
pub open spec fn sorted_by_first(pairs: Seq<(usize, usize)>) -> Seq<(usize, usize)>
    decreases pairs.len(),
{
    if pairs.len() == 0 {
        Seq::empty()
    } else {
        insert_by_first(sorted_by_first(pairs.drop_last()), pairs.last())
    }
}

/// Whether the first members do not fall from one pair to the next.
pub open spec fn rising_by_first(pairs: Seq<(usize, usize)>) -> bool {
    forall|i: int, j: int| 0 <= i < j < pairs.len() ==> pairs[i].0 <= pairs[j].0
}

/// Putting a pair into a list is inserting it at the place behind which
/// every first member is greater and before which none is.
pub proof fn lemma_insert_by_first_at(sorted: Seq<(usize, usize)>, pair: (usize, usize), at: int)
    requires
        0 <= at <= sorted.len(),
        forall|k: int| at <= k < sorted.len() ==> sorted[k].0 > pair.0,
        at > 0 ==> sorted[at - 1].0 <= pair.0,
    ensures
        insert_by_first(sorted, pair) == sorted.insert(at, pair),
    decreases sorted.len(),
{
    if sorted.len() == 0 {
        assert(seq![pair] =~= sorted.insert(at, pair));
    } else if at == sorted.len() {
        assert(sorted.push(pair) =~= sorted.insert(at, pair));
    } else {
        let front = sorted.drop_last();
        lemma_insert_by_first_at(front, pair, at);
        assert(front.insert(at, pair).push(sorted.last()) =~= sorted.insert(at, pair));
    }
}

/// Putting a pair into an ordered list keeps the list ordered and adds
/// nothing but the pair.
#[verifier::rlimit(50)]
pub proof fn lemma_insert_by_first(sorted: Seq<(usize, usize)>, pair: (usize, usize))
    requires
        rising_by_first(sorted),
    ensures
        rising_by_first(insert_by_first(sorted, pair)),
        insert_by_first(sorted, pair).to_multiset() == sorted.to_multiset().insert(pair),
        insert_by_first(sorted, pair).len() == sorted.len() + 1,
    decreases sorted.len(),
{
    broadcast use vstd::seq_lib::to_multiset_build;

    if sorted.len() == 0 {
        assert(seq![pair] =~= sorted.push(pair));
    } else if sorted.last().0 <= pair.0 {
    } else {
        let front = sorted.drop_last();
        let last = sorted.last();
        assert(rising_by_first(front)) by {
            assert forall|i: int, j: int| 0 <= i < j < front.len() implies front[i].0
                <= front[j].0 by {
                assert(front[i] == sorted[i] && front[j] == sorted[j]);
            }
        }
        lemma_insert_by_first(front, pair);
        let placed = insert_by_first(front, pair);
        assert(sorted =~= front.push(last));
        assert(placed.push(last).to_multiset() =~= sorted.to_multiset().insert(pair));
        assert forall|i: int| 0 <= i < placed.len() implies placed[i].0 <= last.0 by {
            assert(placed.to_multiset().count(placed[i]) > 0) by {
                vstd::seq_lib::to_multiset_contains(placed, placed[i]);
            }
            if placed[i] != pair {
                assert(front.to_multiset().count(placed[i]) > 0);
                vstd::seq_lib::to_multiset_contains(front, placed[i]);
                let k = choose|k: int| 0 <= k < front.len() && front[k] == placed[i];
                assert(sorted[k].0 <= sorted[sorted.len() - 1].0);
            }
        }
    }
}

/// Ordering pairs by first member gives an ordered list of the same pairs.
pub proof fn lemma_sorted_by_first(pairs: Seq<(usize, usize)>)
    ensures
        rising_by_first(sorted_by_first(pairs)),
        sorted_by_first(pairs).to_multiset() == pairs.to_multiset(),
        sorted_by_first(pairs).len() == pairs.len(),
    decreases pairs.len(),
{
    broadcast use vstd::seq_lib::to_multiset_build;

    if pairs.len() == 0 {
        assert(pairs =~= Seq::<(usize, usize)>::empty());
    } else {
        let front = pairs.drop_last();
        lemma_sorted_by_first(front);
        lemma_insert_by_first(sorted_by_first(front), pairs.last());
        assert(pairs =~= front.push(pairs.last()));
    }
}

/// The number of bits for `r` choices.
fn bits_for(r: usize) -> (width: usize)
    ensures
        width == ceil_log2(r as nat),
        width <= 64,
{
    let mut width: usize = 0;
    let mut left: usize = r;
    proof {
        lemma_pow2_64();
        lemma_ceil_log2_bound(r as nat, 64);
    }
    while left > 1
        invariant
            width + ceil_log2(left as nat) == ceil_log2(r as nat),
            ceil_log2(r as nat) <= 64,
        decreases left,
    {
        left = left - left / 2;
        width += 1;
    }
    width
}

/// The open ports, in rising order.
fn open_ports(filled: &Vec<bool>) -> (open: Vec<usize>)
    ensures
        open@ == free_ports(filled@),
{
    let mut open: Vec<usize> = Vec::new();
    let mut i: usize = 0;
    while i < filled.len()
        invariant
            i <= filled.len(),
            open@ == free_ports(filled@.take(i as int)),
        decreases filled.len() - i,
    {
        assert(filled@.take(i + 1).drop_last() =~= filled@.take(i as int));
        if !filled[i] {
            open.push(i);
        }
        i += 1;
    }
    assert(filled@.take(filled.len() as int) =~= filled@);
    open
}

/// Where `port` first stands in `ports`.
fn position_of(ports: &Vec<usize>, port: usize) -> (at: usize)
    ensures
        at == position(ports@, port),
        at <= ports@.len(),
{
    let mut at: usize = 0;
    assert(ports@.skip(0) =~= ports@);
    while at < ports.len() && ports[at] != port
        invariant
            at <= ports.len(),
            position(ports@, port) == at + position(ports@.skip(at as int), port),
        decreases ports.len() - at,
    {
        assert(ports@.skip(at as int).skip(1) =~= ports@.skip(at + 1));
        at += 1;
    }
    at
}

/// The first open port.
fn first_open(filled: &Vec<bool>) -> (at: usize)
    ensures
        at == first_free(filled@),
        at <= filled@.len(),
{
    let mut at: usize = 0;
    assert(filled@.skip(0) =~= filled@);
    while at < filled.len() && filled[at]
        invariant
            at <= filled.len(),
            first_free(filled@) == at + first_free(filled@.skip(at as int)),
        decreases filled.len() - at,
    {
        assert(filled@.skip(at as int).skip(1) =~= filled@.skip(at + 1));
        at += 1;
    }
    at
}

/// `n` open ports.
fn open_board(n: usize) -> (ports: Vec<bool>)
    ensures
        ports@ == all_open(n as nat),
{
    let mut ports: Vec<bool> = Vec::new();
    let mut i: usize = 0;
    while i < n
        invariant
            i <= n,
            ports@ == all_open(i as nat),
        decreases n - i,
    {
        ports.push(false);
        i += 1;
        assert(ports@ =~= all_open(i as nat));
    }
    ports
}

impl Wiring {
    /// The wiring of the given pairs, ordered by their first member; pairs
    /// with one first member keep the order in which they came.
    pub fn new(connections: Vec<(usize, usize)>) -> (wiring: Wiring)
        ensures
            wiring@ == sorted_by_first(connections@),
            rising_by_first(wiring@),
            wiring@.to_multiset() == connections@.to_multiset(),
    {
        let mut sorted: Vec<(usize, usize)> = Vec::new();
        let mut i: usize = 0;
        assert(connections@.take(0) =~= Seq::<(usize, usize)>::empty());
        while i < connections.len()
            invariant
                i <= connections.len(),
                sorted@ == sorted_by_first(connections@.take(i as int)),
                sorted@.len() == i,
            decreases connections.len() - i,
        {
            let pair = connections[i];
            let mut at: usize = sorted.len();
            while at > 0 && sorted[at - 1].0 > pair.0
                invariant
                    at <= sorted@.len(),
                    forall|k: int| at <= k < sorted@.len() ==> sorted@[k].0 > pair.0,
                decreases at,
            {
                at -= 1;
            }
            proof {
                lemma_insert_by_first_at(sorted@, pair, at as int);
                assert(connections@.take(i + 1).drop_last() =~= connections@.take(i as int));
            }
            sorted.insert(at, pair);
            i += 1;
        }
        proof {
            assert(connections@.take(connections.len() as int) =~= connections@);
            lemma_sorted_by_first(connections@);
        }
        Wiring { connections: sorted }
    }
}

/// Whether port `i` is in one of the first `p` of `pairs`.
pub open spec fn touched_before(pairs: Seq<(usize, usize)>, p: int, i: int) -> bool {
    exists|q: int| 0 <= q < p && touches(#[trigger] pairs[q], i)
}

impl Wiring {
    /// Whether the wiring is a perfect matching in canonical order, which is
    /// what writing it asks for.
    #[verifier::rlimit(100)]
    pub fn is_canonical(&self) -> (ok: bool)
        ensures
            ok == is_matching(self@),
    {
        let count = self.connections.len();
        if count > usize::MAX / 2 {
            return false;
        }
        let ports = 2 * count;
        let mut board = open_board(ports);
        let mut p: usize = 0;
        while p < count
            invariant
                p <= count,
                count == self@.len(),
                ports == 2 * count,
                board@.len() == ports,
                forall|q: int| 0 <= q < p ==> (#[trigger] self@[q]).0 < self@[q].1 < ports,
                forall|q: int, r: int|
                    0 <= q < r < p ==> (#[trigger] self@[q]).0 < (#[trigger] self@[r]).0,
                forall|q: int, r: int|
                    0 <= q < r < p ==> !touches(#[trigger] self@[q], (#[trigger] self@[r]).0 as int)
                        && !touches(self@[q], self@[r].1 as int),
                forall|i: int|
                    0 <= i < ports ==> board@[i] == #[trigger] touched_before(self@, p as int, i),
            decreases count - p,
        {
            let (this, other) = self.connections[p];
            assert(self@[p as int] == (this, other));
            if !(this < other && other < ports) {
                return false;
            }
            if p > 0 && self.connections[p - 1].0 >= this {
                assert(!(self@[p - 1].0 < self@[p as int].0));
                return false;
            }
            if board[this] || board[other] {
                proof {
                    let i = if board@[this as int] {
                        this as int
                    } else {
                        other as int
                    };
                    assert(touched_before(self@, p as int, i));
                    let q = choose|q: int| 0 <= q < p && touches(#[trigger] self@[q], i);
                    assert(touches(self@[q], self@[p as int].0 as int) || touches(
                        self@[q],
                        self@[p as int].1 as int,
                    ));
                }
                return false;
            }
            let ghost before = board@;
            board.set(this, true);
            board.set(other, true);
            proof {
                assert forall|q: int, r: int| 0 <= q < r < p + 1 implies (#[trigger] self@[q]).0
                    < (#[trigger] self@[r]).0 by {
                    if r == p && q < p - 1 {
                        assert(self@[q].0 < self@[p - 1].0);
                    }
                }
                assert forall|q: int, r: int| 0 <= q < r < p + 1 implies !touches(
                    #[trigger] self@[q],
                    (#[trigger] self@[r]).0 as int,
                ) && !touches(self@[q], self@[r].1 as int) by {
                    if r == p {
                        assert(!touched_before(self@, p as int, this as int));
                        assert(!touched_before(self@, p as int, other as int));
                    }
                }
                assert forall|i: int| 0 <= i < ports implies board@[i] == #[trigger] touched_before(
                    self@,
                    p + 1,
                    i,
                ) by {
                    if touched_before(self@, p as int, i) {
                        let q = choose|q: int| 0 <= q < p && touches(#[trigger] self@[q], i);
                        assert(touches(self@[q], i));
                    }
                    if touches(self@[p as int], i) {
                        assert(touched_before(self@, p + 1, i));
                    }
                    if touched_before(self@, p + 1, i) {
                        let q = choose|q: int| 0 <= q < p + 1 && touches(#[trigger] self@[q], i);
                        if q < p {
                            assert(touched_before(self@, p as int, i));
                        }
                    }
                }
            }
            p += 1;
        }
        let mut i: usize = 0;
        while i < ports
            invariant
                i <= ports,
                p == count,
                count == self@.len(),
                ports == 2 * count,
                board@.len() == ports,
                forall|q: int| 0 <= q < p ==> (#[trigger] self@[q]).0 < self@[q].1 < ports,
                forall|q: int, r: int|
                    0 <= q < r < p ==> (#[trigger] self@[q]).0 < (#[trigger] self@[r]).0,
                forall|q: int, r: int|
                    0 <= q < r < p ==> !touches(#[trigger] self@[q], (#[trigger] self@[r]).0 as int)
                        && !touches(self@[q], self@[r].1 as int),
                forall|j: int|
                    0 <= j < ports ==> board@[j] == #[trigger] touched_before(self@, p as int, j),
                forall|j: int| 0 <= j < i ==> #[trigger] covered(self@, j),
            decreases ports - i,
        {
            if !board[i] {
                assert(!touched_before(self@, p as int, i as int));
                assert(!covered(self@, i as int));
                return false;
            }
            assert(touched_before(self@, p as int, i as int));
            i += 1;
        }
        true
    }
}

impl BitWrite for Wiring {
    open spec fn encodable(&self) -> bool {
        is_matching(self@)
    }

    open spec fn bits(&self, big: bool) -> Seq<bool> {
        wiring_bits(self@, big)
    }

    fn write(&self, stream: &mut BitWriter) {
        let ghost start = stream@;
        let ghost big = stream.big();
        let count = self.connections.len();
        let mut ports = open_board(2 * count);
        let mut p: usize = 0;
        assert(self@.skip(0) =~= self@);
        while p < count
            invariant
                p <= count,
                count == self@.len(),
                is_matching(self@),
                ports@.len() == 2 * count,
                stream.big() == big,
                start + wiring_bits(self@, big) == stream@ + wiring_bits_from(
                    self@.skip(p as int),
                    ports@,
                    big,
                ),
            decreases count - p,
        {
            let ghost before = stream@;
            let ghost tail = self@.skip(p as int);
            let (this, other) = self.connections[p];
            assert(tail[0] == self@[p as int]);
            ports.set(this, true);
            let open = open_ports(&ports);
            let width = bits_for(open.len());
            let local = position_of(&open, other);
            ports.set(other, true);
            stream.write_uint(local as u64, width);
            p += 1;
            proof {
                assert(tail.skip(1) =~= self@.skip(p as int));
                assert(before + (uint_bits(local as nat, width as nat, big) + wiring_bits_from(
                    self@.skip(p as int),
                    ports@,
                    big,
                )) =~= stream@ + wiring_bits_from(self@.skip(p as int), ports@, big));
            }
        }
        assert(stream@ =~= start + wiring_bits(self@, big));
    }
}

impl BitReadSized for Wiring {
    open spec fn parse_sized(bits: Seq<bool>, size: nat, big: bool) -> Result<
        (Seq<(usize, usize)>, nat),
        DecodeError,
    > {
        wiring_parse(bits, size, big)
    }

    fn read(stream: &mut BitReader, size: usize) -> (result: Result<Self, DecodeError>)
        ensures
            match result {
                Ok(wiring) => wiring@.len() == size && is_matching(wiring@),
                Err(_) => true,
            },
    {
        if size > usize::MAX / 2 {
            return Err(DecodeError::WiringViolation);
        }
        let mut ports = open_board(2 * size);
        let result = Self::read_pairs(stream, size, &mut ports);
        proof {
            if result is Ok {
                lemma_parsed_wiring_is_matching(
                    old(stream).remaining(),
                    size as nat,
                    old(stream).big(),
                );
            }
        }
        result
    }
}

impl Wiring {
    #[verifier::rlimit(100)]
    fn read_pairs(stream: &mut BitReader, count: usize, ports: &mut Vec<bool>) -> (result: Result<
        Wiring,
        DecodeError,
    >)
        ensures
            final(stream).big() == old(stream).big(),
            reads_as(
                result,
                old(stream).remaining(),
                final(stream).remaining(),
                wiring_parse_from(
                    old(stream).remaining(),
                    count as nat,
                    old(ports)@,
                    old(stream).big(),
                ),
            ),
            match result {
                Ok(wiring) => forall|p: int|
                    0 <= p < wiring@.len() ==> (#[trigger] wiring@[p]).0 < old(ports)@.len()
                        && wiring@[p].1 < old(ports)@.len(),
                Err(_) => true,
            },
    {
        let ghost orig = stream.remaining();
        let ghost board = ports@;
        let ghost big = stream.big();
        let mut connections: Vec<(usize, usize)> = Vec::new();
        let ghost mut taken: nat = 0;
        let mut p: usize = 0;
        while p < count
            invariant
                p <= count,
                stream.big() == big,
                big == old(stream).big(),
                orig == old(stream).remaining(),
                board == old(ports)@,
                ports@.len() == board.len(),
                forall|q: int|
                    0 <= q < connections@.len() ==> (#[trigger] connections@[q]).0 < board.len()
                        && connections@[q].1 < board.len(),
                taken <= orig.len(),
                stream.remaining() == orig.skip(taken as int),
                wiring_parse_from(orig, count as nat, board, big) == join_pairs(
                    connections@,
                    taken,
                    wiring_parse_from(stream.remaining(), (count - p) as nat, ports@, big),
                ),
            decreases count - p,
        {
            let ghost done = connections@;
            let this = first_open(ports);
            if this >= ports.len() {
                return Err(DecodeError::WiringViolation);
            }
            ports.set(this, true);
            let open = open_ports(ports);
            let width = bits_for(open.len());
            let local = match stream.read_uint(width) {
                Ok(local) => local,
                Err(e) => {
                    return Err(e);
                },
            };
            if local >= open.len() as u64 {
                return Err(DecodeError::WiringViolation);
            }
            let other = open[local as usize];
            proof {
                lemma_free_ports_bounds(ports@);
            }
            ports.set(other, true);
            connections.push((this, other));
            p += 1;
            proof {
                assert(orig.skip(taken as int).skip(width as int) =~= orig.skip(taken as int + width as int));
                let next = wiring_parse_from(stream.remaining(), (count - p) as nat, ports@, big);
                if let Ok((more, n)) = next {
                    assert(done + (seq![(this, other)] + more) =~= connections@ + more);
                }
                taken = taken + width as nat;
            }
        }
        assert(connections@ + Seq::<(usize, usize)>::empty() =~= connections@);
        Ok(Wiring { connections })
    }
}

/// `parsed` after the pairs in `done` have been read in `taken` bits before
/// it.
pub open spec fn join_pairs(
    done: Seq<(usize, usize)>,
    taken: nat,
    parsed: Result<(Seq<(usize, usize)>, nat), DecodeError>,
) -> Result<(Seq<(usize, usize)>, nat), DecodeError> {
    match parsed {
        Ok((more, n)) => Ok((done + more, taken + n)),
        Err(e) => Err(e),
    }
}

/// The ports that the first `p` of `pairs` have taken.
pub open spec fn board_at(pairs: Seq<(usize, usize)>, p: int) -> Seq<bool> {
    Seq::new(2 * pairs.len(), |i: int| touched_before(pairs, p, i))
}

/// The bit cost of a wiring of `k` pairs: the widths for `2k - 1`,
/// `2k - 3`, down to one open port.
pub open spec fn wiring_cost(k: nat) -> nat
    decreases k,
{
    if k == 0 {
        0
    } else {
        ceil_log2((2 * k - 1) as nat) + wiring_cost((k - 1) as nat)
    }
}

/// Closing an open port leaves one open port fewer.
pub proof fn lemma_free_ports_update(filled: Seq<bool>, i: int)
    requires
        0 <= i < filled.len(),
        !filled[i],
    ensures
        free_ports(filled.update(i, true)).len() == free_ports(filled).len() - 1,
    decreases filled.len(),
{
    let front = filled.drop_last();
    if i == filled.len() - 1 {
        assert(filled.update(i, true).drop_last() =~= front);
    } else {
        assert(filled.update(i, true).drop_last() =~= front.update(i, true));
        lemma_free_ports_update(front, i);
    }
}

/// On a fresh board every port is open.
pub proof fn lemma_all_open(n: nat)
    ensures
        free_ports(all_open(n)).len() == n,
    decreases n,
{
    if n > 0 {
        assert(all_open(n).drop_last() =~= all_open((n - 1) as nat));
        lemma_all_open((n - 1) as nat);
    }
}

/// The open ports are listed in rising order.
pub proof fn lemma_free_ports_rising(filled: Seq<bool>)
    requires
        filled.len() <= usize::MAX,
    ensures
        forall|i: int, j: int|
            0 <= i < j < free_ports(filled).len() ==> free_ports(filled)[i] < free_ports(filled)[j],
    decreases filled.len(),
{
    if filled.len() > 0 {
        let front = filled.drop_last();
        lemma_free_ports_rising(front);
        lemma_free_ports_bounds(front);
    }
}

/// An open port has a place in the list of open ports.
pub proof fn lemma_free_ports_place(filled: Seq<bool>, port: usize) -> (at: int)
    requires
        port < filled.len() <= usize::MAX,
        !filled[port as int],
    ensures
        0 <= at < free_ports(filled).len(),
        free_ports(filled)[at] == port,
    decreases filled.len(),
{
    let front = filled.drop_last();
    if port == filled.len() - 1 {
        free_ports(front).len() as int
    } else {
        let at = lemma_free_ports_place(front, port);
        at
    }
}

/// A port that stands at `at` and nowhere before is found at `at`.
pub proof fn lemma_position_is(ports: Seq<usize>, port: usize, at: int)
    requires
        0 <= at < ports.len(),
        ports[at] == port,
        forall|i: int| 0 <= i < at ==> ports[i] != port,
    ensures
        position(ports, port) == at,
    decreases at,
{
    if at > 0 {
        lemma_position_is(ports.skip(1), port, at - 1);
    }
}

/// The first open port is the one below which every port is taken.
pub proof fn lemma_first_free_is(filled: Seq<bool>, at: int)
    requires
        0 <= at < filled.len(),
        !filled[at],
        forall|i: int| 0 <= i < at ==> filled[i],
    ensures
        first_free(filled) == at,
    decreases at,
{
    if at > 0 {
        lemma_first_free_is(filled.skip(1), at - 1);
    }
}

/// What pair `p` of a matching does to the board: both its ports were open,
/// and are the only ones it closes.
#[verifier::rlimit(50)]
pub proof fn lemma_board_step(pairs: Seq<(usize, usize)>, p: int)
    requires
        is_matching(pairs),
        0 <= p < pairs.len(),
    ensures
        !board_at(pairs, p)[pairs[p].0 as int],
        !board_at(pairs, p)[pairs[p].1 as int],
        board_at(pairs, p + 1) == board_at(pairs, p).update(pairs[p].0 as int, true).update(
            pairs[p].1 as int,
            true,
        ),
{
    let (this, other) = pairs[p];
    let before = board_at(pairs, p);
    let after = before.update(this as int, true).update(other as int, true);
    assert forall|i: int| 0 <= i < 2 * pairs.len() implies board_at(pairs, p + 1)[i] == after[i] by {
        if touched_before(pairs, p, i) {
            let q = choose|q: int| 0 <= q < p && touches(#[trigger] pairs[q], i);
            assert(touches(pairs[q], i));
        }
        if touches(pairs[p], i) {
            assert(touched_before(pairs, p + 1, i));
        }
        if touched_before(pairs, p + 1, i) {
            let q = choose|q: int| 0 <= q < p + 1 && touches(#[trigger] pairs[q], i);
            if q < p {
                assert(touched_before(pairs, p, i));
            }
        }
    }
    assert(board_at(pairs, p + 1) =~= after);
    if touched_before(pairs, p, this as int) {
        let q = choose|q: int| 0 <= q < p && touches(#[trigger] pairs[q], this as int);
        assert(!touches(pairs[q], pairs[p].0 as int));
    }
    if touched_before(pairs, p, other as int) {
        let q = choose|q: int| 0 <= q < p && touches(#[trigger] pairs[q], other as int);
        assert(!touches(pairs[q], pairs[p].1 as int));
    }
}

/// After `p` pairs of a matching on `2k` ports, `2k - 2p` ports are open.
pub proof fn lemma_board_free(pairs: Seq<(usize, usize)>, p: int)
    requires
        is_matching(pairs),
        0 <= p <= pairs.len(),
    ensures
        free_ports(board_at(pairs, p)).len() == 2 * pairs.len() - 2 * p,
    decreases p,
{
    if p == 0 {
        assert(board_at(pairs, 0) =~= all_open(2 * pairs.len()));
        lemma_all_open(2 * pairs.len());
    } else {
        let q = p - 1;
        lemma_board_free(pairs, q);
        lemma_board_step(pairs, q);
        let before = board_at(pairs, q);
        lemma_free_ports_update(before, pairs[q].0 as int);
        lemma_free_ports_update(before.update(pairs[q].0 as int, true), pairs[q].1 as int);
    }
}

/// Below the first port of pair `p` of a matching every port is taken by an
/// earlier pair.
pub proof fn lemma_board_below(pairs: Seq<(usize, usize)>, p: int)
    requires
        is_matching(pairs),
        0 <= p < pairs.len(),
    ensures
        forall|i: int| 0 <= i < pairs[p].0 ==> board_at(pairs, p)[i],
{
    assert forall|i: int| 0 <= i < pairs[p].0 implies board_at(pairs, p)[i] by {
        assert(covered(pairs, i));
        let q = choose|q: int| 0 <= q < pairs.len() && touches(#[trigger] pairs[q], i);
        if q > p {
            assert(pairs[p].0 < pairs[q].0);
        }
        assert(q < p);
        assert(touched_before(pairs, p, i));
    }
}

/// The pairs of a matching from the `p`-th on, written on the board that the
/// earlier ones have left, take `wiring_cost` of their number in bits.
pub proof fn lemma_wiring_cost_from(pairs: Seq<(usize, usize)>, p: int, big: bool)
    requires
        is_matching(pairs),
        0 <= p <= pairs.len(),
    ensures
        wiring_bits_from(pairs.skip(p), board_at(pairs, p), big).len() == wiring_cost(
            (pairs.len() - p) as nat,
        ),
    decreases pairs.len() - p,
{
    if p < pairs.len() {
        let tail = pairs.skip(p);
        let board = board_at(pairs, p);
        lemma_board_step(pairs, p);
        lemma_board_free(pairs, p);
        lemma_free_ports_update(board, pairs[p].0 as int);
        lemma_wiring_cost_from(pairs, p + 1, big);
        assert(tail[0] == pairs[p]);
        assert(tail.skip(1) =~= pairs.skip(p + 1));
    }
}

/// A wiring of `k` pairs takes `ceil_log2(2k - 1) + ceil_log2(2k - 3) + ..
/// + ceil_log2(1)` bits: none for no pair or for one pair.
pub proof fn lemma_wiring_cost(pairs: Seq<(usize, usize)>, big: bool)
    requires
        is_matching(pairs),
    ensures
        wiring_bits(pairs, big).len() == wiring_cost(pairs.len()),
        pairs.len() <= 1 ==> wiring_bits(pairs, big).len() == 0,
{
    lemma_wiring_cost_from(pairs, 0, big);
    assert(pairs.skip(0) =~= pairs);
    assert(board_at(pairs, 0) =~= all_open(2 * pairs.len()));
    reveal_with_fuel(wiring_cost, 3);
    reveal_with_fuel(ceil_log2, 2);
}

/// The pairs of a matching from the `p`-th on are read back from their bits,
/// whatever follows them, on the board that the earlier ones have left.
#[verifier::rlimit(50)]
pub proof fn lemma_wiring_round_trip_from(
    pairs: Seq<(usize, usize)>,
    p: int,
    big: bool,
    rest: Seq<bool>,
)
    requires
        is_matching(pairs),
        0 <= p <= pairs.len(),
    ensures
        wiring_parse_from(
            wiring_bits_from(pairs.skip(p), board_at(pairs, p), big) + rest,
            (pairs.len() - p) as nat,
            board_at(pairs, p),
            big,
        ) == Ok::<(Seq<(usize, usize)>, nat), DecodeError>(
            (pairs.skip(p), wiring_bits_from(pairs.skip(p), board_at(pairs, p), big).len()),
        ),
    decreases pairs.len() - p,
{
    let tail = pairs.skip(p);
    let board = board_at(pairs, p);
    let bits = wiring_bits_from(tail, board, big);
    if p < pairs.len() {
        let (this, other) = pairs[p];
        assert(tail[0] == pairs[p]);
        assert(tail.skip(1) =~= pairs.skip(p + 1));
        lemma_board_step(pairs, p);
        lemma_board_below(pairs, p);
        lemma_first_free_is(board, this as int);
        let marked = board.update(this as int, true);
        let open = free_ports(marked);
        let width = ceil_log2(open.len());
        let at = lemma_free_ports_place(marked, other);
        lemma_free_ports_rising(marked);
        lemma_position_is(open, other, at);
        lemma_ceil_log2_fits(open.len());
        crate::stream::lemma_uint_round_trip(at as nat, width, big);
        let next = board_at(pairs, p + 1);
        let more = wiring_bits_from(pairs.skip(p + 1), next, big);
        let field = uint_bits(at as nat, width, big);
        assert(bits == field + more);
        assert((bits + rest).take(width as int) =~= field);
        assert((bits + rest).skip(width as int) =~= more + rest);
        lemma_wiring_round_trip_from(pairs, p + 1, big, rest);
        assert(seq![(this, other)] + pairs.skip(p + 1) =~= tail);
    } else {
        assert(tail =~= Seq::<(usize, usize)>::empty());
    }
}

/// A perfect matching in canonical order is read back from its bits,
/// whatever follows them, once the number of its pairs is given.
pub proof fn lemma_wiring_round_trip(pairs: Seq<(usize, usize)>, big: bool, rest: Seq<bool>)
    requires
        is_matching(pairs),
    ensures
        wiring_parse(wiring_bits(pairs, big) + rest, pairs.len(), big) == Ok::<
            (Seq<(usize, usize)>, nat),
            DecodeError,
        >((pairs, wiring_bits(pairs, big).len())),
{
    lemma_wiring_round_trip_from(pairs, 0, big, rest);
    assert(pairs.skip(0) =~= pairs);
    assert(board_at(pairs, 0) =~= all_open(2 * pairs.len()));
}

/// Below the first open port every port is taken, and the first open port
/// itself, if there is one, is open.
pub proof fn lemma_first_free_found(filled: Seq<bool>)
    ensures
        first_free(filled) <= filled.len(),
        first_free(filled) < filled.len() ==> !filled[first_free(filled) as int],
        forall|i: int| 0 <= i < first_free(filled) ==> filled[i],
    decreases filled.len(),
{
    if filled.len() > 0 && filled[0] {
        let tail = filled.skip(1);
        lemma_first_free_found(tail);
        assert forall|i: int| 0 <= i < first_free(filled) implies filled[i] by {
            if i > 0 {
                assert(tail[i - 1] == filled[i]);
            }
        }
    }
}

/// What the pairs read on a board are to it: each joins two ports that were
/// open, the smaller first; their first ports rise; no port is in two of
/// them; and every port that was open is in one of them.
pub open spec fn fills(filled: Seq<bool>, pairs: Seq<(usize, usize)>) -> bool {
    &&& forall|p: int|
        0 <= p < pairs.len() ==> (#[trigger] pairs[p]).0 < pairs[p].1 < filled.len()
            && !filled[pairs[p].0 as int] && !filled[pairs[p].1 as int]
    &&& forall|p: int, q: int|
        0 <= p < q < pairs.len() ==> (#[trigger] pairs[p]).0 < (#[trigger] pairs[q]).0
    &&& forall|p: int, q: int|
        0 <= p < q < pairs.len() ==> !touches(#[trigger] pairs[p], (#[trigger] pairs[q]).0 as int)
            && !touches(pairs[p], pairs[q].1 as int)
    &&& forall|i: int| 0 <= i < filled.len() && !filled[i] ==> #[trigger] covered(pairs, i)
}

/// Whatever the bits, the pairs that are read on a board with twice as many
/// open ports as pairs asked for fill the board.
#[verifier::rlimit(50)]
pub proof fn lemma_parsed_pairs_fill(bits: Seq<bool>, count: nat, filled: Seq<bool>, big: bool)
    requires
        filled.len() <= usize::MAX,
        free_ports(filled).len() == 2 * count,
        wiring_parse_from(bits, count, filled, big) is Ok,
    ensures
        wiring_parse_from(bits, count, filled, big)->Ok_0.0.len() == count,
        fills(filled, wiring_parse_from(bits, count, filled, big)->Ok_0.0),
    decreases count,
{
    let pairs = wiring_parse_from(bits, count, filled, big)->Ok_0.0;
    if count == 0 {
        assert forall|i: int| 0 <= i < filled.len() && !filled[i] implies #[trigger] covered(
            pairs,
            i,
        ) by {
            let at = lemma_free_ports_place(filled, i as usize);
        }
    } else {
        let this = first_free(filled) as int;
        lemma_first_free_found(filled);
        let marked = filled.update(this, true);
        let open = free_ports(marked);
        let width = ceil_log2(open.len());
        let local = uint_value(bits.take(width as int), big) as int;
        let other = open[local];
        let next = marked.update(other as int, true);
        lemma_free_ports_bounds(marked);
        lemma_free_ports_update(filled, this);
        lemma_free_ports_update(marked, other as int);
        lemma_parsed_pairs_fill(bits.skip(width as int), (count - 1) as nat, next, big);
        let more = wiring_parse_from(bits.skip(width as int), (count - 1) as nat, next, big)->Ok_0.0;
        assert(pairs == seq![(this as usize, other)] + more);
        assert(this < other) by {
            if other < this {
                assert(filled[other as int]);
            }
        }
        assert forall|p: int| 0 <= p < pairs.len() implies (#[trigger] pairs[p]).0 < pairs[p].1
            < filled.len() && !filled[pairs[p].0 as int] && !filled[pairs[p].1 as int] by {
            if p > 0 {
                assert(pairs[p] == more[p - 1]);
            }
        }
        assert forall|p: int, q: int| 0 <= p < q < pairs.len() implies (#[trigger] pairs[p]).0 < (
        #[trigger] pairs[q]).0 && !touches(pairs[p], pairs[q].0 as int) && !touches(
            pairs[p],
            pairs[q].1 as int,
        ) by {
            assert(pairs[q] == more[q - 1]);
            if p > 0 {
                assert(pairs[p] == more[p - 1]);
            } else {
                if more[q - 1].0 < this {
                    assert(filled[more[q - 1].0 as int]);
                }
            }
        }
        assert forall|i: int| 0 <= i < filled.len() && !filled[i] implies #[trigger] covered(
            pairs,
            i,
        ) by {
            if i == this || i == other {
                assert(touches(pairs[0], i));
            } else {
                assert(covered(more, i));
                let q = choose|q: int| 0 <= q < more.len() && touches(#[trigger] more[q], i);
                assert(pairs[q + 1] == more[q]);
                assert(touches(pairs[q + 1], i));
            }
        }
    }
}

/// Whatever the bits, a wiring that is read is a perfect matching in
/// canonical order, of as many pairs as were asked for.
pub proof fn lemma_parsed_wiring_is_matching(bits: Seq<bool>, count: nat, big: bool)
    requires
        wiring_parse(bits, count, big) is Ok,
    ensures
        wiring_parse(bits, count, big)->Ok_0.0.len() == count,
        is_matching(wiring_parse(bits, count, big)->Ok_0.0),
{
    let board = all_open(2 * count);
    let pairs = wiring_parse(bits, count, big)->Ok_0.0;
    lemma_all_open(2 * count);
    lemma_parsed_pairs_fill(bits, count, board, big);
    assert forall|i: int| 0 <= i < 2 * pairs.len() implies #[trigger] covered(pairs, i) by {
        assert(!board[i]);
    }
}

} // verus!
