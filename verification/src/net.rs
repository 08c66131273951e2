//! Nets: a root tree, the active pairs, and the wiring of their variables.

use crate::scalars::{gamma_bits, gamma_parse, VarLenNumber};
use crate::stream::{BitReader, BitWriter, DecodeError};
use crate::tree::{
    lemma_tree_round_trip, names_view, tree_bits, tree_blank, tree_encodable, tree_parse,
    tree_renamed, tree_vars, Tree, TreeView,
};
use crate::wiring::{
    covered, is_matching, touched_before, touches, wiring_bits, wiring_parse, Wiring,
};
use crate::{BitRead, BitReadSized, BitWrite};
use vstd::prelude::*;

verus! {

/// An interaction net.
#[derive(Clone, PartialEq, Eq, Debug)]
pub struct Net {
    /// The tree at the net's free port.
    pub root: Tree,
    /// The active pairs, in order.
    pub redexes: Vec<(Tree, Tree)>,
}

/// What a net is in contracts.
pub struct NetView {
    pub root: TreeView,
    pub redexes: Seq<(TreeView, TreeView)>,
}

/// The active pairs as contracts see them.
pub open spec fn redexes_view(redexes: Seq<(Tree, Tree)>) -> Seq<(TreeView, TreeView)> {
    redexes.map_values(|pair: (Tree, Tree)| (pair.0@, pair.1@))
}

impl View for Net {
    type V = NetView;

    open spec fn view(&self) -> NetView {
        NetView { root: self.root@, redexes: redexes_view(self.redexes@) }
    }
}

/// The names of the variables of the active pairs, in pre-order.
pub open spec fn redex_vars(redexes: Seq<(TreeView, TreeView)>) -> Seq<Seq<char>>
    decreases redexes.len(),
{
    if redexes.len() == 0 {
        Seq::empty()
    } else {
        redex_vars(redexes.drop_last()) + tree_vars(redexes.last().0) + tree_vars(redexes.last().1)
    }
}

/// The names of the variables of a net, in pre-order: those of the root, then
/// those of each active pair.
pub open spec fn net_vars(net: NetView) -> Seq<Seq<char>> {
    tree_vars(net.root) + redex_vars(net.redexes)
}

/// Active pair `i` with its variables renamed to `names`, where the first
/// variable of the first pair takes `names[start]`.
pub open spec fn redex_renamed(
    redexes: Seq<(TreeView, TreeView)>,
    names: Seq<Seq<char>>,
    start: int,
    i: int,
) -> (TreeView, TreeView) {
    let at = start + redex_vars(redexes.take(i)).len();
    (
        tree_renamed(redexes[i].0, names, at),
        tree_renamed(redexes[i].1, names, at + tree_vars(redexes[i].0).len()),
    )
}

/// The net with its variables, in pre-order, renamed to `names[0]`,
/// `names[1]` and so on.
pub open spec fn net_renamed(net: NetView, names: Seq<Seq<char>>) -> NetView {
    NetView {
        root: tree_renamed(net.root, names, 0),
        redexes: Seq::new(
            net.redexes.len(),
            |i: int| redex_renamed(net.redexes, names, tree_vars(net.root).len() as int, i),
        ),
    }
}

/// Where `name` first stands in `names`, or their number where it does not.
pub open spec fn first_index(names: Seq<Seq<char>>, name: Seq<char>) -> nat
    decreases names.len(),
{
    if names.len() == 0 || names[0] == name {
        0
    } else {
        1 + first_index(names.skip(1), name)
    }
}

/// The next occurrence after `i` of the name at `i`, or the number of names
/// where there is none.
pub open spec fn next_same(names: Seq<Seq<char>>, i: int) -> int {
    i + 1 + first_index(names.skip(i + 1), names[i])
}

/// The pairs that start below `n`: each occurrence with the next occurrence
/// of its name, where there is one.
pub open spec fn pairs_upto(names: Seq<Seq<char>>, n: nat) -> Seq<(usize, usize)>
    decreases n,
{
    if n == 0 {
        Seq::empty()
    } else {
        let i = n - 1;
        let j = next_same(names, i);
        if j < names.len() {
            pairs_upto(names, i as nat).push((i as usize, j as usize))
        } else {
            pairs_upto(names, i as nat)
        }
    }
}

/// The wiring that a list of variable names spells: each occurrence paired
/// with the next occurrence of its name, by rising first member.
pub open spec fn current_pairs(names: Seq<Seq<char>>) -> Seq<(usize, usize)> {
    pairs_upto(names, names.len())
}

/// The decimal digits of `n`.
pub open spec fn decimal(n: nat) -> Seq<char>
    decreases n,
{
    if n < 10 {
        seq![digit(n)]
    } else {
        decimal(n / 10).push(digit(n % 10))
    }
}

/// The character of one decimal digit.
pub open spec fn digit(d: nat) -> char {
    ((48 + d) as u8) as char
}

/// The names after each pair of `pairs`, in order, has given both its
/// members the decimal number of its place in the list.
pub open spec fn wired_names(pairs: Seq<(usize, usize)>, names: Seq<Seq<char>>) -> Seq<Seq<char>>
    decreases pairs.len(),
{
    if pairs.len() == 0 {
        names
    } else {
        let name = decimal((pairs.len() - 1) as nat);
        wired_names(pairs.drop_last(), names).update(pairs.last().0 as int, name).update(
            pairs.last().1 as int,
            name,
        )
    }
}

/// The net with its variables named by the place of their wire: the normal
/// form that all nets equal up to renaming share.
pub open spec fn normalized(net: NetView) -> NetView {
    net_renamed(net, wired_names(current_pairs(net_vars(net)), net_vars(net)))
}

/// Whether every payload of the active pairs can be written.
pub open spec fn redexes_encodable(redexes: Seq<(TreeView, TreeView)>) -> bool {
    forall|i: int|
        0 <= i < redexes.len() ==> tree_encodable((#[trigger] redexes[i]).0) && tree_encodable(
            redexes[i].1,
        )
}

/// A net is well formed when its variable occurrences pair up: walking them
/// in pre-order and joining each to the next occurrence of its name gives a
/// perfect matching of all of them. Every name then occurs exactly twice.
pub open spec fn well_formed(net: NetView) -> bool {
    &&& net_vars(net).len() == 2 * current_pairs(net_vars(net)).len()
    &&& is_matching(current_pairs(net_vars(net)))
}

/// Whether a net can be written: it is well formed, every payload of its
/// trees can be written, and the number of its active pairs has a gamma
/// code.
pub open spec fn net_encodable(net: NetView) -> bool {
    &&& tree_encodable(net.root)
    &&& redexes_encodable(net.redexes)
    &&& net.redexes.len() < u64::MAX
    &&& well_formed(net)
}

/// The bits of the active pairs: both trees of each, in order.
pub open spec fn redex_bits(redexes: Seq<(TreeView, TreeView)>, big: bool) -> Seq<bool>
    decreases redexes.len(),
{
    if redexes.len() == 0 {
        Seq::empty()
    } else {
        redex_bits(redexes.drop_last(), big) + tree_bits(redexes.last().0, big) + tree_bits(
            redexes.last().1,
            big,
        )
    }
}

/// The bits of a net: its root, the number of its active pairs as a gamma
/// code, the pairs, and the wiring of its variables.
#[verifier::opaque]
pub open spec fn net_bits(net: NetView, big: bool) -> Seq<bool> {
    tree_bits(net.root, big) + gamma_bits(net.redexes.len()) + redex_bits(net.redexes, big)
        + wiring_bits(current_pairs(net_vars(net)), big)
}

/// `parsed` after `done` has been read in `taken` bits before it.
pub open spec fn join_redexes(
    done: Seq<(TreeView, TreeView)>,
    taken: nat,
    parsed: Result<(Seq<(TreeView, TreeView)>, nat), DecodeError>,
) -> Result<(Seq<(TreeView, TreeView)>, nat), DecodeError> {
    match parsed {
        Ok((more, n)) => Ok((done + more, taken + n)),
        Err(e) => Err(e),
    }
}

/// The next `count` active pairs at the front of `bits`.
#[verifier::opaque]
pub open spec fn redexes_parse(bits: Seq<bool>, count: nat, big: bool) -> Result<
    (Seq<(TreeView, TreeView)>, nat),
    DecodeError,
>
    decreases count,
{
    if count == 0 {
        Ok((Seq::empty(), 0nat))
    } else {
        match tree_parse(bits, big) {
            Err(e) => Err(e),
            Ok((fst, n)) => match tree_parse(bits.skip(n as int), big) {
                Err(e) => Err(e),
                Ok((snd, m)) => join_redexes(
                    seq![(fst, snd)],
                    n + m,
                    redexes_parse(bits.skip(n as int + m as int), (count - 1) as nat, big),
                ),
            },
        }
    }
}

/// The net at the front of `bits`: the root, the active pairs, then the
/// wiring of as many pairs as half the variables, whose names it settles.
#[verifier::opaque]
pub open spec fn net_parse(bits: Seq<bool>, big: bool) -> Result<(NetView, nat), DecodeError> {
    match tree_parse(bits, big) {
        Err(e) => Err(e),
        Ok((root, a)) => match gamma_parse(bits.skip(a as int)) {
            Err(e) => Err(e),
            Ok((count, b)) => match redexes_parse(bits.skip(a as int + b as int), count, big) {
                Err(e) => Err(e),
                Ok((redexes, c)) => {
                    let raw = NetView { root, redexes };
                    let vars = net_vars(raw);
                    if vars.len() % 2 == 1 {
                        Err(DecodeError::OddVariableCount)
                    } else {
                        match wiring_parse(
                            bits.skip(a as int + b as int + c as int),
                            vars.len() / 2,
                            big,
                        ) {
                            Err(e) => Err(e),
                            Ok((pairs, d)) => Ok(
                                (net_renamed(raw, wired_names(pairs, vars)), a + b + c + d),
                            ),
                        }
                    }
                },
            },
        },
    }
}

/// Writes a number in decimal with `ToString::to_string`. Claimed: the
/// string holds the decimal digits of the number, most significant first,
/// without sign or padding.
#[verifier::external_body]
fn index_name(i: usize) -> (name: String)
    ensures
        name@ == decimal(i as nat),
{
    i.to_string()
}

/// Every pair joins an occurrence to a later one.
pub proof fn lemma_pairs_in_range(names: Seq<Seq<char>>, n: nat)
    requires
        n <= names.len() <= usize::MAX,
    ensures
        pairs_upto(names, n).len() <= n,
        forall|p: int|
            0 <= p < pairs_upto(names, n).len() ==> (#[trigger] pairs_upto(names, n)[p]).0
                < pairs_upto(names, n)[p].1 < names.len() && pairs_upto(names, n)[p].0 < n,
    decreases n,
{
    if n > 0 {
        lemma_pairs_in_range(names, (n - 1) as nat);
    }
}

impl Net {
    /// The names of the variables of the net, in pre-order.
    pub fn gather_vars(&self) -> (vars: Vec<String>)
        ensures
            names_view(vars@) == net_vars(self@),
    {
        let mut vars = Tree::gather_vars(&self.root);
        let mut i: usize = 0;
        while i < self.redexes.len()
            invariant
                i <= self.redexes.len(),
                names_view(vars@) == tree_vars(self.root@) + redex_vars(
                    redexes_view(self.redexes@).take(i as int),
                ),
            decreases self.redexes.len() - i,
        {
            let ghost before = vars@;
            let mut fst = Tree::gather_vars(&self.redexes[i].0);
            let mut snd = Tree::gather_vars(&self.redexes[i].1);
            let ghost left = fst@;
            let ghost right = snd@;
            vars.append(&mut fst);
            vars.append(&mut snd);
            proof {
                let all = redexes_view(self.redexes@);
                assert(all.take(i + 1).drop_last() =~= all.take(i as int));
                assert(names_view(before + left + right) =~= names_view(before) + names_view(left)
                    + names_view(right));
                assert(names_view(vars@) =~= tree_vars(self.root@) + redex_vars(all.take(i + 1)));
            }
            i += 1;
        }
        proof {
            let all = redexes_view(self.redexes@);
            assert(all.take(self.redexes.len() as int) =~= all);
        }
        vars
    }

    /// Gives both ends of the wire at place `p` of the wiring the name `p` in
    /// decimal, for every wire in order.
    pub fn apply_wiring(&mut self, wiring: Wiring)
        requires
            forall|p: int|
                0 <= p < wiring@.len() ==> (#[trigger] wiring@[p]).0 < net_vars(old(self)@).len()
                    && wiring@[p].1 < net_vars(old(self)@).len(),
        ensures
            final(self)@ == net_renamed(old(self)@, wired_names(wiring@, net_vars(old(self)@))),
    {
        let mut names = self.gather_vars();
        let ghost before = names_view(names@);
        let mut p: usize = 0;
        while p < wiring.connections.len()
            invariant
                p <= wiring@.len(),
                names@.len() == before.len(),
                forall|q: int|
                    0 <= q < wiring@.len() ==> (#[trigger] wiring@[q]).0 < before.len()
                        && wiring@[q].1 < before.len(),
                names_view(names@) == wired_names(wiring@.take(p as int), before),
            decreases wiring@.len() - p,
        {
            let (a, b) = wiring.connections[p];
            assert(wiring@[p as int].0 < before.len());
            names.set(a, index_name(p));
            names.set(b, index_name(p));
            proof {
                assert(wiring@.take(p + 1).drop_last() =~= wiring@.take(p as int));
                assert(names_view(names@) =~= wired_names(wiring@.take(p + 1), before));
            }
            p += 1;
        }
        assert(wiring@.take(wiring@.len() as int) =~= wiring@);
        let renamed = self.renamed(&names);
        *self = renamed;
    }

    /// A copy of the net whose variables, in pre-order, carry `names`.
    fn renamed(&self, names: &Vec<String>) -> (net: Net)
        requires
            net_vars(self@).len() <= names@.len(),
        ensures
            net@ == net_renamed(self@, names_view(names@)),
    {
        let ghost all = redexes_view(self.redexes@);
        let ghost labels = names_view(names@);
        let (root, first) = self.root.renamed(names, 0);
        let mut at: usize = first;
        let mut redexes: Vec<(Tree, Tree)> = Vec::new();
        let mut i: usize = 0;
        assert(all.take(0) =~= Seq::<(TreeView, TreeView)>::empty());
        while i < self.redexes.len()
            invariant
                i <= self.redexes.len(),
                all == redexes_view(self.redexes@),
                labels == names_view(names@),
                first == tree_vars(self.root@).len(),
                at == first + redex_vars(all.take(i as int)).len(),
                net_vars(self@).len() <= names@.len(),
                redexes@.len() == i,
                forall|k: int|
                    0 <= k < i ==> (#[trigger] redexes@[k]).0@ == redex_renamed(
                        all,
                        labels,
                        first as int,
                        k,
                    ).0 && redexes@[k].1@ == redex_renamed(all, labels, first as int, k).1,
            decreases self.redexes.len() - i,
        {
            proof {
                assert(all.take(i + 1).drop_last() =~= all.take(i as int));
                lemma_redex_vars_prefix(all, (i + 1) as nat);
            }
            let (fst, mid) = self.redexes[i].0.renamed(names, at);
            let (snd, end) = self.redexes[i].1.renamed(names, mid);
            redexes.push((fst, snd));
            at = end;
            i += 1;
        }
        let net = Net { root, redexes };
        assert(net@.redexes =~= net_renamed(self@, labels).redexes);
        net
    }

    /// The wiring that the names of the variables spell: each occurrence
    /// paired with the next occurrence of its name.
    pub fn get_current_wiring(&self) -> (wiring: Wiring)
        ensures
            wiring@ == current_pairs(net_vars(self@)),
            forall|p: int|
                0 <= p < wiring@.len() ==> (#[trigger] wiring@[p]).0 < wiring@[p].1 < net_vars(
                    self@,
                ).len(),
    {
        let names = self.gather_vars();
        let ghost labels = names_view(names@);
        proof {
            assert(labels.len() == names.len());
            lemma_pairs_in_range(labels, labels.len());
        }
        let mut connections: Vec<(usize, usize)> = Vec::new();
        let mut i: usize = 0;
        while i < names.len()
            invariant
                i <= names.len(),
                labels == names_view(names@),
                connections@ == pairs_upto(labels, i as nat),
            decreases names.len() - i,
        {
            let mut j: usize = i + 1;
            assert(labels.skip(i + 1).skip(0) =~= labels.skip(i + 1));
            while j < names.len() && names[j] != names[i]
                invariant
                    i < j <= names.len(),
                    labels == names_view(names@),
                    next_same(labels, i as int) == j + first_index(
                        labels.skip(j as int),
                        labels[i as int],
                    ),
                decreases names.len() - j,
            {
                assert(labels.skip(j as int).skip(1) =~= labels.skip(j + 1));
                j += 1;
            }
            if j < names.len() {
                connections.push((i, j));
            }
            i += 1;
        }
        Wiring { connections }
    }

    /// Whether the variables of the net pair up, every name occurring
    /// exactly twice.
    pub fn is_well_formed(&self) -> (ok: bool)
        ensures
            ok == well_formed(self@),
    {
        let occurrences = self.gather_vars().len();
        let wiring = self.get_current_wiring();
        wiring.is_canonical() && occurrences == 2 * wiring.connections.len()
    }

    /// Whether the net can be written: it is well formed, and no reference
    /// name in it holds a zero byte.
    pub fn is_encodable(&self) -> (ok: bool)
        ensures
            ok == self.encodable(),
    {
        if !self.root.is_encodable() {
            return false;
        }
        let ghost all = redexes_view(self.redexes@);
        let mut i: usize = 0;
        while i < self.redexes.len()
            invariant
                i <= self.redexes.len(),
                all == redexes_view(self.redexes@),
                forall|k: int|
                    0 <= k < i ==> tree_encodable((#[trigger] all[k]).0) && tree_encodable(all[k].1),
            decreases self.redexes.len() - i,
        {
            if !self.redexes[i].0.is_encodable() || !self.redexes[i].1.is_encodable() {
                assert(!(tree_encodable(all[i as int].0) && tree_encodable(all[i as int].1)));
                return false;
            }
            i += 1;
        }
        if self.redexes.len() as u64 == u64::MAX {
            return false;
        }
        self.is_well_formed()
    }

    /// The net with its variables named by the place of their wire.
    pub fn normalize(self) -> (net: Net)
        ensures
            net@ == normalized(self@),
    {
        let mut net = self;
        let wiring = net.get_current_wiring();
        net.apply_wiring(wiring);
        net
    }
}

/// The variables of the first pairs are among those of all pairs.
pub proof fn lemma_redex_vars_prefix(redexes: Seq<(TreeView, TreeView)>, k: nat)
    requires
        k <= redexes.len(),
    ensures
        redex_vars(redexes.take(k as int)).len() <= redex_vars(redexes).len(),
    decreases redexes.len() - k,
{
    if k < redexes.len() {
        lemma_redex_vars_prefix(redexes, k + 1);
        assert(redexes.take(k as int + 1).drop_last() =~= redexes.take(k as int));
    } else {
        assert(redexes.take(k as int) =~= redexes);
    }
}

impl BitWrite for Net {
    open spec fn encodable(&self) -> bool {
        net_encodable(self@)
    }

    open spec fn bits(&self, big: bool) -> Seq<bool> {
        net_bits(self@, big)
    }

    fn write(&self, stream: &mut BitWriter) {
        reveal(net_bits);
        let ghost start = stream@;
        let ghost big = stream.big();
        let ghost all = redexes_view(self.redexes@);
        self.root.write(stream);
        let count = VarLenNumber(self.redexes.len() as u64);
        count.write(stream);
        let ghost head = stream@;
        let mut i: usize = 0;
        while i < self.redexes.len()
            invariant
                i <= self.redexes.len(),
                all == redexes_view(self.redexes@),
                redexes_encodable(all),
                stream.big() == big,
                stream@ == head + redex_bits(all.take(i as int), big),
            decreases self.redexes.len() - i,
        {
            assert(all.take(i + 1).drop_last() =~= all.take(i as int));
            assert(tree_encodable(all[i as int].0) && tree_encodable(all[i as int].1));
            self.redexes[i].0.write(stream);
            self.redexes[i].1.write(stream);
            i += 1;
            assert(stream@ =~= head + redex_bits(all.take(i as int), big));
        }
        assert(all.take(self.redexes.len() as int) =~= all);
        let wiring = self.get_current_wiring();
        wiring.write(stream);
        assert(stream@ =~= start + net_bits(self@, big));
    }
}

impl BitRead for Net {
    open spec fn parse(bits: Seq<bool>, big: bool) -> Result<(NetView, nat), DecodeError> {
        net_parse(bits, big)
    }

    #[verifier::rlimit(100)]
    fn read(stream: &mut BitReader) -> (result: Result<Self, DecodeError>)
        ensures
            match result {
                Ok(net) => well_formed(net@) && normalized(net@) == net@,
                Err(_) => true,
            },
    {
        reveal(net_parse);
        let ghost orig = stream.remaining();
        let ghost big = stream.big();
        let root = match Tree::read(stream) {
            Ok(root) => root,
            Err(e) => {
                return Err(e);
            },
        };
        let ghost a = tree_parse(orig, big)->Ok_0.1;
        let count = match VarLenNumber::read(stream) {
            Ok(count) => count.0,
            Err(e) => {
                return Err(e);
            },
        };
        let ghost b = gamma_parse(orig.skip(a as int))->Ok_0.1;
        assert(orig.skip(a as int).skip(b as int) =~= orig.skip(a as int + b as int));
        let ghost body = stream.remaining();
        let redexes = match Self::read_redexes(stream, count) {
            Ok(redexes) => redexes,
            Err(e) => {
                return Err(e);
            },
        };
        let ghost c = redexes_parse(body, count as nat, big)->Ok_0.1;
        assert(body.skip(c as int) =~= orig.skip(a as int + b as int + c as int));
        let mut net = Net { root, redexes };
        let vars = net.gather_vars().len();
        if vars % 2 == 1 {
            return Err(DecodeError::OddVariableCount);
        }
        let ghost tail = stream.remaining();
        let wiring = match Wiring::read(stream, vars / 2) {
            Ok(wiring) => wiring,
            Err(e) => {
                return Err(e);
            },
        };
        let ghost d = wiring_parse(tail, (vars / 2) as nat, big)->Ok_0.1;
        assert(tail.skip(d as int) =~= orig.skip(a as int + b as int + c as int + d as int));
        net.apply_wiring(wiring);
        proof {
            lemma_decoded_net_is_normal(orig, big);
        }
        Ok(net)
    }
}

impl Net {
    #[verifier::rlimit(100)]
    fn read_redexes(stream: &mut BitReader, count: u64) -> (result: Result<
        Vec<(Tree, Tree)>,
        DecodeError,
    >)
        ensures
            final(stream).big() == old(stream).big(),
            match (result, redexes_parse(old(stream).remaining(), count as nat, old(stream).big())) {
                (Ok(redexes), Ok((model, taken))) => redexes_view(redexes@) == model && taken <= old(
                    stream,
                ).remaining().len() && final(stream).remaining() == old(
                    stream,
                ).remaining().skip(taken as int),
                (Err(e), Err(expected)) => e == expected,
                _ => false,
            },
    {
        reveal(redexes_parse);
        let ghost orig = stream.remaining();
        let ghost big = stream.big();
        let mut redexes: Vec<(Tree, Tree)> = Vec::new();
        let ghost mut taken: nat = 0;
        let mut i: u64 = 0;
        assert(orig.skip(0) =~= orig);
        assert(Seq::<(TreeView, TreeView)>::empty() + redexes_view(redexes@) =~= redexes_view(
            redexes@,
        ));
        while i < count
            invariant
                i <= count,
                stream.big() == big,
                big == old(stream).big(),
                orig == old(stream).remaining(),
                taken <= orig.len(),
                stream.remaining() == orig.skip(taken as int),
                redexes_parse(orig, count as nat, big) == join_redexes(
                    redexes_view(redexes@),
                    taken,
                    redexes_parse(stream.remaining(), (count - i) as nat, big),
                ),
            decreases count - i,
        {
            reveal(redexes_parse);
            let ghost rest = stream.remaining();
            let ghost done = redexes_view(redexes@);
            let fst = match Tree::read(stream) {
                Ok(fst) => fst,
                Err(e) => {
                    return Err(e);
                },
            };
            let ghost n = tree_parse(rest, big)->Ok_0.1;
            let snd = match Tree::read(stream) {
                Ok(snd) => snd,
                Err(e) => {
                    return Err(e);
                },
            };
            let ghost m = tree_parse(rest.skip(n as int), big)->Ok_0.1;
            redexes.push((fst, snd));
            i += 1;
            proof {
                assert(rest.skip(n as int).skip(m as int) =~= rest.skip(n as int + m as int));
                assert(orig.skip(taken as int).skip(n as int + m as int) =~= orig.skip(
                    taken as int + n as int + m as int,
                ));
                let next = redexes_parse(stream.remaining(), (count - i) as nat, big);
                if let Ok((more, k)) = next {
                    assert(done + (seq![(fst@, snd@)] + more) =~= redexes_view(redexes@) + more);
                }
                taken = taken + n + m;
            }
        }
        reveal(redexes_parse);
        assert(redexes_view(redexes@) + Seq::<(TreeView, TreeView)>::empty() =~= redexes_view(
            redexes@,
        ));
        Ok(redexes)
    }
}

/// The net with every variable under the placeholder name: what is left of
/// it in the bits of its trees.
pub open spec fn net_blank(net: NetView) -> NetView {
    NetView { root: tree_blank(net.root), redexes: redexes_blank(net.redexes) }
}

/// The active pairs with every variable under the placeholder name.
pub open spec fn redexes_blank(redexes: Seq<(TreeView, TreeView)>) -> Seq<(TreeView, TreeView)> {
    Seq::new(redexes.len(), |i: int| (tree_blank(redexes[i].0), tree_blank(redexes[i].1)))
}

/// Two lists of names that are equal at the same places.
pub open spec fn same_pattern(a: Seq<Seq<char>>, b: Seq<Seq<char>>) -> bool {
    &&& a.len() == b.len()
    &&& forall|i: int, j: int|
        #![trigger a[i], a[j]]
        0 <= i < a.len() && 0 <= j < a.len() ==> (a[i] == a[j]) == (b[i] == b[j])
}

/// Blanking a tree keeps the number of its variables.
pub proof fn lemma_blank_vars(tree: TreeView)
    ensures
        tree_vars(tree_blank(tree)).len() == tree_vars(tree).len(),
    decreases tree,
{
    match tree {
        TreeView::Bin(_, fst, snd) => {
            lemma_blank_vars(*fst);
            lemma_blank_vars(*snd);
        },
        _ => {},
    }
}

/// Renaming a tree does not look at the names it had.
pub proof fn lemma_renamed_blank(tree: TreeView, names: Seq<Seq<char>>, start: int)
    ensures
        tree_renamed(tree_blank(tree), names, start) == tree_renamed(tree, names, start),
    decreases tree,
{
    match tree {
        TreeView::Bin(_, fst, snd) => {
            lemma_blank_vars(*fst);
            lemma_renamed_blank(*fst, names, start);
            lemma_renamed_blank(*snd, names, start + tree_vars(*fst).len());
        },
        _ => {},
    }
}

/// Blanking the active pairs keeps the number of their variables.
pub proof fn lemma_redexes_blank_vars(redexes: Seq<(TreeView, TreeView)>)
    ensures
        redex_vars(redexes_blank(redexes)).len() == redex_vars(redexes).len(),
    decreases redexes.len(),
{
    if redexes.len() > 0 {
        assert(redexes_blank(redexes).drop_last() =~= redexes_blank(redexes.drop_last()));
        lemma_redexes_blank_vars(redexes.drop_last());
        lemma_blank_vars(redexes.last().0);
        lemma_blank_vars(redexes.last().1);
    }
}

/// Renaming a net does not look at the names it had.
#[verifier::rlimit(50)]
pub proof fn lemma_net_renamed_blank(net: NetView, names: Seq<Seq<char>>)
    ensures
        net_renamed(net_blank(net), names) == net_renamed(net, names),
        net_vars(net_blank(net)).len() == net_vars(net).len(),
{
    let blank = net_blank(net);
    let start = tree_vars(net.root).len() as int;
    lemma_blank_vars(net.root);
    lemma_redexes_blank_vars(net.redexes);
    lemma_renamed_blank(net.root, names, 0);
    assert forall|i: int| 0 <= i < net.redexes.len() implies redex_renamed(
        blank.redexes,
        names,
        start,
        i,
    ) == redex_renamed(net.redexes, names, start, i) by {
        assert(blank.redexes.take(i) =~= redexes_blank(net.redexes.take(i)));
        lemma_redexes_blank_vars(net.redexes.take(i));
        lemma_blank_vars(net.redexes[i].0);
        let at = start + redex_vars(net.redexes.take(i)).len();
        lemma_renamed_blank(net.redexes[i].0, names, at);
        lemma_renamed_blank(net.redexes[i].1, names, at + tree_vars(net.redexes[i].0).len());
    }
    assert(net_renamed(blank, names).redexes =~= net_renamed(net, names).redexes);
}

/// The bits of the active pairs start with the bits of the first pair.
#[verifier::rlimit(50)]
pub proof fn lemma_redex_bits_front(redexes: Seq<(TreeView, TreeView)>, big: bool)
    requires
        redexes.len() > 0,
    ensures
        redex_bits(redexes, big) == tree_bits(redexes[0].0, big) + tree_bits(redexes[0].1, big)
            + redex_bits(redexes.skip(1), big),
    decreases redexes.len(),
{
    let front = redexes.drop_last();
    let first = tree_bits(redexes[0].0, big) + tree_bits(redexes[0].1, big);
    if redexes.len() == 1 {
        assert(redexes.skip(1) =~= Seq::<(TreeView, TreeView)>::empty());
        assert(front =~= Seq::<(TreeView, TreeView)>::empty());
        assert(redex_bits(redexes, big) =~= first + redex_bits(redexes.skip(1), big));
    } else {
        lemma_redex_bits_front(front, big);
        assert(redexes.skip(1).drop_last() =~= front.skip(1));
        assert(redex_bits(redexes, big) =~= first + redex_bits(redexes.skip(1), big));
    }
}

/// What `redexes_parse` makes of a first pair and the pairs after it, once
/// those are known to parse.
proof fn lemma_parse_redexes(
    bits: Seq<bool>,
    count: nat,
    big: bool,
    fst: TreeView,
    n: nat,
    snd: TreeView,
    m: nat,
    more: Seq<(TreeView, TreeView)>,
    k: nat,
)
    requires
        count > 0,
        tree_parse(bits, big) == Ok::<(TreeView, nat), DecodeError>((fst, n)),
        tree_parse(bits.skip(n as int), big) == Ok::<(TreeView, nat), DecodeError>((snd, m)),
        redexes_parse(bits.skip(n as int + m as int), (count - 1) as nat, big) == Ok::<
            (Seq<(TreeView, TreeView)>, nat),
            DecodeError,
        >((more, k)),
    ensures
        redexes_parse(bits, count, big) == Ok::<(Seq<(TreeView, TreeView)>, nat), DecodeError>(
            (seq![(fst, snd)] + more, n + m + k),
        ),
{
    reveal(redexes_parse);
}

/// The active pairs are read back from their bits, whatever follows them,
/// with every variable under the placeholder name.
#[verifier::rlimit(100)]
#[verifier::spinoff_prover]
pub proof fn lemma_redexes_round_trip(redexes: Seq<(TreeView, TreeView)>, big: bool, rest: Seq<bool>)
    requires
        redexes_encodable(redexes),
    ensures
        redexes_parse(redex_bits(redexes, big) + rest, redexes.len(), big) == Ok::<
            (Seq<(TreeView, TreeView)>, nat),
            DecodeError,
        >((redexes_blank(redexes), redex_bits(redexes, big).len())),
    decreases redexes.len(),
{
    let bits = redex_bits(redexes, big) + rest;
    if redexes.len() == 0 {
        reveal(redexes_parse);
        assert(redexes_blank(redexes) =~= Seq::<(TreeView, TreeView)>::empty());
    } else {
        let left = tree_bits(redexes[0].0, big);
        let right = tree_bits(redexes[0].1, big);
        let tail = redexes.skip(1);
        let more = redex_bits(tail, big);
        lemma_redex_bits_front(redexes, big);
        assert(tree_encodable(redexes[0].0) && tree_encodable(redexes[0].1));
        assert forall|i: int| 0 <= i < tail.len() implies tree_encodable((#[trigger] tail[i]).0)
            && tree_encodable(tail[i].1) by {
            assert(tail[i] == redexes[i + 1]);
        }
        lemma_tree_round_trip(redexes[0].0, big, right + more + rest);
        lemma_tree_round_trip(redexes[0].1, big, more + rest);
        lemma_redexes_round_trip(tail, big, rest);
        assert(bits == left + (right + more + rest)) by {
            assert(bits =~= left + (right + more + rest));
        }
        assert(bits.skip(left.len() as int) == right + (more + rest)) by {
            assert(bits.skip(left.len() as int) =~= right + (more + rest));
        }
        assert(bits.skip(left.len() as int + right.len() as int) == more + rest) by {
            assert(bits.skip(left.len() as int + right.len() as int) =~= more + rest);
        }
        assert(seq![(tree_blank(redexes[0].0), tree_blank(redexes[0].1))] + redexes_blank(tail)
            == redexes_blank(redexes)) by {
            assert(seq![(tree_blank(redexes[0].0), tree_blank(redexes[0].1))] + redexes_blank(
                tail,
            ) =~= redexes_blank(redexes));
        }
        lemma_parse_redexes(
            bits,
            redexes.len(),
            big,
            tree_blank(redexes[0].0),
            left.len(),
            tree_blank(redexes[0].1),
            right.len(),
            redexes_blank(tail),
            more.len(),
        );
    }
}

/// Where every place is one end of a wire, the names after wiring do not
/// depend on the names before: up to the first `p` wires, on the places that
/// these touch.
pub proof fn lemma_wired_names_upto(
    pairs: Seq<(usize, usize)>,
    a: Seq<Seq<char>>,
    b: Seq<Seq<char>>,
    p: int,
)
    requires
        0 <= p <= pairs.len(),
        a.len() == b.len(),
        forall|q: int|
            0 <= q < pairs.len() ==> (#[trigger] pairs[q]).0 < a.len() && pairs[q].1 < a.len(),
    ensures
        wired_names(pairs.take(p), a).len() == a.len(),
        wired_names(pairs.take(p), b).len() == a.len(),
        forall|i: int|
            0 <= i < a.len() && touched_before(pairs, p, i) ==> wired_names(pairs.take(p), a)[i]
                == wired_names(pairs.take(p), b)[i],
    decreases p,
{
    if p > 0 {
        let q = p - 1;
        lemma_wired_names_upto(pairs, a, b, q);
        assert(pairs.take(p).drop_last() =~= pairs.take(q));
        assert(pairs.take(p).last() == pairs[q]);
        assert forall|i: int| 0 <= i < a.len() && touched_before(pairs, p, i) implies wired_names(
            pairs.take(p),
            a,
        )[i] == wired_names(pairs.take(p), b)[i] by {
            if !touches(pairs[q], i) {
                let r = choose|r: int| 0 <= r < p && touches(#[trigger] pairs[r], i);
                assert(touches(pairs[r], i));
                assert(touched_before(pairs, q, i));
            }
        }
    }
}

/// Where the wires are a perfect matching of the places, the names after
/// wiring do not depend on the names before.
pub proof fn lemma_wired_names_cover(pairs: Seq<(usize, usize)>, a: Seq<Seq<char>>, b: Seq<Seq<char>>)
    requires
        is_matching(pairs),
        a.len() == 2 * pairs.len(),
        b.len() == 2 * pairs.len(),
    ensures
        wired_names(pairs, a) == wired_names(pairs, b),
{
    lemma_wired_names_upto(pairs, a, b, pairs.len() as int);
    assert(pairs.take(pairs.len() as int) =~= pairs);
    assert forall|i: int| 0 <= i < a.len() implies wired_names(pairs, a)[i] == wired_names(
        pairs,
        b,
    )[i] by {
        assert(covered(pairs, i));
        let q = choose|q: int| 0 <= q < pairs.len() && touches(#[trigger] pairs[q], i);
        assert(touches(pairs[q], i));
        assert(touched_before(pairs, pairs.len() as int, i));
    }
    assert(wired_names(pairs, a) =~= wired_names(pairs, b));
}

/// What `net_parse` makes of the four parts of a net, once each is known to
/// parse.
proof fn lemma_parse_net(
    bits: Seq<bool>,
    big: bool,
    raw: NetView,
    a: nat,
    b: nat,
    c: nat,
    pairs: Seq<(usize, usize)>,
    d: nat,
)
    requires
        tree_parse(bits, big) == Ok::<(TreeView, nat), DecodeError>((raw.root, a)),
        gamma_parse(bits.skip(a as int)) == Ok::<(nat, nat), DecodeError>((raw.redexes.len(), b)),
        redexes_parse(bits.skip(a as int + b as int), raw.redexes.len(), big) == Ok::<
            (Seq<(TreeView, TreeView)>, nat),
            DecodeError,
        >((raw.redexes, c)),
        net_vars(raw).len() % 2 == 0,
        wiring_parse(
            bits.skip(a as int + b as int + c as int),
            net_vars(raw).len() / 2,
            big,
        ) == Ok::<(Seq<(usize, usize)>, nat), DecodeError>((pairs, d)),
    ensures
        net_parse(bits, big) == Ok::<(NetView, nat), DecodeError>(
            (net_renamed(raw, wired_names(pairs, net_vars(raw))), a + b + c + d),
        ),
{
    reveal(net_parse);
    assert(raw == NetView { root: raw.root, redexes: raw.redexes });
}

/// Where each of four parts starts in their concatenation with a rest.
proof fn lemma_four_parts(
    a: Seq<bool>,
    b: Seq<bool>,
    c: Seq<bool>,
    d: Seq<bool>,
    rest: Seq<bool>,
)
    ensures
        a + b + c + d + rest == a + (b + c + d + rest),
        (a + b + c + d + rest).skip(a.len() as int) == b + (c + d + rest),
        (a + b + c + d + rest).skip(a.len() as int + b.len() as int) == c + (d + rest),
        (a + b + c + d + rest).skip(a.len() as int + b.len() as int + c.len() as int) == d + rest,
        (a + b + c + d).len() == a.len() + b.len() + c.len() + d.len(),
{
    let all = a + b + c + d + rest;
    assert(all =~= a + (b + c + d + rest));
    assert(all.skip(a.len() as int) =~= b + (c + d + rest));
    assert(all.skip(a.len() as int + b.len() as int) =~= c + (d + rest));
    assert(all.skip(a.len() as int + b.len() as int + c.len() as int) =~= d + rest);
}

/// Decoding what was encoded gives the normal form: a well-formed net whose
/// payloads can be written is read back from its bits, whatever follows
/// them, with its variables named by the place of their wire.
#[verifier::rlimit(100)]
#[verifier::spinoff_prover]
pub proof fn lemma_net_round_trip(net: NetView, big: bool, rest: Seq<bool>)
    requires
        net_encodable(net),
    ensures
        net_parse(net_bits(net, big) + rest, big) == Ok::<(NetView, nat), DecodeError>(
            (normalized(net), net_bits(net, big).len()),
        ),
{
    let names = net_vars(net);
    let pairs = current_pairs(names);
    let root = tree_bits(net.root, big);
    let count = gamma_bits(net.redexes.len());
    let body = redex_bits(net.redexes, big);
    let wires = wiring_bits(pairs, big);
    let bits = net_bits(net, big) + rest;
    let raw = net_blank(net);
    assert(bits == root + count + body + wires + rest) by {
        reveal(net_bits);
    }
    assert(net_bits(net, big).len() == (root + count + body + wires).len()) by {
        reveal(net_bits);
    }
    lemma_four_parts(root, count, body, wires, rest);
    lemma_tree_round_trip(net.root, big, count + body + wires + rest);
    assert(net.redexes.len() + 1 < crate::stream::pow2(64)) by {
        crate::stream::lemma_pow2_64();
    }
    crate::scalars::lemma_gamma_round_trip(net.redexes.len(), body + wires + rest);
    lemma_redexes_round_trip(net.redexes, big, wires + rest);
    crate::wiring::lemma_wiring_round_trip(pairs, big, rest);
    lemma_net_renamed_blank(net, wired_names(pairs, names));
    lemma_wired_names_cover(pairs, net_vars(raw), names);
    assert(net_vars(raw).len() / 2 == pairs.len());
    assert(raw.redexes.len() == net.redexes.len());
    lemma_parse_net(bits, big, raw, root.len(), count.len(), body.len(), pairs, wires.len());
}

/// Whether a name at `i` comes again at or after `from` depends only on
/// where names are equal.
pub proof fn lemma_first_index_pattern(a: Seq<Seq<char>>, b: Seq<Seq<char>>, i: int, from: int)
    requires
        same_pattern(a, b),
        0 <= i < from <= a.len(),
    ensures
        first_index(a.skip(from), a[i]) == first_index(b.skip(from), b[i]),
    decreases a.len() - from,
{
    if from < a.len() {
        assert(a.skip(from)[0] == a[from]);
        assert(b.skip(from)[0] == b[from]);
        assert((a[i] == a[from]) == (b[i] == b[from]));
        assert(a.skip(from).skip(1) =~= a.skip(from + 1));
        assert(b.skip(from).skip(1) =~= b.skip(from + 1));
        lemma_first_index_pattern(a, b, i, from + 1);
    }
}

/// The wiring that names spell depends only on where they are equal.
pub proof fn lemma_pairs_pattern(a: Seq<Seq<char>>, b: Seq<Seq<char>>, n: nat)
    requires
        same_pattern(a, b),
        n <= a.len(),
    ensures
        pairs_upto(a, n) == pairs_upto(b, n),
    decreases n,
{
    if n > 0 {
        lemma_pairs_pattern(a, b, (n - 1) as nat);
        lemma_first_index_pattern(a, b, n - 1, n as int);
    }
}

/// Two nets that differ only by a consistent renaming of their variables,
/// the first of them well formed, have the same normal form, and so the
/// same bits once normalized.
pub proof fn lemma_renaming_invariance(first: NetView, second: NetView, big: bool)
    requires
        well_formed(first),
        net_blank(first) == net_blank(second),
        same_pattern(net_vars(first), net_vars(second)),
    ensures
        normalized(first) == normalized(second),
        net_bits(normalized(first), big) == net_bits(normalized(second), big),
        net_bits(first, big) == net_bits(second, big),
{
    reveal(net_bits);
    let a = net_vars(first);
    let b = net_vars(second);
    let pairs = current_pairs(a);
    lemma_pairs_pattern(a, b, a.len());
    lemma_wired_names_cover(pairs, a, b);
    lemma_net_renamed_blank(first, wired_names(pairs, a));
    lemma_net_renamed_blank(second, wired_names(pairs, a));
    lemma_blank_bits(first.root, big);
    lemma_blank_bits(second.root, big);
    lemma_redexes_blank_bits(first.redexes, big);
    lemma_redexes_blank_bits(second.redexes, big);
    assert(first.redexes.len() == redexes_blank(first.redexes).len());
    assert(second.redexes.len() == redexes_blank(second.redexes).len());
}

/// The bits of a tree do not tell the names of its variables.
pub proof fn lemma_blank_bits(tree: TreeView, big: bool)
    ensures
        tree_bits(tree_blank(tree), big) == tree_bits(tree, big),
    decreases tree,
{
    reveal(tree_bits);
    match tree {
        TreeView::Bin(_, fst, snd) => {
            lemma_blank_bits(*fst, big);
            lemma_blank_bits(*snd, big);
        },
        _ => {},
    }
}

/// The bits of the active pairs do not tell the names of their variables.
pub proof fn lemma_redexes_blank_bits(redexes: Seq<(TreeView, TreeView)>, big: bool)
    ensures
        redex_bits(redexes_blank(redexes), big) == redex_bits(redexes, big),
    decreases redexes.len(),
{
    if redexes.len() > 0 {
        assert(redexes_blank(redexes).drop_last() =~= redexes_blank(redexes.drop_last()));
        lemma_redexes_blank_bits(redexes.drop_last(), big);
        lemma_blank_bits(redexes.last().0, big);
        lemma_blank_bits(redexes.last().1, big);
    }
}

/// Where a name first stands: before that place it does not stand, and at
/// that place, if the place is in the list, it does.
pub proof fn lemma_first_index_found(names: Seq<Seq<char>>, name: Seq<char>)
    ensures
        first_index(names, name) <= names.len(),
        first_index(names, name) < names.len() ==> names[first_index(names, name) as int] == name,
        forall|j: int| 0 <= j < first_index(names, name) ==> names[j] != name,
    decreases names.len(),
{
    if names.len() > 0 && names[0] != name {
        let tail = names.skip(1);
        lemma_first_index_found(tail, name);
        assert forall|j: int| 0 <= j < first_index(names, name) implies names[j] != name by {
            if j > 0 {
                assert(tail[j - 1] == names[j]);
            }
        }
    }
}

/// The next occurrence of the name at `i` carries that name, and no place
/// between the two does.
pub proof fn lemma_next_same(names: Seq<Seq<char>>, i: int)
    requires
        0 <= i < names.len(),
    ensures
        i < next_same(names, i) <= names.len(),
        next_same(names, i) < names.len() ==> names[next_same(names, i)] == names[i],
        forall|j: int| i < j < next_same(names, i) ==> names[j] != names[i],
{
    let tail = names.skip(i + 1);
    lemma_first_index_found(tail, names[i]);
    assert forall|j: int| i < j < next_same(names, i) implies names[j] != names[i] by {
        assert(tail[j - i - 1] == names[j]);
    }
    if next_same(names, i) < names.len() {
        assert(tail[first_index(tail, names[i]) as int] == names[next_same(names, i)]);
    }
}

/// Every pair joins a place to the next occurrence of its name.
pub proof fn lemma_pairs_sound(names: Seq<Seq<char>>, n: nat)
    requires
        n <= names.len() <= usize::MAX,
    ensures
        forall|q: int|
            0 <= q < pairs_upto(names, n).len() ==> (#[trigger] pairs_upto(names, n)[q]).1
                == next_same(names, pairs_upto(names, n)[q].0 as int) && pairs_upto(names, n)[q].0
                < n,
    decreases n,
{
    if n > 0 {
        let before = pairs_upto(names, (n - 1) as nat);
        let all = pairs_upto(names, n);
        lemma_pairs_sound(names, (n - 1) as nat);
        lemma_next_same(names, n - 1);
        assert forall|q: int| 0 <= q < all.len() implies (#[trigger] all[q]).1 == next_same(
            names,
            all[q].0 as int,
        ) && all[q].0 < n by {
            if q < before.len() {
                assert(all[q] == before[q]);
            } else {
                assert(all[q] == ((n - 1) as usize, next_same(names, n - 1) as usize));
            }
        }
    }
}

/// Every place whose name comes again starts a pair.
pub proof fn lemma_pairs_complete(names: Seq<Seq<char>>, n: nat, i: int) -> (q: int)
    requires
        0 <= i < n <= names.len() <= usize::MAX,
        next_same(names, i) < names.len(),
    ensures
        0 <= q < pairs_upto(names, n).len(),
        pairs_upto(names, n)[q] == (i as usize, next_same(names, i) as usize),
    decreases n,
{
    if i == n - 1 {
        pairs_upto(names, (n - 1) as nat).len() as int
    } else {
        lemma_pairs_complete(names, (n - 1) as nat, i)
    }
}

/// Different numbers have different decimal digits.
pub proof fn lemma_decimal_injective(a: nat, b: nat)
    requires
        decimal(a) == decimal(b),
    ensures
        a == b,
    decreases a,
{
    lemma_decimal_len(a);
    lemma_decimal_len(b);
    if a < 10 {
        assert(decimal(a)[0] == digit(a));
        assert(decimal(b)[0] == digit(b));
    } else {
        assert(decimal(a).drop_last() =~= decimal(a / 10));
        assert(decimal(b).drop_last() =~= decimal(b / 10));
        assert(decimal(a).last() == digit(a % 10));
        assert(decimal(b).last() == digit(b % 10));
        lemma_decimal_injective(a / 10, b / 10);
    }
}

/// A number below ten has one digit, any other has more.
pub proof fn lemma_decimal_len(n: nat)
    ensures
        decimal(n).len() >= 1,
        n >= 10 ==> decimal(n).len() >= 2,
    decreases n,
{
    if n >= 10 {
        lemma_decimal_len(n / 10);
    }
}

/// In a matching no place is in two pairs.
pub proof fn lemma_touch_unique(pairs: Seq<(usize, usize)>, q: int, r: int, i: int)
    requires
        is_matching(pairs),
        0 <= q < pairs.len(),
        0 <= r < pairs.len(),
        touches(pairs[q], i),
        touches(pairs[r], i),
    ensures
        q == r,
{
    if q < r {
        assert(!touches(pairs[q], pairs[r].0 as int) && !touches(pairs[q], pairs[r].1 as int));
    }
    if r < q {
        assert(!touches(pairs[r], pairs[q].0 as int) && !touches(pairs[r], pairs[q].1 as int));
    }
}

/// After the first `p` wires of a matching, both ends of wire `q` among
/// them carry the decimal number `q`.
pub proof fn lemma_wired_value(
    pairs: Seq<(usize, usize)>,
    names: Seq<Seq<char>>,
    p: int,
    q: int,
    i: int,
)
    requires
        is_matching(pairs),
        names.len() == 2 * pairs.len(),
        0 <= q < p <= pairs.len(),
        touches(pairs[q], i),
    ensures
        wired_names(pairs.take(p), names).len() == names.len(),
        wired_names(pairs.take(p), names)[i] == decimal(q as nat),
    decreases p,
{
    let last = p - 1;
    assert(pairs.take(p).drop_last() =~= pairs.take(last));
    assert(pairs.take(p).last() == pairs[last]);
    lemma_wired_names_upto(pairs, names, names, last);
    if q < last {
        lemma_wired_value(pairs, names, last, q, i);
        assert(!touches(pairs[q], pairs[last].0 as int) && !touches(
            pairs[q],
            pairs[last].1 as int,
        ));
    }
}

/// In a well-formed list of names, two places with one name are the two
/// ends of one wire.
pub proof fn lemma_same_name_same_pair(names: Seq<Seq<char>>, i: int, j: int) -> (q: int)
    requires
        names.len() <= usize::MAX,
        is_matching(current_pairs(names)),
        0 <= i < j < names.len(),
        names[i] == names[j],
    ensures
        0 <= q < current_pairs(names).len(),
        current_pairs(names)[q] == (i as usize, j as usize),
{
    let pairs = current_pairs(names);
    lemma_next_same(names, i);
    let y = next_same(names, i);
    let q = lemma_pairs_complete(names, names.len(), i);
    if y < j {
        lemma_next_same(names, y);
        let r = lemma_pairs_complete(names, names.len(), y);
        assert(touches(pairs[q], y));
        assert(touches(pairs[r], y));
        lemma_touch_unique(pairs, q, r, y);
    }
    q
}

/// Normalizing a well-formed net keeps its names equal at the same places.
#[verifier::rlimit(50)]
pub proof fn lemma_wired_pattern(names: Seq<Seq<char>>)
    requires
        names.len() <= usize::MAX,
        names.len() == 2 * current_pairs(names).len(),
        is_matching(current_pairs(names)),
    ensures
        same_pattern(names, wired_names(current_pairs(names), names)),
{
    let pairs = current_pairs(names);
    let after = wired_names(pairs, names);
    let k = pairs.len() as int;
    assert(pairs.take(k) =~= pairs);
    lemma_wired_names_upto(pairs, names, names, k);
    lemma_pairs_sound(names, names.len());
    assert forall|i: int, j: int|
        #![trigger names[i], names[j]]
        0 <= i < names.len() && 0 <= j < names.len() implies (names[i] == names[j]) == (after[i]
        == after[j]) by {
        assert(covered(pairs, i));
        assert(covered(pairs, j));
        let qi = choose|q: int| 0 <= q < pairs.len() && touches(#[trigger] pairs[q], i);
        let qj = choose|q: int| 0 <= q < pairs.len() && touches(#[trigger] pairs[q], j);
        lemma_wired_value(pairs, names, k, qi, i);
        lemma_wired_value(pairs, names, k, qj, j);
        if names[i] == names[j] {
            if i < j {
                let q = lemma_same_name_same_pair(names, i, j);
                lemma_touch_unique(pairs, q, qi, i);
                lemma_touch_unique(pairs, q, qj, j);
            } else if j < i {
                let q = lemma_same_name_same_pair(names, j, i);
                lemma_touch_unique(pairs, q, qi, i);
                lemma_touch_unique(pairs, q, qj, j);
            } else {
                lemma_touch_unique(pairs, qi, qj, i);
            }
        } else if after[i] == after[j] {
            lemma_decimal_injective(qi as nat, qj as nat);
            lemma_next_same(names, pairs[qi].0 as int);
        }
    }
}

/// The variables of a renamed tree carry the names given to them.
pub proof fn lemma_renamed_vars(tree: TreeView, names: Seq<Seq<char>>, start: int)
    requires
        0 <= start,
        start + tree_vars(tree).len() <= names.len(),
    ensures
        tree_vars(tree_renamed(tree, names, start)) == names.subrange(
            start,
            start + tree_vars(tree).len(),
        ),
        tree_blank(tree_renamed(tree, names, start)) == tree_blank(tree),
    decreases tree,
{
    match tree {
        TreeView::Bin(_, fst, snd) => {
            let mid = start + tree_vars(*fst).len();
            lemma_renamed_vars(*fst, names, start);
            lemma_renamed_vars(*snd, names, mid);
            assert(names.subrange(start, mid) + names.subrange(mid, mid + tree_vars(*snd).len())
                =~= names.subrange(start, start + tree_vars(tree).len()));
        },
        TreeView::Var(_) => {
            assert(seq![names[start]] =~= names.subrange(start, start + 1));
        },
        _ => {
            assert(names.subrange(start, start) =~= Seq::<Seq<char>>::empty());
        },
    }
}

/// The variables of the first `i` renamed active pairs carry the names given
/// to them.
#[verifier::rlimit(50)]
pub proof fn lemma_renamed_redex_vars(
    redexes: Seq<(TreeView, TreeView)>,
    names: Seq<Seq<char>>,
    start: int,
    i: int,
)
    requires
        0 <= start,
        0 <= i <= redexes.len(),
        start + redex_vars(redexes).len() <= names.len(),
    ensures
        redex_vars(Seq::new(redexes.len(), |k: int| redex_renamed(redexes, names, start, k)).take(i))
            == names.subrange(start, start + redex_vars(redexes.take(i)).len()),
    decreases i,
{
    let renamed = Seq::new(redexes.len(), |k: int| redex_renamed(redexes, names, start, k));
    lemma_redex_vars_prefix(redexes, i as nat);
    if i == 0 {
        assert(names.subrange(start, start) =~= Seq::<Seq<char>>::empty());
    } else {
        let last = i - 1;
        lemma_renamed_redex_vars(redexes, names, start, last);
        assert(renamed.take(i).drop_last() =~= renamed.take(last));
        assert(redexes.take(i).drop_last() =~= redexes.take(last));
        let at = start + redex_vars(redexes.take(last)).len();
        let mid = at + tree_vars(redexes[last].0).len();
        let end = mid + tree_vars(redexes[last].1).len();
        lemma_renamed_vars(redexes[last].0, names, at);
        lemma_renamed_vars(redexes[last].1, names, mid);
        assert(names.subrange(start, at) + names.subrange(at, mid) + names.subrange(mid, end)
            =~= names.subrange(start, end));
    }
}

/// A renamed net carries the names given to it, and differs from the net in
/// nothing else.
#[verifier::rlimit(50)]
pub proof fn lemma_net_renamed_vars(net: NetView, names: Seq<Seq<char>>)
    requires
        names.len() == net_vars(net).len(),
    ensures
        net_vars(net_renamed(net, names)) == names,
        net_blank(net_renamed(net, names)) == net_blank(net),
{
    let start = tree_vars(net.root).len() as int;
    let renamed = net_renamed(net, names);
    lemma_renamed_vars(net.root, names, 0);
    lemma_renamed_redex_vars(net.redexes, names, start, net.redexes.len() as int);
    assert(renamed.redexes.take(net.redexes.len() as int) =~= renamed.redexes);
    assert(net.redexes.take(net.redexes.len() as int) =~= net.redexes);
    assert(names.subrange(0, start) + names.subrange(start, names.len() as int) =~= names);
    assert forall|i: int| 0 <= i < net.redexes.len() implies (#[trigger] redexes_blank(
        renamed.redexes,
    )[i]) == redexes_blank(net.redexes)[i] by {
        lemma_redex_vars_prefix(net.redexes, i as nat);
        lemma_redex_vars_prefix(net.redexes, (i + 1) as nat);
        assert(net.redexes.take(i + 1).drop_last() =~= net.redexes.take(i));
        let at = start + redex_vars(net.redexes.take(i)).len();
        lemma_renamed_vars(net.redexes[i].0, names, at);
        lemma_renamed_vars(net.redexes[i].1, names, at + tree_vars(net.redexes[i].0).len());
    }
    assert(redexes_blank(renamed.redexes) =~= redexes_blank(net.redexes));
}

/// Decoding an encoded net and normalizing the result gives the normal form
/// of the net: for a well-formed net whose payloads can be written, read
/// back from its bits and the zero bits that fill the last byte.
pub proof fn lemma_decode_encode_normal_form(net: NetView, big: bool)
    requires
        net_encodable(net),
    ensures
        match net_parse(crate::stream::padded(net_bits(net, big)), big) {
            Ok((decoded, _)) => normalized(decoded) == normalized(net),
            Err(_) => false,
        },
{
    let bits = net_bits(net, big);
    lemma_net_round_trip(net, big, crate::stream::zeros(((8 - bits.len() % 8) % 8) as nat));
    lemma_normalize_idempotent(net);
}

/// Normalizing a well-formed net twice gives what normalizing it once gives.
pub proof fn lemma_normalize_idempotent(net: NetView)
    requires
        well_formed(net),
    ensures
        normalized(normalized(net)) == normalized(net),
        well_formed(normalized(net)),
{
    let names = net_vars(net);
    let pairs = current_pairs(names);
    let after = wired_names(pairs, names);
    let once = normalized(net);
    assert(pairs.take(pairs.len() as int) =~= pairs);
    lemma_wired_names_upto(pairs, names, names, pairs.len() as int);
    lemma_wired_pattern(names);
    lemma_pairs_pattern(names, after, names.len());
    lemma_net_renamed_vars(net, after);
    lemma_wired_names_cover(pairs, after, names);
    lemma_net_renamed_blank(once, after);
    lemma_net_renamed_blank(net, after);
}

/// In a well-formed net every variable name occurs exactly twice: each
/// occurrence has one partner of the same name, and no third occurrence
/// carries that name.
pub proof fn lemma_names_occur_twice(net: NetView, i: int) -> (j: int)
    requires
        well_formed(net),
        0 <= i < net_vars(net).len(),
    ensures
        0 <= j < net_vars(net).len(),
        j != i,
        net_vars(net)[j] == net_vars(net)[i],
        forall|k: int|
            0 <= k < net_vars(net).len() && net_vars(net)[k] == net_vars(net)[i] ==> k == i || k
                == j,
{
    let names = net_vars(net);
    let pairs = current_pairs(names);
    lemma_pairs_sound(names, names.len());
    assert(covered(pairs, i));
    let q = choose|q: int| 0 <= q < pairs.len() && touches(#[trigger] pairs[q], i);
    lemma_next_same(names, pairs[q].0 as int);
    let j = if pairs[q].0 == i {
        pairs[q].1 as int
    } else {
        pairs[q].0 as int
    };
    assert forall|k: int| 0 <= k < names.len() && names[k] == names[i] implies k == i || k
        == j by {
        if k != i {
            let r = if k < i {
                lemma_same_name_same_pair(names, k, i)
            } else {
                lemma_same_name_same_pair(names, i, k)
            };
            lemma_touch_unique(pairs, q, r, i);
        }
    }
    j
}

/// Where both ends of every wire of a matching carry the decimal number of
/// the wire, the names spell the matching: up to place `n`, the pairs whose
/// first member is below `n`. The result is the number of those pairs.
#[verifier::rlimit(50)]
pub proof fn lemma_pairs_of_wired(pairs: Seq<(usize, usize)>, names: Seq<Seq<char>>, n: nat) -> (c:
    int)
    requires
        is_matching(pairs),
        names.len() == 2 * pairs.len(),
        forall|q: int, i: int|
            0 <= q < pairs.len() && touches(#[trigger] pairs[q], i) ==> #[trigger] names[i]
                == decimal(q as nat),
        n <= names.len(),
    ensures
        0 <= c <= pairs.len(),
        pairs_upto(names, n) == pairs.take(c),
        forall|q: int| 0 <= q < c ==> (#[trigger] pairs[q]).0 < n,
        forall|q: int| c <= q < pairs.len() ==> (#[trigger] pairs[q]).0 >= n,
    decreases n,
{
    if n == 0 {
        assert(pairs.take(0) =~= Seq::<(usize, usize)>::empty());
        0
    } else {
        let i = n - 1;
        let before = lemma_pairs_of_wired(pairs, names, i as nat);
        lemma_next_same(names, i);
        let next = next_same(names, i);
        assert(covered(pairs, i));
        let q = choose|q: int| 0 <= q < pairs.len() && touches(#[trigger] pairs[q], i);
        assert(names[i] == decimal(q as nat));
        if next < names.len() {
            assert(covered(pairs, next));
            let r = choose|r: int| 0 <= r < pairs.len() && touches(#[trigger] pairs[r], next);
            assert(names[next] == decimal(r as nat));
            lemma_decimal_injective(q as nat, r as nat);
        }
        if pairs[q].0 == i {
            let j = pairs[q].1 as int;
            assert(touches(pairs[q], j));
            assert(names[j] == names[i]);
            assert(next == j);
            if q > before {
                assert(pairs[before].0 < pairs[q].0);
            }
            assert(q == before);
            assert(pairs.take(before).push(pairs[before]) =~= pairs.take(before + 1));
            assert forall|r: int| before + 1 <= r < pairs.len() implies (#[trigger] pairs[r]).0
                >= n by {
                assert(pairs[before].0 < pairs[r].0);
            }
            before + 1
        } else {
            assert(next == names.len());
            assert forall|r: int| before <= r < pairs.len() implies (#[trigger] pairs[r]).0
                >= n by {
                if pairs[r].0 == i {
                    assert(touches(pairs[r], i));
                    lemma_touch_unique(pairs, q, r, i);
                }
            }
            before
        }
    }
}

/// Whatever the bits, a net that is read is well formed and in normal form.
#[verifier::rlimit(50)]
pub proof fn lemma_decoded_net_is_normal(bits: Seq<bool>, big: bool)
    requires
        net_parse(bits, big) is Ok,
    ensures
        well_formed(net_parse(bits, big)->Ok_0.0),
        normalized(net_parse(bits, big)->Ok_0.0) == net_parse(bits, big)->Ok_0.0,
{
    reveal(net_parse);
    let net = net_parse(bits, big)->Ok_0.0;
    let (root, a) = tree_parse(bits, big)->Ok_0;
    let (count, b) = gamma_parse(bits.skip(a as int))->Ok_0;
    let (redexes, c) = redexes_parse(bits.skip(a as int + b as int), count, big)->Ok_0;
    let raw = NetView { root, redexes };
    let vars = net_vars(raw);
    let tail = bits.skip(a as int + b as int + c as int);
    let pairs = wiring_parse(tail, vars.len() / 2, big)->Ok_0.0;
    let names = wired_names(pairs, vars);
    assert(net == net_renamed(raw, names));
    crate::wiring::lemma_parsed_wiring_is_matching(tail, vars.len() / 2, big);
    assert(pairs.take(pairs.len() as int) =~= pairs);
    lemma_wired_names_upto(pairs, vars, vars, pairs.len() as int);
    lemma_net_renamed_vars(raw, names);
    assert forall|q: int, i: int|
        0 <= q < pairs.len() && touches(#[trigger] pairs[q], i) implies #[trigger] names[i]
        == decimal(q as nat) by {
        lemma_wired_value(pairs, vars, pairs.len() as int, q, i);
    }
    let found = lemma_pairs_of_wired(pairs, names, names.len());
    if found < pairs.len() {
        assert(pairs[found].0 >= names.len());
    }
    assert(pairs.take(found) =~= pairs);
    lemma_wired_names_cover(pairs, names, vars);
    lemma_net_renamed_blank(net, names);
    lemma_net_renamed_blank(raw, names);
}

} // verus!
