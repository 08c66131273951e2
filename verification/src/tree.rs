//! Trees: the nodes of a net, written in pre-order.

use crate::scalars::{
    lemma_tag_round_trip, tag_bits, tag_encodable, tag_of, tag_parse, Tag, TagView,
};
use crate::stream::{BitReader, BitWriter, DecodeError};
use crate::{reads_as, BitRead, BitWrite};
use vstd::prelude::*;
use vstd::utf8::encode_utf8;

verus! {

/// One tree of an interaction net.
#[derive(PartialEq, Eq, Debug)]
pub enum Tree {
    /// A variable: one end of a wire, named like its other end.
    Var { nam: String },
    /// A reference to a definition.
    Ref { nam: String },
    /// An eraser.
    Era,
    /// A number.
    Num { val: u32 },
    /// A constructor.
    Con { fst: Box<Tree>, snd: Box<Tree> },
    /// A duplicator.
    Dup { fst: Box<Tree>, snd: Box<Tree> },
    /// An operator.
    Opr { fst: Box<Tree>, snd: Box<Tree> },
    /// A switch.
    Swi { fst: Box<Tree>, snd: Box<Tree> },
}

/// The four kinds of node with two children.
pub enum Kind {
    Con,
    Dup,
    Opr,
    Swi,
}

/// What a tree is in contracts.
pub enum TreeView {
    Era,
    Var(Seq<char>),
    Ref(Seq<char>),
    Num(nat),
    Bin(Kind, Box<TreeView>, Box<TreeView>),
}

/// The tree as contracts see it.
pub open spec fn tree_view(tree: Tree) -> TreeView
    decreases tree,
{
    match tree {
        Tree::Era => TreeView::Era,
        Tree::Var { nam } => TreeView::Var(nam@),
        Tree::Ref { nam } => TreeView::Ref(nam@),
        Tree::Num { val } => TreeView::Num(val as nat),
        Tree::Con { fst, snd } => TreeView::Bin(
            Kind::Con,
            Box::new(tree_view(*fst)),
            Box::new(tree_view(*snd)),
        ),
        Tree::Dup { fst, snd } => TreeView::Bin(
            Kind::Dup,
            Box::new(tree_view(*fst)),
            Box::new(tree_view(*snd)),
        ),
        Tree::Opr { fst, snd } => TreeView::Bin(
            Kind::Opr,
            Box::new(tree_view(*fst)),
            Box::new(tree_view(*snd)),
        ),
        Tree::Swi { fst, snd } => TreeView::Bin(
            Kind::Swi,
            Box::new(tree_view(*fst)),
            Box::new(tree_view(*snd)),
        ),
    }
}

impl View for Tree {
    type V = TreeView;

    open spec fn view(&self) -> TreeView {
        tree_view(*self)
    }
}

/// The name that a variable carries between decoding and wiring.
pub open spec fn placeholder() -> Seq<char> {
    "invalid"@
}

/// The bits of a tree: the tag of its root, then its children from left to
/// right.
#[verifier::opaque]
pub open spec fn tree_bits(tree: TreeView, big: bool) -> Seq<bool>
    decreases tree,
{
    tag_bits(tag_of(tree), big) + match tree {
        TreeView::Bin(_, fst, snd) => tree_bits(*fst, big) + tree_bits(*snd, big),
        _ => Seq::empty(),
    }
}

/// Whether every payload in the tree can be written: no reference name
/// holds a zero byte, and every number fits in 32 bits.
pub open spec fn tree_encodable(tree: TreeView) -> bool
    decreases tree,
{
    tag_encodable(tag_of(tree)) && match tree {
        TreeView::Bin(_, fst, snd) => tree_encodable(*fst) && tree_encodable(*snd),
        TreeView::Num(n) => n <= u32::MAX,
        _ => true,
    }
}

/// The tree with every variable under the placeholder name: what is left of
/// it in the bits of the tree.
pub open spec fn tree_blank(tree: TreeView) -> TreeView
    decreases tree,
{
    match tree {
        TreeView::Var(_) => TreeView::Var(placeholder()),
        TreeView::Bin(kind, fst, snd) => TreeView::Bin(
            kind,
            Box::new(tree_blank(*fst)),
            Box::new(tree_blank(*snd)),
        ),
        _ => tree,
    }
}

/// What `tree_parse` makes of a tag that opens a node with two children,
/// once both children are known to parse.
proof fn lemma_parse_node(
    bits: Seq<bool>,
    big: bool,
    tag: TagView,
    kind: Kind,
    fst: TreeView,
    n: nat,
    snd: TreeView,
    m: nat,
)
    requires
        bits.len() >= 3 + n,
        tag_parse(bits, big) == Ok::<(TagView, nat), DecodeError>((tag, 3)),
        kind_of(tag) == Some(kind),
        tree_parse(bits.skip(3), big) == Ok::<(TreeView, nat), DecodeError>((fst, n)),
        tree_parse(bits.skip(3 + n as int), big) == Ok::<(TreeView, nat), DecodeError>((snd, m)),
    ensures
        tree_parse(bits, big) == Ok::<(TreeView, nat), DecodeError>(
            (TreeView::Bin(kind, Box::new(fst), Box::new(snd)), 3 + n + m),
        ),
{
    reveal(tree_parse);
}

/// What `tree_parse` makes of a tag that stands for a leaf.
proof fn lemma_parse_leaf(bits: Seq<bool>, big: bool, tag: TagView, taken: nat)
    requires
        tag_parse(bits, big) == Ok::<(TagView, nat), DecodeError>((tag, taken)),
        kind_of(tag) is None,
    ensures
        tree_parse(bits, big) == Ok::<(TreeView, nat), DecodeError>((leaf_of(tag), taken)),
{
    reveal(tree_parse);
}

/// A tree is read back from its bits, whatever follows them, with every
/// variable under the placeholder name.
#[verifier::rlimit(50)]
pub proof fn lemma_tree_round_trip(tree: TreeView, big: bool, rest: Seq<bool>)
    requires
        tree_encodable(tree),
    ensures
        tree_parse(tree_bits(tree, big) + rest, big) == Ok::<(TreeView, nat), DecodeError>(
            (tree_blank(tree), tree_bits(tree, big).len()),
        ),
    decreases tree,
{
    reveal(tree_bits);
    let tag = tag_of(tree);
    let head = tag_bits(tag, big);
    let bits = tree_bits(tree, big) + rest;
    match tree {
        TreeView::Bin(kind, fst, snd) => {
            let left = tree_bits(*fst, big);
            let right = tree_bits(*snd, big);
            lemma_tag_round_trip(tag, big, left + right + rest);
            lemma_tree_round_trip(*fst, big, right + rest);
            lemma_tree_round_trip(*snd, big, rest);
            assert(bits =~= head + (left + right + rest));
            assert(bits.skip(3) =~= left + (right + rest));
            assert(bits.skip(3 + left.len() as int) =~= right + rest);
            lemma_parse_node(
                bits,
                big,
                tag,
                kind,
                tree_blank(*fst),
                left.len(),
                tree_blank(*snd),
                right.len(),
            );
        },
        _ => {
            lemma_tag_round_trip(tag, big, rest);
            assert(tree_bits(tree, big) =~= head);
            lemma_parse_leaf(bits, big, tag, head.len());
        },
    }
}

/// A tree without variables is read back from its bits as it was: its bits
/// depend on nothing but the tree, and tell it from every other such tree.
pub proof fn lemma_closed_tree_round_trip(tree: TreeView, big: bool, rest: Seq<bool>)
    requires
        tree_encodable(tree),
        tree_vars(tree).len() == 0,
    ensures
        tree_parse(tree_bits(tree, big) + rest, big) == Ok::<(TreeView, nat), DecodeError>(
            (tree, tree_bits(tree, big).len()),
        ),
{
    lemma_tree_round_trip(tree, big, rest);
    lemma_closed_tree_blank(tree);
}

/// A tree without variables has nothing to blank.
pub proof fn lemma_closed_tree_blank(tree: TreeView)
    requires
        tree_vars(tree).len() == 0,
    ensures
        tree_blank(tree) == tree,
    decreases tree,
{
    match tree {
        TreeView::Bin(kind, fst, snd) => {
            lemma_closed_tree_blank(*fst);
            lemma_closed_tree_blank(*snd);
        },
        _ => {},
    }
}

/// The kind of node that a tag opens, if it has children.
pub open spec fn kind_of(tag: TagView) -> Option<Kind> {
    match tag {
        TagView::CON => Some(Kind::Con),
        TagView::DUP => Some(Kind::Dup),
        TagView::OPS => Some(Kind::Opr),
        TagView::MAT => Some(Kind::Swi),
        _ => None,
    }
}

/// The leaf that a tag without children stands for. A number keeps its low 32
/// bits.
pub open spec fn leaf_of(tag: TagView) -> TreeView {
    match tag {
        TagView::REF(name) => TreeView::Ref(name),
        TagView::NUM(n) => TreeView::Num(n % 0x1_0000_0000),
        TagView::VAR => TreeView::Var(placeholder()),
        _ => TreeView::Era,
    }
}

/// The tree at the front of `bits`. Variables come out under the placeholder
/// name.
#[verifier::opaque]
pub open spec fn tree_parse(bits: Seq<bool>, big: bool) -> Result<(TreeView, nat), DecodeError>
    decreases bits.len(),
{
    match tag_parse(bits, big) {
        Err(e) => Err(e),
        Ok((tag, taken)) => match kind_of(tag) {
            None => Ok((leaf_of(tag), taken)),
            Some(kind) => if bits.len() < 3 {
                Err(DecodeError::Truncated)
            } else {
                match tree_parse(bits.skip(3), big) {
                    Err(e) => Err(e),
                    Ok((fst, n)) => if 3 + n > bits.len() {
                        Err(DecodeError::Truncated)
                    } else {
                        match tree_parse(bits.skip(3 + n as int), big) {
                            Err(e) => Err(e),
                            Ok((snd, m)) => Ok(
                                (TreeView::Bin(kind, Box::new(fst), Box::new(snd)), 3 + n + m),
                            ),
                        }
                    },
                }
            },
        },
    }
}

/// The names of the variables of a tree, in pre-order.
pub open spec fn tree_vars(tree: TreeView) -> Seq<Seq<char>>
    decreases tree,
{
    match tree {
        TreeView::Var(name) => seq![name],
        TreeView::Bin(_, fst, snd) => tree_vars(*fst) + tree_vars(*snd),
        _ => Seq::empty(),
    }
}

/// The tree with its variables, in pre-order, renamed to `names[start]`,
/// `names[start + 1]` and so on.
pub open spec fn tree_renamed(tree: TreeView, names: Seq<Seq<char>>, start: int) -> TreeView
    decreases tree,
{
    match tree {
        TreeView::Var(_) => TreeView::Var(names[start]),
        TreeView::Bin(kind, fst, snd) => TreeView::Bin(
            kind,
            Box::new(tree_renamed(*fst, names, start)),
            Box::new(tree_renamed(*snd, names, start + tree_vars(*fst).len())),
        ),
        _ => tree,
    }
}

/// The characters of each of `names`.
pub open spec fn names_view(names: Seq<String>) -> Seq<Seq<char>> {
    names.map_values(|s: String| s@)
}

impl Clone for Tree {
    fn clone(&self) -> (copy: Tree)
        ensures
            copy@ == self@,
    {
        self.duplicate()
    }
}

impl Tree {
    /// A copy of the tree, node by node.
    pub fn duplicate(&self) -> (copy: Tree)
        ensures
            copy@ == self@,
        decreases self,
    {
        match self {
            Tree::Var { nam } => Tree::Var { nam: nam.clone() },
            Tree::Ref { nam } => Tree::Ref { nam: nam.clone() },
            Tree::Era => Tree::Era,
            Tree::Num { val } => Tree::Num { val: *val },
            Tree::Con { fst, snd } => Tree::Con {
                fst: Box::new(fst.duplicate()),
                snd: Box::new(snd.duplicate()),
            },
            Tree::Dup { fst, snd } => Tree::Dup {
                fst: Box::new(fst.duplicate()),
                snd: Box::new(snd.duplicate()),
            },
            Tree::Opr { fst, snd } => Tree::Opr {
                fst: Box::new(fst.duplicate()),
                snd: Box::new(snd.duplicate()),
            },
            Tree::Swi { fst, snd } => Tree::Swi {
                fst: Box::new(fst.duplicate()),
                snd: Box::new(snd.duplicate()),
            },
        }
    }

    /// Whether the tree can be written: no reference name holds a zero byte.
    pub fn is_encodable(&self) -> (ok: bool)
        ensures
            ok == tree_encodable(self@),
        decreases self,
    {
        match self {
            Tree::Ref { nam } => {
                let bytes = nam.as_str().as_bytes();
                let mut i: usize = 0;
                while i < bytes.len()
                    invariant
                        i <= bytes.len(),
                        bytes@ == encode_utf8(nam@),
                        self@ == TreeView::Ref(nam@),
                        forall|j: int| 0 <= j < i ==> bytes@[j] != 0,
                    decreases bytes.len() - i,
                {
                    if bytes[i] == 0 {
                        assert(encode_utf8(nam@)[i as int] == 0);
                        return false;
                    }
                    i += 1;
                }
                true
            },
            Tree::Con { fst, snd }
            | Tree::Dup { fst, snd }
            | Tree::Swi { fst, snd }
            | Tree::Opr { fst, snd } => fst.is_encodable() && snd.is_encodable(),
            _ => true,
        }
    }

    /// The names of the variables of `tree`, in pre-order.
    pub fn gather_vars(tree: &Tree) -> (vars: Vec<String>)
        ensures
            names_view(vars@) == tree_vars(tree@),
        decreases tree,
    {
        match tree {
            Tree::Var { nam } => {
                let vars = vec![nam.clone()];
                assert(names_view(vars@) =~= tree_vars(tree@));
                vars
            },
            Tree::Con { fst, snd }
            | Tree::Dup { fst, snd }
            | Tree::Swi { fst, snd }
            | Tree::Opr { fst, snd } => {
                let mut vars = Self::gather_vars(fst);
                let mut more = Self::gather_vars(snd);
                let ghost left = vars@;
                let ghost right = more@;
                vars.append(&mut more);
                assert(names_view(left + right) =~= names_view(left) + names_view(right));
                vars
            },
            _ => {
                let vars: Vec<String> = Vec::new();
                assert(names_view(vars@) =~= tree_vars(tree@));
                vars
            },
        }
    }

    /// A copy of the tree whose variables, in pre-order, are named
    /// `names[start]`, `names[start + 1]` and so on; with it the index after
    /// the last name used.
    pub fn renamed(&self, names: &Vec<String>, start: usize) -> (result: (Tree, usize))
        requires
            start + tree_vars(self@).len() <= names@.len(),
        ensures
            result.0@ == tree_renamed(self@, names_view(names@), start as int),
            result.1 == start + tree_vars(self@).len(),
        decreases self,
    {
        match self {
            Tree::Var { .. } => {
                assert(tree_vars(self@).len() == 1);
                assert(start < names.len());
                (Tree::Var { nam: names[start].clone() }, start + 1)
            },
            Tree::Ref { nam } => (Tree::Ref { nam: nam.clone() }, start),
            Tree::Era => (Tree::Era, start),
            Tree::Num { val } => (Tree::Num { val: *val }, start),
            Tree::Con { fst, snd } => {
                let (a, mid) = fst.renamed(names, start);
                let (b, end) = snd.renamed(names, mid);
                (Tree::Con { fst: Box::new(a), snd: Box::new(b) }, end)
            },
            Tree::Dup { fst, snd } => {
                let (a, mid) = fst.renamed(names, start);
                let (b, end) = snd.renamed(names, mid);
                (Tree::Dup { fst: Box::new(a), snd: Box::new(b) }, end)
            },
            Tree::Opr { fst, snd } => {
                let (a, mid) = fst.renamed(names, start);
                let (b, end) = snd.renamed(names, mid);
                (Tree::Opr { fst: Box::new(a), snd: Box::new(b) }, end)
            },
            Tree::Swi { fst, snd } => {
                let (a, mid) = fst.renamed(names, start);
                let (b, end) = snd.renamed(names, mid);
                (Tree::Swi { fst: Box::new(a), snd: Box::new(b) }, end)
            },
        }
    }

    fn write_node(&self, stream: &mut BitWriter)
        requires
            tree_encodable(self@),
        ensures
            final(stream)@ == old(stream)@ + tree_bits(self@, old(stream).big()),
            final(stream).big() == old(stream).big(),
        decreases self,
    {
        reveal(tree_bits);
        let ghost start = stream@;
        let ghost big = stream.big();
        let tag = Tag::from(self);
        tag.write(stream);
        match self {
            Tree::Con { fst, snd }
            | Tree::Dup { fst, snd }
            | Tree::Swi { fst, snd }
            | Tree::Opr { fst, snd } => {
                fst.write_node(stream);
                snd.write_node(stream);
            },
            _ => {},
        }
        assert(stream@ =~= start + tree_bits(self@, big));
    }

    #[verifier::rlimit(100)]
    fn read_node(stream: &mut BitReader) -> (result: Result<Tree, DecodeError>)
        ensures
            final(stream).big() == old(stream).big(),
            reads_as(
                result,
                old(stream).remaining(),
                final(stream).remaining(),
                tree_parse(old(stream).remaining(), old(stream).big()),
            ),
        decreases old(stream).remaining().len(),
    {
        reveal(tree_parse);
        reveal(tag_parse);
        let ghost orig = stream.remaining();
        let ghost big = stream.big();
        let tag = match Tag::read(stream) {
            Ok(tag) => tag,
            Err(e) => {
                return Err(e);
            },
        };
        match tag {
            Tag::REF(name) => Ok(Tree::Ref { nam: name.0 }),
            Tag::NUM(n) => Ok(Tree::Num { val: (n.0 % 0x1_0000_0000) as u32 }),
            Tag::VAR => Ok(Tree::Var { nam: "invalid".to_owned() }),
            Tag::ERA => Ok(Tree::Era),
            _ => {
                let fst = match Self::read_node(stream) {
                    Ok(fst) => fst,
                    Err(e) => {
                        return Err(e);
                    },
                };
                let ghost n = tree_parse(orig.skip(3), big)->Ok_0.1;
                assert(orig.skip(3).skip(n as int) =~= orig.skip(3 + n as int));
                let snd = match Self::read_node(stream) {
                    Ok(snd) => snd,
                    Err(e) => {
                        return Err(e);
                    },
                };
                let ghost m = tree_parse(orig.skip(3 + n as int), big)->Ok_0.1;
                assert(orig.skip(3 + n as int).skip(m as int) =~= orig.skip(3 + n as int + m as int));
                let fst = Box::new(fst);
                let snd = Box::new(snd);
                match tag {
                    Tag::OPS => Ok(Tree::Opr { fst, snd }),
                    Tag::MAT => Ok(Tree::Swi { fst, snd }),
                    Tag::CON => Ok(Tree::Con { fst, snd }),
                    _ => Ok(Tree::Dup { fst, snd }),
                }
            },
        }
    }
}

impl BitWrite for Tree {
    open spec fn encodable(&self) -> bool {
        tree_encodable(self@)
    }

    open spec fn bits(&self, big: bool) -> Seq<bool> {
        tree_bits(self@, big)
    }

    fn write(&self, stream: &mut BitWriter) {
        self.write_node(stream)
    }
}

impl BitRead for Tree {
    open spec fn parse(bits: Seq<bool>, big: bool) -> Result<(TreeView, nat), DecodeError> {
        tree_parse(bits, big)
    }

    fn read(stream: &mut BitReader) -> (result: Result<Self, DecodeError>) {
        Self::read_node(stream)
    }
}

} // verus!
