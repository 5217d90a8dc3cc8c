//! Immutable green-tree nodes. A node stores its kind, its children
//! and its total byte length; token leaves store only their length.
//! The source text lives once, with whoever owns the tree, and every
//! text-bearing call takes it as an argument.
use vstd::prelude::*;
use vstd::string::StringSliceAdditionalSpecFns;

use crate::cst::syntax::SyntaxKind;
use crate::text::{byte_len, lemma_encode_utf8_concat, on_boundary, push_str, str_range};

verus! {

/// A leaf-or-node child of a [`GreenNode`].
#[derive(Debug)]
pub enum GreenChild {
    /// A nested node.
    Node(GreenNode),
    /// A leaf token of `len` source bytes.
    Token {
        /// Classification of this leaf.
        kind: SyntaxKind,
        /// Byte length of this leaf in the source.
        len: usize,
    },
}

/// An immutable, byte-faithful syntax-tree node: its text is the
/// concatenation, in order, of its descendants' leaf texts.
#[derive(Debug)]
pub struct GreenNode {
    kind: SyntaxKind,
    text_len: usize,
    children: Vec<GreenChild>,
}

/// Byte length a child contributes to its parent.
pub open spec fn child_len(c: GreenChild) -> nat {
    match c {
        GreenChild::Node(n) => n.spec_text_len() as nat,
        GreenChild::Token { len, .. } => len as nat,
    }
}

/// Total byte length of a run of children.
pub open spec fn children_len(cs: Seq<GreenChild>) -> nat
    decreases cs.len(),
{
    if cs.len() == 0 {
        0
    } else {
        children_len(cs.drop_last()) + child_len(cs.last())
    }
}

impl GreenNode {
    /// Classification of this node.
    pub closed spec fn spec_kind(&self) -> SyntaxKind {
        self.kind
    }

    /// Total byte length of this node's text.
    pub closed spec fn spec_text_len(&self) -> usize {
        self.text_len
    }

    /// The node's children, in order.
    pub closed spec fn spec_children(&self) -> Seq<GreenChild> {
        self.children@
    }

    /// A node's length is the sum of its children's lengths, and the
    /// sum of its leaves' lengths.
    #[verifier::type_invariant]
    closed spec fn wf(&self) -> bool {
        &&& self.text_len == children_len(self.children@)
        &&& self.text_len == leaves_len(seq_leaves(self.children@))
    }

    /// Build a node from its kind and children; its length is the sum
    /// of theirs.
    pub fn new(kind: SyntaxKind, children: Vec<GreenChild>) -> (n: Self)
        requires
            children_len(children@) <= usize::MAX,
        ensures
            n.spec_kind() == kind,
            n.spec_children() == children@,
            n.spec_text_len() == children_len(children@),
            n.spec_text_len() == leaves_len(seq_leaves(children@)),
    {
        let mut total: usize = 0;
        let mut k: usize = 0;
        while k < children.len()
            invariant
                0 <= k <= children@.len(),
                children_len(children@) <= usize::MAX,
                total == children_len(children@.take(k as int)),
                total == leaves_len(seq_leaves(children@.take(k as int))),
            decreases children@.len() - k,
        {
            proof {
                assert(children@.take(k + 1).drop_last() =~= children@.take(k as int));
                lemma_children_len_prefix(children@, k + 1);
                lemma_leaves_len_concat(
                    seq_leaves(children@.take(k as int)),
                    child_leaves(children@[k as int]),
                );
            }
            total = total + children[k].text_len();
            k += 1;
        }
        assert(children@.take(children@.len() as int) =~= children@);
        GreenNode { kind, text_len: total, children }
    }

    /// Classification of this node.
    pub fn kind(&self) -> (k: SyntaxKind)
        ensures
            k == self.spec_kind(),
    {
        self.kind
    }

    /// Total byte length of this node's text.
    pub fn text_len(&self) -> (n: usize)
        ensures
            n == self.spec_text_len(),
            n == children_len(self.spec_children()),
            n == leaves_len(seq_leaves(self.spec_children())),
    {
        proof {
            use_type_invariant(self);
        }
        self.text_len
    }

    /// The immediate children of this node, in order.
    pub fn children(&self) -> (cs: &[GreenChild])
        ensures
            cs@ == self.spec_children(),
    {
        self.children.as_slice()
    }

    /// Concatenation of every descendant leaf's text in document order,
    /// given the source the leaves index into (leaf boundaries must be
    /// character boundaries). Its bytes are the first `text_len` bytes
    /// of `source`.
    pub fn text(&self, source: &str) -> (s: String)
        requires
            self.spec_text_len() <= source.spec_bytes().len(),
            node_leaves_fit(*self, source, 0),
        ensures
            vstd::utf8::encode_utf8(s@) == source.spec_bytes().subrange(0, self.spec_text_len() as int),
    {
        let mut out = String::new();
        let end = self.write_text(&mut out, source, 0);
        assert(Seq::<char>::empty() + out@ =~= out@);
        out
    }

    /// Append the descendant text into `out`, starting at byte `offset`
    /// of `source`; returns the offset past the node's last byte.
    pub fn write_text(&self, out: &mut String, source: &str, offset: usize) -> (end: usize)
        requires
            offset + self.spec_text_len() <= source.spec_bytes().len(),
            node_leaves_fit(*self, source, offset as int),
        ensures
            end == offset + self.spec_text_len(),
            exists|added: Seq<char>|
                final(out)@ == old(out)@ + added && vstd::utf8::encode_utf8(added)
                    == source.spec_bytes().subrange(offset as int, end as int),
        decreases self, 0nat,
    {
        proof {
            use_type_invariant(self);
        }
        let ghost start_out = out@;
        let ghost b = source.spec_bytes();
        let mut pos = offset;
        let mut k: usize = 0;
        proof {
            let none = Seq::<char>::empty();
            assert(start_out + none =~= start_out);
            assert(vstd::utf8::encode_utf8(none) =~= b.subrange(offset as int, offset as int));
            assert(self.children@.take(0) =~= Seq::<GreenChild>::empty());
        }
        while k < self.children.len()
            invariant
                0 <= k <= self.children@.len(),
                self.text_len == children_len(self.children@),
                offset + self.text_len <= b.len(),
                b == source.spec_bytes(),
                pos == offset + children_len(self.children@.take(k as int)),
                node_leaves_fit(*self, source, offset as int),
                exists|added: Seq<char>|
                    out@ == start_out + added && vstd::utf8::encode_utf8(added) == b.subrange(
                        offset as int,
                        pos as int,
                    ),
            decreases self.children@.len() - k,
        {
            let ghost before = out@;
            let ghost added0 = choose|added: Seq<char>|
                out@ == start_out + added && vstd::utf8::encode_utf8(added) == b.subrange(
                    offset as int,
                    pos as int,
                );
            proof {
                assert(self.children@.take(k + 1).drop_last() =~= self.children@.take(k as int));
                lemma_children_len_prefix(self.children@, k + 1);
            }
            let child = &self.children[k];
            assert(child_leaves_fit(
                self.spec_children()[k as int],
                source,
                offset + children_len(self.spec_children().take(k as int)),
            ));
            let next = child.write_text(out, source, pos);
            proof {
                let added1 = choose|added: Seq<char>|
                    out@ == before + added && vstd::utf8::encode_utf8(added) == b.subrange(
                        pos as int,
                        next as int,
                    );
                lemma_encode_utf8_concat(added0, added1);
                assert(b.subrange(offset as int, pos as int) + b.subrange(pos as int, next as int)
                    =~= b.subrange(offset as int, next as int));
                assert(out@ =~= start_out + (added0 + added1));
            }
            pos = next;
            k += 1;
        }
        proof {
            assert(self.children@.take(self.children@.len() as int) =~= self.children@);
        }
        pos
    }
}

/// The leaves under `c`, in document order, as kind and byte length.
pub open spec fn child_leaves(c: GreenChild) -> Seq<(SyntaxKind, nat)>
    decreases c,
{
    match c {
        GreenChild::Token { kind, len } => seq![(kind, len as nat)],
        GreenChild::Node(n) => seq_leaves(n.spec_children()),
    }
}

/// The leaves under a run of children, in document order.
pub open spec fn seq_leaves(cs: Seq<GreenChild>) -> Seq<(SyntaxKind, nat)>
    decreases cs,
{
    if cs.len() == 0 {
        seq![]
    } else {
        seq_leaves(cs.drop_last()) + child_leaves(cs.last())
    }
}

/// Total byte length of a run of leaves.
pub open spec fn leaves_len(ls: Seq<(SyntaxKind, nat)>) -> nat
    decreases ls.len(),
{
    if ls.len() == 0 {
        0
    } else {
        leaves_len(ls.drop_last()) + ls.last().1
    }
}

/// The leaves of two runs of children, one after the other.
pub proof fn lemma_seq_leaves_concat(a: Seq<GreenChild>, b: Seq<GreenChild>)
    ensures
        seq_leaves(a + b) == seq_leaves(a) + seq_leaves(b),
    decreases b.len(),
{
    if b.len() == 0 {
        assert(a + b =~= a);
        assert(seq_leaves(a) + seq_leaves(b) =~= seq_leaves(a));
    } else {
        lemma_seq_leaves_concat(a, b.drop_last());
        assert((a + b).drop_last() =~= a + b.drop_last());
        assert((a + b).last() == b.last());
        assert(seq_leaves(a + b) =~= seq_leaves(a) + seq_leaves(b));
    }
}

/// A node child is smaller than its parent, so walks down the tree
/// terminate.
pub proof fn lemma_child_node_smaller(n: GreenNode, i: int)
    requires
        0 <= i < n.spec_children().len(),
    ensures
        match n.spec_children()[i] {
            GreenChild::Node(m) => decreases_to!(n => m),
            _ => true,
        },
{
    match n.children@[i] {
        GreenChild::Node(m) => {
            assert(decreases_to!(n => n.children));
            assert(decreases_to!(n.children => n.children@));
            assert(decreases_to!(n.children@ => n.children@[i]));
            assert(decreases_to!(n.children@[i] => m));
        },
        _ => {},
    }
}

/// A single leaf's length.
pub proof fn lemma_leaves_len_one(l: (SyntaxKind, nat))
    ensures
        leaves_len(seq![l]) == l.1,
{
    assert(seq![l].drop_last() =~= Seq::<(SyntaxKind, nat)>::empty());
    assert(leaves_len(Seq::<(SyntaxKind, nat)>::empty()) == 0);
    assert(seq![l].last() == l);
}

/// Appending leaves adds their lengths.
pub proof fn lemma_leaves_len_concat(a: Seq<(SyntaxKind, nat)>, b: Seq<(SyntaxKind, nat)>)
    ensures
        leaves_len(a + b) == leaves_len(a) + leaves_len(b),
    decreases b.len(),
{
    if b.len() == 0 {
        assert(a + b =~= a);
    } else {
        lemma_leaves_len_concat(a, b.drop_last());
        assert((a + b).drop_last() =~= a + b.drop_last());
    }
}

/// Every leaf of `c`, placed at byte `offset` of `source`, starts and
/// ends on a character boundary.
pub open spec fn child_leaves_fit(c: GreenChild, source: &str, offset: int) -> bool
    decreases c, 1nat,
{
    match c {
        GreenChild::Token { len, .. } => on_boundary(source, offset) && on_boundary(
            source,
            offset + len,
        ),
        GreenChild::Node(n) => node_leaves_fit(n, source, offset),
    }
}

/// Every leaf of `n`, placed at byte `offset` of `source`, starts and
/// ends on a character boundary.
pub open spec fn node_leaves_fit(n: GreenNode, source: &str, offset: int) -> bool
    decreases n, 0nat,
{
    forall|k: int|
        0 <= k < n.spec_children().len() ==> child_leaves_fit(
            #[trigger] n.spec_children()[k],
            source,
            offset + children_len(n.spec_children().take(k)),
        )
}

/// The length of a prefix of children never exceeds the whole.
pub proof fn lemma_children_len_prefix(cs: Seq<GreenChild>, k: int)
    requires
        0 <= k <= cs.len(),
    ensures
        children_len(cs.take(k)) <= children_len(cs),
    decreases cs.len(),
{
    if k < cs.len() {
        lemma_children_len_prefix(cs.drop_last(), k);
        assert(cs.drop_last().take(k) =~= cs.take(k));
    } else {
        assert(cs.take(k) =~= cs);
    }
}

/// `a` is a copy of `b`: a leaf equal to it, or a node of the same
/// kind, length, child count and leaves.
pub open spec fn copy_of(a: GreenChild, b: GreenChild) -> bool {
    match (a, b) {
        (GreenChild::Node(x), GreenChild::Node(y)) => {
            &&& x.spec_kind() == y.spec_kind()
            &&& x.spec_text_len() == y.spec_text_len()
            &&& x.spec_children().len() == y.spec_children().len()
            &&& seq_leaves(x.spec_children()) == seq_leaves(y.spec_children())
        },
        (GreenChild::Token { .. }, GreenChild::Token { .. }) => a == b,
        _ => false,
    }
}

/// Runs of children whose members have the same leaves have the same
/// leaves.
pub proof fn lemma_seq_leaves_pointwise(a: Seq<GreenChild>, b: Seq<GreenChild>)
    requires
        a.len() == b.len(),
        forall|i: int| 0 <= i < a.len() ==> child_leaves(#[trigger] a[i]) == child_leaves(b[i]),
    ensures
        seq_leaves(a) == seq_leaves(b),
    decreases a.len(),
{
    if a.len() > 0 {
        lemma_seq_leaves_pointwise(a.drop_last(), b.drop_last());
        assert(child_leaves(a[a.len() - 1]) == child_leaves(b[b.len() - 1]));
    }
}

impl Clone for GreenChild {
    /// A deep copy (see [`copy_of`]).
    fn clone(&self) -> (c: Self)
        ensures
            copy_of(c, *self),
            child_len(c) == child_len(*self),
            child_leaves(c) == child_leaves(*self),
        decreases self, 1nat,
    {
        match self {
            GreenChild::Node(n) => GreenChild::Node(n.clone()),
            GreenChild::Token { kind, len } => GreenChild::Token { kind: *kind, len: *len },
        }
    }
}

impl Clone for GreenNode {
    /// A deep copy with the same kind, length, child count and leaves,
    /// each child a copy of the original's.
    fn clone(&self) -> (c: Self)
        ensures
            c.spec_kind() == self.spec_kind(),
            c.spec_text_len() == self.spec_text_len(),
            c.spec_children().len() == self.spec_children().len(),
            forall|i: int|
                0 <= i < c.spec_children().len() ==> copy_of(
                    #[trigger] c.spec_children()[i],
                    self.spec_children()[i],
                ),
            seq_leaves(c.spec_children()) == seq_leaves(self.spec_children()),
        decreases self, 0nat,
    {
        proof {
            use_type_invariant(self);
        }
        let mut children: Vec<GreenChild> = Vec::new();
        let mut k: usize = 0;
        while k < self.children.len()
            invariant
                k <= self.children@.len(),
                children@.len() == k,
                forall|i: int|
                    0 <= i < k ==> copy_of(#[trigger] children@[i], self.children@[i])
                        && child_len(children@[i]) == child_len(self.children@[i])
                        && child_leaves(children@[i]) == child_leaves(self.children@[i]),
                children_len(children@) == children_len(self.children@.take(k as int)),
            decreases self.children@.len() - k,
        {
            let c = self.children[k].clone();
            let ghost prev = children@;
            children.push(c);
            proof {
                assert(children@.drop_last() =~= prev);
                assert(self.children@.take(k + 1).drop_last() =~= self.children@.take(k as int));
            }
            k += 1;
        }
        proof {
            assert(self.children@.take(k as int) =~= self.children@);
            lemma_seq_leaves_pointwise(children@, self.children@);
        }
        GreenNode { kind: self.kind, text_len: self.text_len, children }
    }
}

impl GreenChild {
    /// Byte length this child contributes to its parent.
    pub fn text_len(&self) -> (n: usize)
        ensures
            n == child_len(*self),
            n == leaves_len(child_leaves(*self)),
    {
        match self {
            GreenChild::Node(n) => n.text_len(),
            GreenChild::Token { kind, len } => {
                proof {
                    lemma_leaves_len_one((*kind, *len as nat));
                }
                *len
            },
        }
    }

    /// The source text of a leaf placed at byte `offset`; `None` for a
    /// node.
    pub fn token_text<'s>(&self, source: &'s str, offset: usize) -> (t: Option<&'s str>)
        requires
            *self is Token ==> offset + child_len(*self) <= source.spec_bytes().len() && on_boundary(
                source,
                offset as int,
            ) && on_boundary(source, offset + child_len(*self)),
        ensures
            match *self {
                GreenChild::Token { len, .. } => t matches Some(s) && s.spec_bytes()
                    == source.spec_bytes().subrange(offset as int, offset + len),
                GreenChild::Node(_) => t is None,
            },
    {
        match self {
            GreenChild::Token { len, .. } => {
                let _total = byte_len(source);
                Some(str_range(source, offset, offset + *len))
            },
            GreenChild::Node(_) => None,
        }
    }

    /// Append this child's text, placed at byte `offset` of `source`,
    /// to `out`; returns the offset past its last byte.
    pub fn write_text(&self, out: &mut String, source: &str, offset: usize) -> (end: usize)
        requires
            offset + child_len(*self) <= source.spec_bytes().len(),
            child_leaves_fit(*self, source, offset as int),
        ensures
            end == offset + child_len(*self),
            exists|added: Seq<char>|
                final(out)@ == old(out)@ + added && vstd::utf8::encode_utf8(added)
                    == source.spec_bytes().subrange(offset as int, end as int),
        decreases *self, 1nat,
    {
        match self {
            GreenChild::Node(n) => n.write_text(out, source, offset),
            GreenChild::Token { len, .. } => {
                let _total = byte_len(source);
                let piece = str_range(source, offset, offset + *len);
                push_str(out, piece);
                assert(vstd::utf8::encode_utf8(piece@) == piece.spec_bytes());
                offset + *len
            },
        }
    }
}

} // verus!
