//! Anchors and aliases in the lossless tree: every `&name` and
//! `*name` lexeme in source order, with the byte span of its mark and
//! its name, so edits can choose between propagating through an alias
//! and breaking it.
use vstd::prelude::*;
use vstd::string::StringSliceAdditionalSpecFns;

use crate::cst::green::{
    child_leaves, child_len, children_len, leaves_len, lemma_child_node_smaller,
    lemma_leaves_len_concat, seq_leaves, GreenChild, GreenNode,
};
use crate::cst::syntax::SyntaxKind;
use crate::cst::document::{is_blank_byte, trim_trailing_blank, trimmed_end};
use crate::cst::edit::{checked_edit, replace_span, spec_replace_span};
use crate::error::Error;
use crate::text::{
    decimal, lemma_encode_utf8_concat, lemma_ends_are_boundaries, on_boundary, owned_string,
    push_char, push_decimal, push_str, same_text, str_range,
};

verus! {

/// An `&name` anchor declaration discovered in the document source.
#[derive(Debug, PartialEq, Eq)]
pub struct AnchorInfo {
    /// The anchor name, without the leading `&`.
    pub name: String,
    /// Byte range of the `&name` lexeme itself in the document source.
    pub mark_span: (usize, usize),
}

/// A `*name` alias reference discovered in the document source.
#[derive(Debug, PartialEq, Eq)]
pub struct AliasInfo {
    /// The alias name, without the leading `*`.
    pub name: String,
    /// Byte range of the `*name` lexeme itself in the document source.
    pub mark_span: (usize, usize),
}

impl Clone for AnchorInfo {
    fn clone(&self) -> (r: Self)
        ensures
            r == *self,
    {
        AnchorInfo { name: self.name.clone(), mark_span: self.mark_span }
    }
}

impl Clone for AliasInfo {
    fn clone(&self) -> (r: Self)
        ensures
            r == *self,
    {
        AliasInfo { name: self.name.clone(), mark_span: self.mark_span }
    }
}

/// Leaves as the machine holds them, read as plain values.
pub open spec fn leaf_views(v: Seq<(SyntaxKind, usize)>) -> Seq<(SyntaxKind, nat)> {
    v.map_values(|p: (SyntaxKind, usize)| (p.0, p.1 as nat))
}

/// Append the leaves under `node`, in document order, to `out`.
pub fn collect_leaves(node: &GreenNode, out: &mut Vec<(SyntaxKind, usize)>)
    ensures
        leaf_views(final(out)@) == leaf_views(old(out)@) + seq_leaves(node.spec_children()),
    decreases node,
{
    let children = node.children();
    let ghost cs = node.spec_children();
    let ghost start = leaf_views(out@);
    let mut k: usize = 0;
    proof {
        assert(cs.take(0) =~= Seq::<GreenChild>::empty());
        assert(start + seq_leaves(cs.take(0)) =~= start);
    }
    while k < children.len()
        invariant
            children@ == cs,
            cs == node.spec_children(),
            k <= cs.len(),
            leaf_views(out@) == start + seq_leaves(cs.take(k as int)),
        decreases cs.len() - k,
    {
        proof {
            assert(cs.take(k + 1).drop_last() =~= cs.take(k as int));
            assert(cs.take(k + 1).last() == cs[k as int]);
            assert(seq_leaves(cs.take(k + 1)) == seq_leaves(cs.take(k as int)) + child_leaves(
                cs[k as int],
            ));
        }
        let ghost prev = leaf_views(out@);
        match &children[k] {
            GreenChild::Token { kind, len } => {
                let ghost before = out@;
                out.push((*kind, *len));
                proof {
                    assert(leaf_views(out@) =~= leaf_views(before) + seq![(*kind, *len as nat)]);
                    assert(child_leaves(cs[k as int]) == seq![(*kind, *len as nat)]);
                }
            },
            GreenChild::Node(inner) => {
                proof {
                    lemma_child_node_smaller(*node, k as int);
                }
                collect_leaves(inner, out);
                proof {
                    assert(child_leaves(cs[k as int]) == seq_leaves(inner.spec_children()));
                }
            },
        }
        proof {
            assert(leaf_views(out@) == prev + child_leaves(cs[k as int]));
            assert(leaf_views(out@) =~= start + seq_leaves(cs.take(k + 1)));
        }
        k += 1;
    }
    proof {
        assert(cs.take(k as int) =~= cs);
    }
}

/// The byte spans of the leaves of kind `kind`, in order, for leaves
/// laid end to end from offset `base`.
pub open spec fn mark_spans(ls: Seq<(SyntaxKind, nat)>, kind: SyntaxKind, base: nat) -> Seq<
    (nat, nat),
>
    decreases ls.len(),
{
    if ls.len() == 0 {
        seq![]
    } else {
        let p = base + leaves_len(ls.drop_last());
        mark_spans(ls.drop_last(), kind, base) + if ls.last().0 == kind {
            seq![(p, p + ls.last().1)]
        } else {
            seq![]
        }
    }
}

/// The anchor and alias marks of a run of leaves, laid end to end from
/// offset 0 in `source`, are well placed: each is at least one byte
/// long and lies within the source, its marker (`&` or `*`) is one
/// whole character, and it ends on a character boundary.
pub open spec fn marks_fit(ls: Seq<(SyntaxKind, nat)>, source: &str) -> bool {
    forall|k: int|
        0 <= k < ls.len() && (#[trigger] ls[k].0 == SyntaxKind::AnchorMark || ls[k].0
            == SyntaxKind::AliasMark) ==> {
            let off = leaves_len(ls.take(k));
            &&& ls[k].1 >= 1
            &&& off + ls[k].1 <= source.spec_bytes().len()
            &&& on_boundary(source, off + 1int)
            &&& on_boundary(source, (off + ls[k].1) as int)
        }
}

/// Each mark's span and the text after its marker byte.
fn marks_of_kind(leaves: &Vec<(SyntaxKind, usize)>, source: &str, kind: SyntaxKind) -> (r: Vec<
    ((usize, usize), String),
>)
    requires
        kind == SyntaxKind::AnchorMark || kind == SyntaxKind::AliasMark,
        marks_fit(leaf_views(leaves@), source),
        leaves_len(leaf_views(leaves@)) <= usize::MAX,
    ensures
        r@.map_values(|m: ((usize, usize), String)| (m.0.0 as nat, m.0.1 as nat)) == mark_spans(
            leaf_views(leaves@),
            kind,
            0,
        ),
        forall|i: int|
            0 <= i < r@.len() ==> vstd::utf8::encode_utf8((#[trigger] r@[i]).1@)
                == source.spec_bytes().subrange(r@[i].0.0 + 1, r@[i].0.1 as int),
{
    let ghost ls = leaf_views(leaves@);
    let mut out: Vec<((usize, usize), String)> = Vec::new();
    let mut pos: usize = 0;
    let mut k: usize = 0;
    proof {
        assert(ls.take(0) =~= Seq::<(SyntaxKind, nat)>::empty());
    }
    while k < leaves.len()
        invariant
            ls == leaf_views(leaves@),
            kind == SyntaxKind::AnchorMark || kind == SyntaxKind::AliasMark,
            marks_fit(ls, source),
            leaves_len(ls) <= usize::MAX,
            k <= leaves@.len(),
            pos == leaves_len(ls.take(k as int)),
            out@.map_values(|m: ((usize, usize), String)| (m.0.0 as nat, m.0.1 as nat))
                == mark_spans(ls.take(k as int), kind, 0),
            forall|i: int|
                0 <= i < out@.len() ==> vstd::utf8::encode_utf8((#[trigger] out@[i]).1@)
                    == source.spec_bytes().subrange(out@[i].0.0 + 1, out@[i].0.1 as int),
        decreases leaves@.len() - k,
    {
        let (lk, len) = leaves[k];
        proof {
            let t = ls.take(k + 1);
            assert(t.drop_last() =~= ls.take(k as int));
            assert(t.last() == (lk, len as nat));
            lemma_leaves_len_concat(ls.take(k as int), seq![(lk, len as nat)]);
            assert(ls.take(k as int) + seq![(lk, len as nat)] =~= t);
            assert(ls =~= t + ls.skip(k + 1));
            lemma_leaves_len_concat(t, ls.skip(k + 1));
            crate::cst::green::lemma_leaves_len_one((lk, len as nat));
        }
        let ghost before = out@;
        if lk == kind {
            proof {
                assert(ls[k as int].0 == kind);
            }
            let _total = crate::text::byte_len(source);
            let text = str_range(source, pos + 1, pos + len);
            out.push(((pos, pos + len), owned_string(text)));
            proof {
                assert(out@.map_values(|m: ((usize, usize), String)| (m.0.0 as nat, m.0.1 as nat))
                    =~= before.map_values(|m: ((usize, usize), String)| (m.0.0 as nat, m.0.1 as nat))
                    + seq![(pos as nat, (pos + len) as nat)]);
            }
        } else {
            proof {
                assert(out@ == before);
            }
        }
        pos = pos + len;
        k += 1;
    }
    proof {
        assert(ls.take(k as int) =~= ls);
    }
    out
}


/// Spans of a run of marks, as plain values.
pub open spec fn anchor_spans(v: Seq<AnchorInfo>) -> Seq<(nat, nat)> {
    v.map_values(|a: AnchorInfo| (a.mark_span.0 as nat, a.mark_span.1 as nat))
}

/// Spans of a run of marks, as plain values.
pub open spec fn alias_spans(v: Seq<AliasInfo>) -> Seq<(nat, nat)> {
    v.map_values(|a: AliasInfo| (a.mark_span.0 as nat, a.mark_span.1 as nat))
}

/// The marks under `root` of `kind`, with their names.
fn marks_under(root: &GreenNode, source: &str, kind: SyntaxKind) -> (r: Vec<
    ((usize, usize), String),
>)
    requires
        kind == SyntaxKind::AnchorMark || kind == SyntaxKind::AliasMark,
        marks_fit(seq_leaves(root.spec_children()), source),
    ensures
        r@.map_values(|m: ((usize, usize), String)| (m.0.0 as nat, m.0.1 as nat)) == mark_spans(
            seq_leaves(root.spec_children()),
            kind,
            0,
        ),
        forall|i: int|
            0 <= i < r@.len() ==> vstd::utf8::encode_utf8((#[trigger] r@[i]).1@)
                == source.spec_bytes().subrange(r@[i].0.0 + 1, r@[i].0.1 as int),
{
    let _total = root.text_len();
    let mut leaves: Vec<(SyntaxKind, usize)> = Vec::new();
    collect_leaves(root, &mut leaves);
    proof {
        assert(leaf_views(leaves@) =~= seq_leaves(root.spec_children()));
    }
    marks_of_kind(&leaves, source, kind)
}

/// Every `&name` declaration under `root`, in source order: the span
/// of each anchor leaf and the text after its `&`.
pub fn anchors(root: &GreenNode, source: &str) -> (r: Vec<AnchorInfo>)
    requires
        marks_fit(seq_leaves(root.spec_children()), source),
    ensures
        anchor_spans(r@) == mark_spans(seq_leaves(root.spec_children()), SyntaxKind::AnchorMark, 0),
        forall|i: int|
            0 <= i < r@.len() ==> vstd::utf8::encode_utf8((#[trigger] r@[i]).name@)
                == source.spec_bytes().subrange(r@[i].mark_span.0 + 1, r@[i].mark_span.1 as int),
{
    let marks = marks_under(root, source, SyntaxKind::AnchorMark);
    let ghost spans = marks@.map_values(|m: ((usize, usize), String)| (m.0.0 as nat, m.0.1 as nat));
    let mut out: Vec<AnchorInfo> = Vec::new();
    let mut i: usize = 0;
    while i < marks.len()
        invariant
            i <= marks@.len(),
            spans == marks@.map_values(|m: ((usize, usize), String)| (m.0.0 as nat, m.0.1 as nat)),
            anchor_spans(out@) == spans.take(i as int),
            forall|j: int| 0 <= j < i ==> (#[trigger] out@[j]).name@ == marks@[j].1@
                && out@[j].mark_span == marks@[j].0,
            out@.len() == i,
        decreases marks@.len() - i,
    {
        let (span, name) = (marks[i].0, marks[i].1.clone());
        out.push(AnchorInfo { name, mark_span: span });
        proof {
            assert(anchor_spans(out@) =~= spans.take(i + 1));
        }
        i += 1;
    }
    proof {
        assert(spans.take(i as int) =~= spans);
    }
    out
}

/// Every `*name` reference under `root`, in source order: the span
/// of each alias leaf and the text after its `*`.
pub fn aliases(root: &GreenNode, source: &str) -> (r: Vec<AliasInfo>)
    requires
        marks_fit(seq_leaves(root.spec_children()), source),
    ensures
        alias_spans(r@) == mark_spans(seq_leaves(root.spec_children()), SyntaxKind::AliasMark, 0),
        forall|i: int|
            0 <= i < r@.len() ==> vstd::utf8::encode_utf8((#[trigger] r@[i]).name@)
                == source.spec_bytes().subrange(r@[i].mark_span.0 + 1, r@[i].mark_span.1 as int),
{
    let marks = marks_under(root, source, SyntaxKind::AliasMark);
    let ghost spans = marks@.map_values(|m: ((usize, usize), String)| (m.0.0 as nat, m.0.1 as nat));
    let mut out: Vec<AliasInfo> = Vec::new();
    let mut i: usize = 0;
    while i < marks.len()
        invariant
            i <= marks@.len(),
            spans == marks@.map_values(|m: ((usize, usize), String)| (m.0.0 as nat, m.0.1 as nat)),
            alias_spans(out@) == spans.take(i as int),
            forall|j: int| 0 <= j < i ==> (#[trigger] out@[j]).name@ == marks@[j].1@
                && out@[j].mark_span == marks@[j].0,
            out@.len() == i,
        decreases marks@.len() - i,
    {
        let (span, name) = (marks[i].0, marks[i].1.clone());
        out.push(AliasInfo { name, mark_span: span });
        proof {
            assert(alias_spans(out@) =~= spans.take(i + 1));
        }
        i += 1;
    }
    proof {
        assert(spans.take(i as int) =~= spans);
    }
    out
}

/// The aliases of `v` named `name`, in order.
pub open spec fn named(v: Seq<AliasInfo>, name: Seq<char>) -> Seq<AliasInfo>
    decreases v.len(),
{
    if v.len() == 0 {
        seq![]
    } else {
        named(v.drop_last(), name) + if v.last().name@ == name {
            seq![v.last()]
        } else {
            seq![]
        }
    }
}

/// An alias as a plain value: its name and the span of its mark.
pub open spec fn alias_views(v: Seq<AliasInfo>) -> Seq<(Seq<char>, (usize, usize))> {
    v.map_values(|a: AliasInfo| (a.name@, a.mark_span))
}

proof fn lemma_named_views(a: Seq<AliasInfo>, b: Seq<AliasInfo>, name: Seq<char>)
    requires
        alias_views(a) == alias_views(b),
    ensures
        alias_views(named(a, name)) == alias_views(named(b, name)),
    decreases a.len(),
{
    assert(a.len() == alias_views(a).len());
    assert(b.len() == alias_views(b).len());
    if a.len() > 0 {
        assert(alias_views(a.drop_last()) =~= alias_views(a).drop_last());
        assert(alias_views(b.drop_last()) =~= alias_views(b).drop_last());
        lemma_named_views(a.drop_last(), b.drop_last(), name);
        assert(alias_views(a)[a.len() - 1] == alias_views(b)[b.len() - 1]);
        let ta = if a.last().name@ == name {
            seq![a.last()]
        } else {
            seq![]
        };
        let tb = if b.last().name@ == name {
            seq![b.last()]
        } else {
            seq![]
        };
        assert(alias_views(named(a.drop_last(), name) + ta) =~= alias_views(named(a.drop_last(), name))
            + alias_views(ta));
        assert(alias_views(named(b.drop_last(), name) + tb) =~= alias_views(named(b.drop_last(), name))
            + alias_views(tb));
        assert(alias_views(ta) =~= alias_views(tb));
    }
}

/// Law: the aliases of a name are the aliases under `root` (as
/// [`aliases`] gives them) whose name it is, in source order.
pub proof fn lemma_aliases_of_filters(
    root: GreenNode,
    source: &str,
    name: Seq<char>,
    all: Seq<AliasInfo>,
    r: Seq<AliasInfo>,
)
    requires
        alias_spans(all) == mark_spans(seq_leaves(root.spec_children()), SyntaxKind::AliasMark, 0),
        forall|i: int|
            0 <= i < all.len() ==> vstd::utf8::encode_utf8((#[trigger] all[i]).name@)
                == source.spec_bytes().subrange(all[i].mark_span.0 + 1, all[i].mark_span.1 as int),
        exists|all2: Seq<AliasInfo>|
            alias_spans(all2) == mark_spans(seq_leaves(root.spec_children()), SyntaxKind::AliasMark, 0)
                && (forall|i: int|
                0 <= i < all2.len() ==> vstd::utf8::encode_utf8((#[trigger] all2[i]).name@)
                    == source.spec_bytes().subrange(all2[i].mark_span.0 + 1, all2[i].mark_span.1 as int))
                && r == named(all2, name),
    ensures
        alias_views(r) == alias_views(named(all, name)),
{
    let all2 = choose|all2: Seq<AliasInfo>|
        alias_spans(all2) == mark_spans(seq_leaves(root.spec_children()), SyntaxKind::AliasMark, 0)
            && (forall|i: int|
            0 <= i < all2.len() ==> vstd::utf8::encode_utf8((#[trigger] all2[i]).name@)
                == source.spec_bytes().subrange(all2[i].mark_span.0 + 1, all2[i].mark_span.1 as int))
            && r == named(all2, name);
    assert(all.len() == alias_spans(all).len());
    assert(all2.len() == alias_spans(all2).len());
    assert forall|i: int| 0 <= i < all.len() implies #[trigger] alias_views(all)[i] == alias_views(all2)[i] by {
        assert(alias_spans(all)[i] == alias_spans(all2)[i]);
        assert(all[i].mark_span == all2[i].mark_span);
        vstd::utf8::encode_utf8_decode_utf8(all[i].name@);
        vstd::utf8::encode_utf8_decode_utf8(all2[i].name@);
    }
    assert(alias_views(all) =~= alias_views(all2));
    lemma_named_views(all2, all, name);
}

/// The aliases under `root` whose name is `name`, in source order.
pub fn aliases_of(root: &GreenNode, source: &str, name: &str) -> (r: Vec<AliasInfo>)
    requires
        marks_fit(seq_leaves(root.spec_children()), source),
    ensures
        exists|all: Seq<AliasInfo>|
            alias_spans(all) == mark_spans(seq_leaves(root.spec_children()), SyntaxKind::AliasMark, 0)
                && (forall|i: int|
                0 <= i < all.len() ==> vstd::utf8::encode_utf8((#[trigger] all[i]).name@)
                    == source.spec_bytes().subrange(all[i].mark_span.0 + 1, all[i].mark_span.1 as int))
                && r@ == named(all, name@),
{
    let all = aliases(root, source);
    let mut out: Vec<AliasInfo> = Vec::new();
    let mut i: usize = 0;
    while i < all.len()
        invariant
            i <= all@.len(),
            out@ == named(all@.take(i as int), name@),
        decreases all@.len() - i,
    {
        proof {
            assert(all@.take(i + 1).drop_last() =~= all@.take(i as int));
        }
        if same_text(all[i].name.as_str(), name) {
            out.push(all[i].clone());
        }
        proof {
            assert(out@ =~= named(all@.take(i + 1), name@));
        }
        i += 1;
    }
    proof {
        assert(all@.take(i as int) =~= all@);
    }
    out
}

/// `true` when `name` is a valid anchor name: not empty, and free of
/// flow indicators (`,[]{}`) and blanks.
pub open spec fn spec_valid_anchor_name(name: Seq<u8>) -> bool {
    name.len() > 0 && forall|i: int|
        0 <= i < name.len() ==> !(#[trigger] name[i] == 44 || name[i] == 91 || name[i] == 93
            || name[i] == 123 || name[i] == 125 || name[i] == 32 || name[i] == 9 || name[i] == 13
            || name[i] == 10)
}

/// Whether `name` can name an anchor (see [`spec_valid_anchor_name`]).
pub fn is_valid_anchor_name(name: &str) -> (r: bool)
    ensures
        r == spec_valid_anchor_name(name.spec_bytes()),
{
    let b = name.as_bytes();
    if b.len() == 0 {
        return false;
    }
    let mut i: usize = 0;
    while i < b.len()
        invariant
            b@ == name.spec_bytes(),
            i <= b@.len(),
            forall|k: int|
                0 <= k < i ==> !(#[trigger] b@[k] == 44 || b@[k] == 91 || b@[k] == 93 || b@[k]
                    == 123 || b@[k] == 125 || b@[k] == 32 || b@[k] == 9 || b@[k] == 13 || b@[k]
                    == 10),
        decreases b@.len() - i,
    {
        let c = b[i];
        if c == 44 || c == 91 || c == 93 || c == 123 || c == 125 || c == 32 || c == 9 || c == 13
            || c == 10 {
            return false;
        }
        i += 1;
    }
    true
}

/// Trivia and node properties: what may stand between an anchor and
/// the value it decorates.
pub open spec fn spec_trivia_or_property(kind: SyntaxKind) -> bool {
    kind == SyntaxKind::Whitespace || kind == SyntaxKind::Newline || kind == SyntaxKind::Comment
        || kind == SyntaxKind::Bom || kind == SyntaxKind::Directive || kind == SyntaxKind::TagMark
        || kind == SyntaxKind::AnchorMark
}

/// Whether `kind` is trivia or a node property (see
/// [`spec_trivia_or_property`]).
pub fn is_trivia_or_property(kind: SyntaxKind) -> (r: bool)
    ensures
        r == spec_trivia_or_property(kind),
{
    match kind {
        SyntaxKind::Whitespace | SyntaxKind::Newline | SyntaxKind::Comment | SyntaxKind::Bom
        | SyntaxKind::Directive | SyntaxKind::TagMark | SyntaxKind::AnchorMark => true,
        _ => false,
    }
}

// ── The value each anchor decorates ─────────────────────────────────

/// The kind of a child: a leaf's or a node's.
pub open spec fn child_kind(c: GreenChild) -> SyntaxKind {
    match c {
        GreenChild::Token { kind, .. } => kind,
        GreenChild::Node(m) => m.spec_kind(),
    }
}

/// The span of the first child from the `j`-th on (the `j`-th starting at
/// `pos`) that is neither trivia nor a property; empty at `anchor_end`
/// when there is none.
pub open spec fn decorated_from(cs: Seq<GreenChild>, j: int, pos: int, anchor_end: int) -> (int, int)
    decreases cs.len() - j,
{
    if j < 0 || j >= cs.len() {
        (anchor_end, anchor_end)
    } else if spec_trivia_or_property(child_kind(cs[j])) {
        decorated_from(cs, j + 1, pos + child_len(cs[j]), anchor_end)
    } else {
        (pos, pos + child_len(cs[j]))
    }
}

/// Each anchor leaf under the children of `n` from the `k`-th on (the
/// `k`-th starting at `pos`), in document order: its span, and the span
/// of the value it decorates — the first later sibling that is neither
/// trivia nor a property, or an empty span at the anchor's end.
pub open spec fn anchor_values_from(n: GreenNode, k: int, pos: int) -> Seq<((int, int), (int, int))>
    decreases n, n.spec_children().len() - k,
{
    let cs = n.spec_children();
    if k < 0 || k >= cs.len() {
        seq![]
    } else {
        let c = cs[k];
        let end = pos + child_len(c);
        let here = match c {
            GreenChild::Token { kind, .. } => if kind == SyntaxKind::AnchorMark {
                seq![((pos, end), decorated_from(cs, k + 1, end, end))]
            } else {
                seq![]
            },
            GreenChild::Node(m) => {
                proof {
                    lemma_child_node_smaller(n, k);
                }
                anchor_values_from(m, 0, pos)
            },
        };
        here + anchor_values_from(n, k + 1, end)
    }
}

/// A run of span pairs, as plain values.
pub open spec fn span_pairs(v: Seq<((usize, usize), (usize, usize))>) -> Seq<((int, int), (int, int))> {
    v.map_values(
        |p: ((usize, usize), (usize, usize))| ((p.0.0 as int, p.0.1 as int), (p.1.0 as int, p.1.1 as int)),
    )
}

/// The span of the value decorated by the anchor at `anchor_idx` of
/// `children`, the anchor starting at `anchor_start` (see
/// [`decorated_from`]).
fn decorated_value_span(children: &[GreenChild], anchor_start: usize, anchor_idx: usize, limit: usize) -> (r: (
    usize,
    usize,
))
    requires
        anchor_idx < children@.len(),
        anchor_start + children_len(children@.skip(anchor_idx as int)) <= limit,
    ensures
        (r.0 as int, r.1 as int) == decorated_from(
            children@,
            anchor_idx + 1,
            anchor_start + child_len(children@[anchor_idx as int]),
            anchor_start + child_len(children@[anchor_idx as int]),
        ),
{
    let ghost cs = children@;
    proof {
        lemma_children_len_skip(cs, anchor_idx as int);
    }
    let anchor_end = anchor_start + children[anchor_idx].text_len();
    let mut pos = anchor_end;
    let mut j = anchor_idx + 1;
    while j < children.len()
        invariant
            children@ == cs,
            anchor_idx < j <= cs.len(),
            anchor_end == anchor_start + child_len(cs[anchor_idx as int]),
            pos + children_len(cs.skip(j as int)) <= limit,
            decorated_from(cs, anchor_idx + 1, anchor_end as int, anchor_end as int) == decorated_from(
                cs,
                j as int,
                pos as int,
                anchor_end as int,
            ),
        decreases cs.len() - j,
    {
        proof {
            lemma_children_len_skip(cs, j as int);
        }
        let len = children[j].text_len();
        let kind = match &children[j] {
            GreenChild::Token { kind, .. } => *kind,
            GreenChild::Node(inner) => inner.kind(),
        };
        if !is_trivia_or_property(kind) {
            return (pos, pos + len);
        }
        pos = pos + len;
        j += 1;
    }
    (anchor_end, anchor_end)
}

/// The length of the children from the `j`-th on is the `j`-th's and
/// that of the rest.
proof fn lemma_children_len_skip(cs: Seq<GreenChild>, j: int)
    requires
        0 <= j < cs.len(),
    ensures
        children_len(cs.skip(j)) == child_len(cs[j]) + children_len(cs.skip(j + 1)),
        children_len(cs.take(j)) + children_len(cs.skip(j)) == children_len(cs),
    decreases cs.len(),
{
    lemma_children_len_split(cs, j);
    lemma_children_len_split(cs.skip(j), 1);
    assert(cs.skip(j).take(1) =~= seq![cs[j]]);
    assert(cs.skip(j).skip(1) =~= cs.skip(j + 1));
    assert(seq![cs[j]].drop_last() =~= Seq::<GreenChild>::empty());
    assert(seq![cs[j]].last() == cs[j]);
    assert(children_len(Seq::<GreenChild>::empty()) == 0);
    assert(children_len(seq![cs[j]]) == child_len(cs[j]));
}

/// The length of a run of children is that of its first `j` and that of
/// the rest.
proof fn lemma_children_len_split(cs: Seq<GreenChild>, j: int)
    requires
        0 <= j <= cs.len(),
    ensures
        children_len(cs.take(j)) + children_len(cs.skip(j)) == children_len(cs),
    decreases cs.len(),
{
    if j == cs.len() {
        assert(cs.take(j) =~= cs);
        assert(cs.skip(j) =~= Seq::<GreenChild>::empty());
    } else {
        lemma_children_len_split(cs.drop_last(), j);
        assert(cs.drop_last().take(j) =~= cs.take(j));
        assert(cs.skip(j).drop_last() =~= cs.drop_last().skip(j));
        assert(cs.skip(j).last() == cs.last());
    }
}

/// Append each anchor under `node`, placed at byte `base`, with the span
/// of the value it decorates (see [`anchor_values_from`]).
fn walk_anchor_value_spans_inner(node: &GreenNode, base: usize, out: &mut Vec<((usize, usize), (usize, usize))>)
    requires
        base + node.spec_text_len() <= usize::MAX,
    ensures
        span_pairs(final(out)@) == span_pairs(old(out)@) + anchor_values_from(*node, 0, base as int),
    decreases node,
{
    let children = node.children();
    let ghost cs = node.spec_children();
    let total = node.text_len();
    let ghost start = span_pairs(out@);
    let mut pos = base;
    let mut k: usize = 0;
    proof {
        assert(cs.take(0) =~= Seq::<GreenChild>::empty());
        assert(start + anchor_values_from(*node, 0, base as int) =~= start + anchor_values_from(
            *node,
            0,
            base as int,
        ));
        assert(cs.skip(0) =~= cs);
    }
    while k < children.len()
        invariant
            children@ == cs,
            cs == node.spec_children(),
            total == children_len(cs),
            base + total <= usize::MAX,
            k <= cs.len(),
            pos == base + children_len(cs.take(k as int)),
            span_pairs(out@) + anchor_values_from(*node, k as int, pos as int) == start
                + anchor_values_from(*node, 0, base as int),
        decreases cs.len() - k,
    {
        proof {
            lemma_children_len_skip(cs, k as int);
            assert(cs.take(k + 1).drop_last() =~= cs.take(k as int));
        }
        let ghost before = span_pairs(out@);
        let len = children[k].text_len();
        match &children[k] {
            GreenChild::Token { kind, .. } => {
                if *kind == SyntaxKind::AnchorMark {
                    let value_span = decorated_value_span(children, pos, k, base + total);
                    out.push(((pos, pos + len), value_span));
                    proof {
                        assert(span_pairs(out@) =~= before + seq![
                            ((pos as int, pos + len), decorated_from(cs, k + 1, pos + len, pos + len)),
                        ]);
                    }
                } else {
                    assert(span_pairs(out@) =~= before + Seq::<((int, int), (int, int))>::empty());
                }
            },
            GreenChild::Node(inner) => {
                proof {
                    lemma_child_node_smaller(*node, k as int);
                }
                walk_anchor_value_spans_inner(inner, pos, out);
            },
        }
        proof {
            assert(span_pairs(out@) + anchor_values_from(*node, k + 1, pos + len) =~= before
                + anchor_values_from(*node, k as int, pos as int));
        }
        pos = pos + len;
        k += 1;
    }
    proof {
        assert(span_pairs(out@) + Seq::<((int, int), (int, int))>::empty() =~= span_pairs(out@));
    }
}

/// An anchor, with its name, the span of its `&name` leaf and the span of
/// the value it decorates.
#[derive(Debug)]
pub struct AnchoredValue {
    pub name: String,
    pub mark_span: (usize, usize),
    pub value_span: (usize, usize),
}

/// The spans of a run of anchored values, as plain values.
pub open spec fn anchored_spans(v: Seq<AnchoredValue>) -> Seq<((int, int), (int, int))> {
    v.map_values(
        |a: AnchoredValue|
            (
                (a.mark_span.0 as int, a.mark_span.1 as int),
                (a.value_span.0 as int, a.value_span.1 as int),
            ),
    )
}

/// Every anchor's name and value lie on character boundaries of `source`.
pub open spec fn anchored_fit(v: Seq<((int, int), (int, int))>, source: &str) -> bool {
    forall|i: int|
        0 <= i < v.len() ==> {
            let ((ms, me), (vs, ve)) = #[trigger] v[i];
            &&& 0 <= ms && ms + 1 <= me <= source.spec_bytes().len()
            &&& on_boundary(source, ms + 1) && on_boundary(source, me)
            &&& 0 <= vs <= ve <= source.spec_bytes().len()
            &&& on_boundary(source, vs) && on_boundary(source, ve)
        }
}

/// Every `&name` under `root` (placed at byte `base`), in document
/// order, with its name and the span of the value it decorates (see
/// [`anchor_values_from`]).
pub fn walk_anchor_value_spans(root: &GreenNode, source: &str, base: usize) -> (r: Vec<AnchoredValue>)
    requires
        base + root.spec_text_len() <= usize::MAX,
        anchored_fit(anchor_values_from(*root, 0, base as int), source),
    ensures
        anchored_spans(r@) == anchor_values_from(*root, 0, base as int),
        forall|i: int|
            0 <= i < r@.len() ==> vstd::utf8::encode_utf8((#[trigger] r@[i]).name@)
                == source.spec_bytes().subrange(r@[i].mark_span.0 + 1, r@[i].mark_span.1 as int),
{
    let mut spans: Vec<((usize, usize), (usize, usize))> = Vec::new();
    walk_anchor_value_spans_inner(root, base, &mut spans);
    let ghost all = span_pairs(spans@);
    proof {
        assert(all =~= anchor_values_from(*root, 0, base as int));
    }
    let mut out: Vec<AnchoredValue> = Vec::new();
    let mut i: usize = 0;
    while i < spans.len()
        invariant
            i <= spans@.len(),
            all == span_pairs(spans@),
            anchored_fit(all, source),
            anchored_spans(out@) == all.take(i as int),
            out@.len() == i,
            forall|j: int|
                0 <= j < i ==> vstd::utf8::encode_utf8((#[trigger] out@[j]).name@)
                    == source.spec_bytes().subrange(out@[j].mark_span.0 + 1, out@[j].mark_span.1 as int),
        decreases spans@.len() - i,
    {
        let (mark, value) = spans[i];
        assert(all[i as int] == ((mark.0 as int, mark.1 as int), (value.0 as int, value.1 as int)));
        let text = str_range(source, mark.0 + 1, mark.1);
        let name = owned_string(text);
        proof {
            vstd::utf8::encode_utf8_valid_utf8(text@);
        }
        out.push(AnchoredValue { name, mark_span: mark, value_span: value });
        proof {
            assert(anchored_spans(out@) =~= all.take(i + 1));
        }
        i += 1;
    }
    proof {
        assert(all.take(i as int) =~= all);
    }
    out
}

/// The value span of the last anchor named `name` (given as its UTF-8
/// bytes) among `v` whose mark starts before byte `before`.
pub open spec fn chosen_value(
    b: Seq<u8>,
    v: Seq<((int, int), (int, int))>,
    name: Seq<u8>,
    before: int,
) -> Option<(int, int)>
    decreases v.len(),
{
    if v.len() == 0 {
        None
    } else {
        let last = v.last();
        if b.subrange(last.0.0 + 1, last.0.1) == name && last.0.0 < before {
            Some(last.1)
        } else {
            chosen_value(b, v.drop_last(), name, before)
        }
    }
}

/// What [`anchored_scalar_text`] finds: the trimmed byte range of the
/// value of the last `&name` declared before byte `before`, or why there
/// is none (no such anchor, a value over several lines, an empty value).
pub open spec fn spec_anchored_scalar(
    b: Seq<u8>,
    v: Seq<((int, int), (int, int))>,
    name: Seq<char>,
    before: int,
) -> Result<(int, int), Seq<char>> {
    match chosen_value(b, v, vstd::utf8::encode_utf8(name), before) {
        None => Err(
            "materialise_alias_at: no `&"@ + name + "` anchor declared before byte "@ + decimal(
                before as nat,
            ),
        ),
        Some((vs, ve)) => {
            let te = trimmed_end(b, vs, ve);
            if exists|k: int| vs <= k < te && b[k] == 10 {
                Err(
                    "materialise_alias_at: anchor `&"@ + name
                        + "` decorates a multi-line block value — only scalar-valued anchors are materialisable in this scope. Use `Document::anchors()` + `Document::replace_span()` for manual block splicing."@,
                )
            } else if te == vs {
                Err("materialise_alias_at: anchor `&"@ + name + "` decorates an empty value"@)
            } else {
                Ok((vs, te))
            }
        },
    }
}

proof fn lemma_trimmed_end_range(b: Seq<u8>, start: int, end: int)
    requires
        start <= end,
    ensures
        start <= trimmed_end(b, start, end) <= end,
        forall|k: int| trimmed_end(b, start, end) <= k < end ==> is_blank_byte(#[trigger] b[k]),
    decreases end - start,
{
    if end > start && is_blank_byte(b[end - 1]) {
        lemma_trimmed_end_range(b, start, end - 1);
    }
}

/// The text of the scalar that the last `&name` declared before byte
/// `before` decorates, trailing blanks dropped; refused where no such
/// anchor exists, or its value spans several lines or is empty.
pub fn anchored_scalar_text<'s>(root: &GreenNode, source: &'s str, name: &str, before: usize) -> (r:
    Result<&'s str, Error>)
    requires
        root.spec_text_len() <= usize::MAX,
        anchored_fit(anchor_values_from(*root, 0, 0), source),
    ensures
        match spec_anchored_scalar(source.spec_bytes(), anchor_values_from(*root, 0, 0), name@, before as int) {
            Ok((vs, te)) => r matches Ok(t) && t.spec_bytes() == source.spec_bytes().subrange(vs, te),
            Err(m) => r matches Err(Error::Parse(m2)) && m2@ == m,
        },
{
    let ghost b = source.spec_bytes();
    let found = walk_anchor_value_spans(root, source, 0);
    let ghost all = anchored_spans(found@);
    let ghost key = vstd::utf8::encode_utf8(name@);
    let mut chosen: Option<(usize, usize)> = None;
    let mut i: usize = 0;
    proof {
        assert(all.take(0) =~= Seq::<((int, int), (int, int))>::empty());
    }
    while i < found.len()
        invariant
            i <= found@.len(),
            all == anchored_spans(found@),
            b == source.spec_bytes(),
            key == vstd::utf8::encode_utf8(name@),
            forall|j: int|
                0 <= j < found@.len() ==> vstd::utf8::encode_utf8((#[trigger] found@[j]).name@)
                    == b.subrange(found@[j].mark_span.0 + 1, found@[j].mark_span.1 as int),
            match chosen {
                Some((vs, ve)) => chosen_value(b, all.take(i as int), key, before as int) == Some(
                    (vs as int, ve as int),
                ),
                None => chosen_value(b, all.take(i as int), key, before as int) is None,
            },
        decreases found@.len() - i,
    {
        let a = &found[i];
        let same = same_text(a.name.as_str(), name);
        proof {
            assert(all.take(i + 1).drop_last() =~= all.take(i as int));
            assert(all.take(i + 1).last() == all[i as int]);
            vstd::utf8::encode_utf8_decode_utf8(a.name@);
            vstd::utf8::encode_utf8_decode_utf8(name@);
        }
        if same && a.mark_span.0 < before {
            chosen = Some(a.value_span);
        }
        i += 1;
    }
    proof {
        assert(all.take(i as int) =~= all);
    }
    match chosen {
        None => {
            let mut m = owned_string("materialise_alias_at: no `&");
            push_str(&mut m, name);
            push_str(&mut m, "` anchor declared before byte ");
            push_decimal(&mut m, before);
            Err(Error::Parse(m))
        },
        Some((vs, ve)) => {
            proof {
                lemma_chosen_in(b, all, key, before as int);
            }
            let (_, te) = trim_trailing_blank(source, vs, ve);
            proof {
                lemma_trimmed_end_range(b, vs as int, ve as int);
            }
            let bytes = source.as_bytes();
            let mut k = vs;
            let mut multi = false;
            while k < te
                invariant
                    bytes@ == b,
                    vs <= k <= te <= b.len(),
                    multi == exists|q: int| vs <= q < k && b[q] == 10,
                decreases te - k,
            {
                if bytes[k] == 10 {
                    multi = true;
                }
                k += 1;
            }
            if multi {
                let mut m = owned_string("materialise_alias_at: anchor `&");
                push_str(&mut m, name);
                push_str(
                    &mut m,
                    "` decorates a multi-line block value — only scalar-valued anchors are materialisable in this scope. Use `Document::anchors()` + `Document::replace_span()` for manual block splicing.",
                );
                return Err(Error::Parse(m));
            }
            if te == vs {
                let mut m = owned_string("materialise_alias_at: anchor `&");
                push_str(&mut m, name);
                push_str(&mut m, "` decorates an empty value");
                return Err(Error::Parse(m));
            }
            proof {
                if te < ve {
                    assert(is_blank_byte(b[te as int]));
                    crate::text::lemma_ascii_boundary(source, te as int);
                }
            }
            Ok(str_range(source, vs, te))
        },
    }
}

/// A chosen value span is one of the anchors' value spans.
proof fn lemma_chosen_in(b: Seq<u8>, v: Seq<((int, int), (int, int))>, name: Seq<u8>, before: int)
    ensures
        chosen_value(b, v, name, before) matches Some(sp) ==> exists|i: int| 0 <= i < v.len() && v[i].1 == sp,
    decreases v.len(),
{
    if v.len() > 0 {
        lemma_chosen_in(b, v.drop_last(), name, before);
        if let Some(sp) = chosen_value(b, v.drop_last(), name, before) {
            let i = choose|i: int| 0 <= i < v.drop_last().len() && v.drop_last()[i].1 == sp;
            assert(v[i] == v.drop_last()[i]);
        }
        assert(v[v.len() - 1] == v.last());
    }
}

/// The first span of `spans` that starts at `position`.
pub open spec fn span_starting_at(spans: Seq<(nat, nat)>, position: nat) -> Option<(nat, nat)>
    decreases spans.len(),
{
    if spans.len() == 0 {
        None
    } else if spans[0].0 == position {
        Some(spans[0])
    } else {
        span_starting_at(spans.drop_first(), position)
    }
}

/// What [`materialise_alias_at`] gives: the source with the alias mark
/// that starts at `position` replaced by the scalar its anchor
/// decorates (see [`spec_anchored_scalar`]), or why it cannot.
pub open spec fn spec_materialise_alias_at(root: GreenNode, source: &str, position: nat) -> Result<
    Seq<u8>,
    Seq<char>,
> {
    let b = source.spec_bytes();
    match span_starting_at(
        mark_spans(seq_leaves(root.spec_children()), SyntaxKind::AliasMark, 0),
        position,
    ) {
        None => Err(
            "materialise_alias_at: no alias mark begins at byte "@ + decimal(position),
        ),
        Some((ms, me)) => match spec_anchored_scalar(
            b,
            anchor_values_from(root, 0, 0),
            vstd::utf8::decode_utf8(b.subrange((ms + 1) as int, me as int)),
            ms as int,
        ) {
            Err(m) => Err(m),
            Ok((vs, te)) => spec_replace_span(
                source,
                ms as usize,
                me as usize,
                vstd::utf8::decode_utf8(b.subrange(vs, te)),
            ),
        },
    }
}

/// The source with the alias mark that starts at byte `position`
/// replaced by the text of the scalar that the closest earlier anchor of
/// its name decorates; refused where no alias starts there or the
/// anchor's value is not a one-line scalar.
pub fn materialise_alias_at(root: &GreenNode, source: &str, position: usize) -> (r: Result<String, Error>)
    requires
        marks_fit(seq_leaves(root.spec_children()), source),
        anchored_fit(anchor_values_from(*root, 0, 0), source),
    ensures
        checked_edit(r, spec_materialise_alias_at(*root, source, position as nat)),
{
    let ghost b = source.spec_bytes();
    let _len = root.text_len();
    let found = aliases(root, source);
    let ghost spans = alias_spans(found@);
    let mut i: usize = 0;
    proof {
        assert(spans.skip(0) =~= spans);
    }
    while i < found.len() && found[i].mark_span.0 != position
        invariant
            i <= found@.len(),
            spans == alias_spans(found@),
            span_starting_at(spans, position as nat) == span_starting_at(spans.skip(i as int), position as nat),
        decreases found@.len() - i,
    {
        proof {
            assert(spans.skip(i as int)[0] == spans[i as int]);
            assert(spans.skip(i as int).drop_first() =~= spans.skip(i + 1));
        }
        i += 1;
    }
    if i >= found.len() {
        proof {
            assert(spans.skip(i as int) =~= Seq::<(nat, nat)>::empty());
        }
        let mut m = owned_string("materialise_alias_at: no alias mark begins at byte ");
        push_decimal(&mut m, position);
        return Err(Error::Parse(m));
    }
    let alias = &found[i];
    proof {
        assert(spans[i as int] == (alias.mark_span.0 as nat, alias.mark_span.1 as nat));
        assert(spans.skip(i as int)[0] == spans[i as int]);
        vstd::utf8::encode_utf8_decode_utf8(alias.name@);
    }
    let text = match anchored_scalar_text(root, source, alias.name.as_str(), alias.mark_span.0) {
        Ok(t) => t,
        Err(e) => {
            return Err(e);
        },
    };
    proof {
        vstd::utf8::encode_utf8_decode_utf8(text@);
    }
    replace_span(source, alias.mark_span.0, alias.mark_span.1, text)
}

// ── Renaming an anchor ──────────────────────────────────────────────

/// Every anchor and alias mark of a run of leaves, laid end to end from
/// offset 0, starts on a character boundary.
pub open spec fn mark_starts_fit(ls: Seq<(SyntaxKind, nat)>, source: &str) -> bool {
    forall|k: int|
        0 <= k < ls.len() && (#[trigger] ls[k].0 == SyntaxKind::AnchorMark || ls[k].0
            == SyntaxKind::AliasMark) ==> on_boundary(source, leaves_len(ls.take(k)) as int)
}

/// The marks (`true` for an anchor, `false` for an alias) whose name is
/// `name` (as UTF-8 bytes), with their spans, in source order.
pub open spec fn rename_sites(ls: Seq<(SyntaxKind, nat)>, b: Seq<u8>, name: Seq<u8>) -> Seq<
    (bool, (int, int)),
>
    decreases ls.len(),
{
    if ls.len() == 0 {
        seq![]
    } else {
        let p = leaves_len(ls.drop_last()) as int;
        let (k, len) = ls.last();
        rename_sites(ls.drop_last(), b, name) + if (k == SyntaxKind::AnchorMark || k
            == SyntaxKind::AliasMark) && b.subrange(p + 1, p + len) == name {
            seq![(k == SyntaxKind::AnchorMark, (p, p + len))]
        } else {
            seq![]
        }
    }
}

/// The character that opens a mark.
pub open spec fn marker_char(anchor: bool) -> char {
    if anchor {
        '&'
    } else {
        '*'
    }
}

/// The source bytes from `cursor` on with each site's mark rewritten to
/// its marker and `new`.
pub open spec fn stitched(b: Seq<u8>, sites: Seq<(bool, (int, int))>, new: Seq<u8>, cursor: int) -> Seq<
    u8,
>
    decreases sites.len(),
{
    if sites.len() == 0 {
        b.subrange(cursor, b.len() as int)
    } else {
        let (m, (s, e)) = sites[0];
        b.subrange(cursor, s) + vstd::utf8::encode_utf8(seq![marker_char(m)]) + new + stitched(
            b,
            sites.drop_first(),
            new,
            e,
        )
    }
}

/// What [`rename_anchor`] gives: the source with every `&old` and
/// `*old` rewritten to use `new`, and how many marks changed; or why it
/// cannot.
pub open spec fn spec_rename_anchor(root: GreenNode, source: &str, old: Seq<char>, new: Seq<char>) -> Result<
    (Seq<u8>, nat),
    Seq<char>,
> {
    let b = source.spec_bytes();
    let sites = rename_sites(seq_leaves(root.spec_children()), b, vstd::utf8::encode_utf8(old));
    if !spec_valid_anchor_name(vstd::utf8::encode_utf8(new)) {
        Err(
            "rename_anchor: `"@ + new
                + "` is not a valid YAML anchor name (must be non-empty and free of flow indicators / whitespace)"@,
        )
    } else if sites.len() == 0 {
        Err(
            "rename_anchor: no `&"@ + old + "` declaration or `*"@ + old
                + "` reference found in the document"@,
        )
    } else {
        Ok((stitched(b, sites, vstd::utf8::encode_utf8(new), 0), sites.len()))
    }
}

/// The source with the anchor `old` and every alias of it renamed to
/// `new`, in one edit, and how many marks changed; refused where `new`
/// cannot name an anchor, `old` occurs nowhere, or the renamed source
/// does not parse.
pub fn rename_anchor(root: &GreenNode, source: &str, old: &str, new: &str) -> (r: Result<(String, usize), Error>)
    requires
        marks_fit(seq_leaves(root.spec_children()), source),
        mark_starts_fit(seq_leaves(root.spec_children()), source),
    ensures
        match spec_rename_anchor(*root, source, old@, new@) {
            Ok((bytes, n)) => r matches Ok((t, k)) ==> vstd::utf8::encode_utf8(t@) == bytes && k == n,
            Err(m) => r matches Err(Error::Parse(m2)) && m2@ == m,
        },
{
    let ghost b = source.spec_bytes();
    let ghost old_b = vstd::utf8::encode_utf8(old@);
    let ghost new_b = vstd::utf8::encode_utf8(new@);
    if !is_valid_anchor_name(new) {
        let mut m = owned_string("rename_anchor: `");
        push_str(&mut m, new);
        push_str(
            &mut m,
            "` is not a valid YAML anchor name (must be non-empty and free of flow indicators / whitespace)",
        );
        return Err(Error::Parse(m));
    }
    let total_len = root.text_len();
    let len = crate::text::byte_len(source);
    let mut leaves: Vec<(SyntaxKind, usize)> = Vec::new();
    collect_leaves(root, &mut leaves);
    let ghost ls = leaf_views(leaves@);
    proof {
        assert(leaf_views(leaves@) =~= seq_leaves(root.spec_children()));
        assert(ls.take(0) =~= Seq::<(SyntaxKind, nat)>::empty());
    }
    // The marks named `old`, in source order.
    let mut sites: Vec<(bool, (usize, usize))> = Vec::new();
    let mut pos: usize = 0;
    let mut k: usize = 0;
    while k < leaves.len()
        invariant
            ls == leaf_views(leaves@),
            ls == seq_leaves(root.spec_children()),
            marks_fit(ls, source),
            mark_starts_fit(ls, source),
            leaves_len(ls) == total_len,
            b == source.spec_bytes(),
            len == b.len(),
            old_b == vstd::utf8::encode_utf8(old@),
            k <= leaves@.len(),
            pos == leaves_len(ls.take(k as int)),
            site_views(sites@) == rename_sites(ls.take(k as int), b, old_b),
            sites_fit(site_views(sites@), source, pos as int),
        decreases leaves@.len() - k,
    {
        let (lk, l) = leaves[k];
        proof {
            let t = ls.take(k + 1);
            assert(t.drop_last() =~= ls.take(k as int));
            assert(t.last() == (lk, l as nat));
            lemma_leaves_len_concat(ls.take(k as int), seq![(lk, l as nat)]);
            assert(ls.take(k as int) + seq![(lk, l as nat)] =~= t);
            assert(ls =~= t + ls.skip(k + 1));
            lemma_leaves_len_concat(t, ls.skip(k + 1));
            crate::cst::green::lemma_leaves_len_one((lk, l as nat));
        }
        let ghost before = site_views(sites@);
        if lk == SyntaxKind::AnchorMark || lk == SyntaxKind::AliasMark {
            proof {
                assert(ls[k as int].0 == lk);
            }
            let text = str_range(source, pos + 1, pos + l);
            let same = same_text(text, old);
            proof {
                vstd::utf8::encode_utf8_decode_utf8(text@);
                vstd::utf8::encode_utf8_decode_utf8(old@);
            }
            if same {
                sites.push((lk == SyntaxKind::AnchorMark, (pos, pos + l)));
                proof {
                    assert(site_views(sites@) =~= before + seq![
                        (lk == SyntaxKind::AnchorMark, (pos as int, pos + l)),
                    ]);
                }
            } else {
                assert(site_views(sites@) =~= before + Seq::<(bool, (int, int))>::empty());
            }
        } else {
            assert(site_views(sites@) =~= before + Seq::<(bool, (int, int))>::empty());
        }
        pos = pos + l;
        k += 1;
    }
    proof {
        assert(ls.take(k as int) =~= ls);
    }
    if sites.len() == 0 {
        let mut m = owned_string("rename_anchor: no `&");
        push_str(&mut m, old);
        push_str(&mut m, "` declaration or `*");
        push_str(&mut m, old);
        push_str(&mut m, "` reference found in the document");
        return Err(Error::Parse(m));
    }
    // Stitch the source back together around the renamed marks.
    let ghost all = site_views(sites@);
    let mut out = String::new();
    let mut cursor: usize = 0;
    let mut j: usize = 0;
    proof {
        lemma_ends_are_boundaries(source);
        assert(all.skip(0) =~= all);
        assert(Seq::<char>::empty() =~= out@);
        assert(vstd::utf8::encode_utf8(Seq::<char>::empty()) =~= Seq::<u8>::empty());
        assert(Seq::<u8>::empty() + stitched(b, all, new_b, 0) =~= stitched(b, all, new_b, 0));
    }
    while j < sites.len()
        invariant
            all == site_views(sites@),
            b == source.spec_bytes(),
            len == b.len(),
            new_b == vstd::utf8::encode_utf8(new@),
            sites_fit(all, source, len as int),
            j <= all.len(),
            cursor <= len,
            on_boundary(source, cursor as int),
            j < all.len() ==> cursor <= all[j as int].1.0,
            vstd::utf8::encode_utf8(out@) + stitched(b, all.skip(j as int), new_b, cursor as int)
                == stitched(b, all, new_b, 0),
        decreases all.len() - j,
    {
        let (anchor, (start, end)) = sites[j];
        proof {
            assert(all[j as int] == (anchor, (start as int, end as int)));
            assert(all.skip(j as int)[0] == all[j as int]);
            assert(all.skip(j as int).drop_first() =~= all.skip(j + 1));
        }
        let ghost prev = out@;
        let piece = str_range(source, cursor, start);
        push_str(&mut out, piece);
        let marker = if anchor {
            '&'
        } else {
            '*'
        };
        push_char(&mut out, marker);
        push_str(&mut out, new);
        proof {
            lemma_encode_utf8_concat(prev, piece@);
            lemma_encode_utf8_concat(prev + piece@, seq![marker]);
            lemma_encode_utf8_concat(prev + piece@ + seq![marker], new@);
            assert(out@ == prev + piece@ + seq![marker] + new@);
            assert(marker == marker_char(anchor));
        }
        cursor = end;
        j += 1;
    }
    let ghost prev = out@;
    let rest = str_range(source, cursor, len);
    push_str(&mut out, rest);
    proof {
        lemma_encode_utf8_concat(prev, rest@);
        assert(all.skip(j as int) =~= Seq::<(bool, (int, int))>::empty());
    }
    let count = sites.len();
    match replace_span(source, 0, len, out.as_str()) {
        Ok(t) => {
            proof {
                lemma_ends_are_boundaries(source);
                assert(b.subrange(0, 0) =~= Seq::<u8>::empty());
                assert(b.subrange(len as int, len as int) =~= Seq::<u8>::empty());
                assert(vstd::utf8::encode_utf8(t@) =~= vstd::utf8::encode_utf8(out@));
            }
            Ok((t, count))
        },
        Err(e) => Err(e),
    }
}

/// A run of sites, as plain values.
pub open spec fn site_views(v: Seq<(bool, (usize, usize))>) -> Seq<(bool, (int, int))> {
    v.map_values(|s: (bool, (usize, usize))| (s.0, (s.1.0 as int, s.1.1 as int)))
}

/// Sites in order, apart, on character boundaries, and ending by `limit`.
pub open spec fn sites_fit(v: Seq<(bool, (int, int))>, source: &str, limit: int) -> bool {
    &&& forall|i: int|
        0 <= i < v.len() ==> {
            let (s, e) = (#[trigger] v[i]).1;
            &&& 0 <= s < e <= limit
            &&& e <= source.spec_bytes().len()
            &&& on_boundary(source, s) && on_boundary(source, e)
        }
    &&& forall|i: int, j: int| 0 <= i < j < v.len() ==> (#[trigger] v[i]).1.1 <= (#[trigger] v[j]).1.0
}

} // verus!
