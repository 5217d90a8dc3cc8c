//! Assembly of the lossless tree from the scanner's three recorded
//! streams (trivia, tokens, comments), and the structural rewrites
//! behind local edits.
//!
//! Leaves carry only their byte length; the tree's leaves, read in
//! order, are exactly the recorded items in source order, so the
//! tree's text is the source itself.
use vstd::prelude::*;
use vstd::string::StringSliceAdditionalSpecFns;

use crate::cst::green::{
    child_leaves, child_len, children_len, copy_of, leaves_len, lemma_leaves_len_concat,
    lemma_leaves_len_one, seq_leaves, GreenChild, GreenNode,
};
use crate::text::{owned_string, push_spaces, push_str, spaces};
use crate::cst::syntax::SyntaxKind;
use crate::error::Error;
use crate::parser::scanner::scan_records;

verus! {

/// Kind of a token recorded for the tree builder. The first four are
/// structural markers that open or close block collections and
/// implicit keys; they cover no source bytes and become no leaf.
#[derive(Debug, Clone, Copy, PartialEq, Eq, Structural)]
pub enum RecordedTokenKind {
    BlockMapStart,
    BlockSeqStart,
    BlockEnd,
    SyntheticKey,
    DocStart,
    DocEnd,
    DashIndicator,
    QuestionIndicator,
    ColonIndicator,
    Comma,
    OpenBracket,
    CloseBracket,
    OpenBrace,
    CloseBrace,
    AnchorMark,
    AliasMark,
    TagMark,
    PlainScalar,
    SingleQuotedScalar,
    DoubleQuotedScalar,
    LiteralScalar,
    FoldedScalar,
}

/// A token recorded by the scanner: its kind and byte range.
#[derive(Debug, Clone, Copy)]
pub struct RecordedToken {
    pub start: usize,
    pub end: usize,
    pub kind: RecordedTokenKind,
}

/// Categorical kind of a piece of inter-token trivia.
#[derive(Debug, Clone, Copy, PartialEq, Eq, Structural)]
pub enum TriviaKind {
    /// Run of inline blanks (spaces and tabs).
    Whitespace,
    /// A single line break (`\n` or `\r\n`).
    Newline,
    /// A UTF-8 byte-order mark consumed at stream start.
    Bom,
    /// A `%YAML` / `%TAG` / reserved directive line.
    Directive,
}

/// Inter-token trivia recorded for the tree builder.
#[derive(Debug, Clone, Copy)]
pub struct Trivia {
    pub start: usize,
    pub end: usize,
    pub kind: TriviaKind,
}

/// A comment captured by the scanner.
#[derive(Debug, Clone)]
pub struct ScannedComment {
    pub start: usize,
    pub end: usize,
    pub text: String,
    pub inline: bool,
}

/// Which of the three streams supplies the next item.
#[derive(Debug, Clone, Copy, PartialEq, Eq, Structural)]
pub enum StreamSource {
    Trivia,
    Token,
    Comment,
}

/// `true` for the structural markers that cover no bytes.
pub open spec fn is_structural(k: RecordedTokenKind) -> bool {
    match k {
        RecordedTokenKind::BlockMapStart | RecordedTokenKind::BlockSeqStart
        | RecordedTokenKind::BlockEnd | RecordedTokenKind::SyntheticKey => true,
        _ => false,
    }
}

/// Whether `k` is a structural marker (see [`is_structural`]).
fn is_structural_kind(k: RecordedTokenKind) -> (r: bool)
    ensures
        r == is_structural(k),
{
    match k {
        RecordedTokenKind::BlockMapStart | RecordedTokenKind::BlockSeqStart
        | RecordedTokenKind::BlockEnd | RecordedTokenKind::SyntheticKey => true,
        _ => false,
    }
}

/// The leaf kind of a byte-bearing token.
pub open spec fn token_leaf_kind(k: RecordedTokenKind) -> SyntaxKind {
    match k {
        RecordedTokenKind::DocStart => SyntaxKind::DocStart,
        RecordedTokenKind::DocEnd => SyntaxKind::DocEnd,
        RecordedTokenKind::DashIndicator => SyntaxKind::DashIndicator,
        RecordedTokenKind::QuestionIndicator => SyntaxKind::QuestionIndicator,
        RecordedTokenKind::ColonIndicator => SyntaxKind::ColonIndicator,
        RecordedTokenKind::Comma => SyntaxKind::Comma,
        RecordedTokenKind::OpenBracket => SyntaxKind::OpenBracket,
        RecordedTokenKind::CloseBracket => SyntaxKind::CloseBracket,
        RecordedTokenKind::OpenBrace => SyntaxKind::OpenBrace,
        RecordedTokenKind::CloseBrace => SyntaxKind::CloseBrace,
        RecordedTokenKind::AnchorMark => SyntaxKind::AnchorMark,
        RecordedTokenKind::AliasMark => SyntaxKind::AliasMark,
        RecordedTokenKind::TagMark => SyntaxKind::TagMark,
        RecordedTokenKind::PlainScalar => SyntaxKind::PlainScalar,
        RecordedTokenKind::SingleQuotedScalar => SyntaxKind::SingleQuotedScalar,
        RecordedTokenKind::DoubleQuotedScalar => SyntaxKind::DoubleQuotedScalar,
        RecordedTokenKind::LiteralScalar => SyntaxKind::LiteralScalar,
        RecordedTokenKind::FoldedScalar => SyntaxKind::FoldedScalar,
        _ => SyntaxKind::Document,
    }
}

/// The leaves a token contributes: none for a structural marker, one
/// leaf of its kind and length otherwise.
pub open spec fn token_leaves(t: RecordedToken) -> Seq<(SyntaxKind, nat)> {
    if is_structural(t.kind) {
        seq![]
    } else {
        seq![(token_leaf_kind(t.kind), (t.end - t.start) as nat)]
    }
}

/// The leaf kind of a piece of trivia.
pub open spec fn trivia_leaf_kind(k: TriviaKind) -> SyntaxKind {
    match k {
        TriviaKind::Whitespace => SyntaxKind::Whitespace,
        TriviaKind::Newline => SyntaxKind::Newline,
        TriviaKind::Bom => SyntaxKind::Bom,
        TriviaKind::Directive => SyntaxKind::Directive,
    }
}

/// The leaf a piece of trivia contributes.
pub open spec fn trivia_leaf(t: Trivia) -> (SyntaxKind, nat) {
    (trivia_leaf_kind(t.kind), (t.end - t.start) as nat)
}

/// The leaf a comment contributes.
pub open spec fn comment_leaf(c: ScannedComment) -> (SyntaxKind, nat) {
    (SyntaxKind::Comment, (c.end - c.start) as nat)
}

/// An absent head sorts after every present one.
pub open spec fn or_max(o: Option<usize>) -> usize {
    match o {
        Some(v) => v,
        None => usize::MAX,
    }
}

/// Which stream's head comes first, given the heads' start offsets:
/// the earliest start wins; on a tie a token goes before trivia and
/// trivia before a comment. `None` once every stream is drained.
pub open spec fn first_stream(nt: Option<usize>, ntok: Option<usize>, nc: Option<usize>) -> Option<
    StreamSource,
> {
    if ntok is Some && or_max(nc) >= ntok->0 && or_max(nt) >= ntok->0 {
        Some(StreamSource::Token)
    } else if nt is Some && or_max(nc) >= nt->0 {
        Some(StreamSource::Trivia)
    } else if nc is Some {
        Some(StreamSource::Comment)
    } else {
        None
    }
}

/// Start offset of a stream's head, if any.
pub open spec fn trivia_head(tr: Seq<Trivia>) -> Option<usize> {
    if tr.len() > 0 { Some(tr[0].start) } else { None }
}

/// Start offset of a stream's head, if any.
pub open spec fn token_head(tk: Seq<RecordedToken>) -> Option<usize> {
    if tk.len() > 0 { Some(tk[0].start) } else { None }
}

/// Start offset of a stream's head, if any.
pub open spec fn comment_head(cm: Seq<ScannedComment>) -> Option<usize> {
    if cm.len() > 0 { Some(cm[0].start) } else { None }
}

/// The leaves of the three streams merged in source order.
pub open spec fn merged_leaves(
    tr: Seq<Trivia>,
    tk: Seq<RecordedToken>,
    cm: Seq<ScannedComment>,
) -> Seq<(SyntaxKind, nat)>
    decreases tr.len() + tk.len() + cm.len(),
{
    match first_stream(trivia_head(tr), token_head(tk), comment_head(cm)) {
        Some(StreamSource::Token) => token_leaves(tk[0]) + merged_leaves(tr, tk.drop_first(), cm),
        Some(StreamSource::Trivia) => seq![trivia_leaf(tr[0])] + merged_leaves(
            tr.drop_first(),
            tk,
            cm,
        ),
        Some(StreamSource::Comment) => seq![comment_leaf(cm[0])] + merged_leaves(
            tr,
            tk,
            cm.drop_first(),
        ),
        None => seq![],
    }
}

/// An open collection or entry while the tree is being assembled.
struct Frame {
    kind: SyntaxKind,
    children: Vec<GreenChild>,
}

/// The leaves held by a stack of open frames, bottom to top.
spec fn frames_leaves(fs: Seq<Frame>) -> Seq<(SyntaxKind, nat)>
    decreases fs.len(),
{
    if fs.len() == 0 {
        seq![]
    } else {
        frames_leaves(fs.drop_last()) + seq_leaves(fs.last().children@)
    }
}

/// The bytes held by a stack of open frames.
spec fn frames_len(fs: Seq<Frame>) -> nat
    decreases fs.len(),
{
    if fs.len() == 0 {
        0
    } else {
        frames_len(fs.drop_last()) + children_len(fs.last().children@)
    }
}

/// The kind of the innermost open collection (or the document).
spec fn nearest_container(fs: Seq<Frame>) -> SyntaxKind
    decreases fs.len(),
{
    if fs.len() == 0 {
        SyntaxKind::Document
    } else if is_container(fs.last().kind) {
        fs.last().kind
    } else {
        nearest_container(fs.drop_last())
    }
}

/// The kinds of a stack of open frames, bottom to top.
spec fn frame_kinds(fs: Seq<Frame>) -> Seq<SyntaxKind> {
    fs.map_values(|f: Frame| f.kind)
}

/// The innermost frame closed where it is a mapping entry or a sequence
/// item; the document frame is never closed.
pub open spec fn close_entry(ks: Seq<SyntaxKind>) -> Seq<SyntaxKind> {
    if ks.len() > 1 && (ks.last() == SyntaxKind::MappingEntry || ks.last() == SyntaxKind::SequenceItem) {
        ks.drop_last()
    } else {
        ks
    }
}

/// The innermost frame closed where it is of kind `a` or `b`.
pub open spec fn close_kind(ks: Seq<SyntaxKind>, a: SyntaxKind, b: SyntaxKind) -> Seq<SyntaxKind> {
    if ks.len() > 1 && (ks.last() == a || ks.last() == b) {
        ks.drop_last()
    } else {
        ks
    }
}

/// The kinds of the open frames after a token of kind `k`, from `ks`,
/// where `container` is the innermost open collection: a block
/// collection's start opens it and its end closes it (with the entry
/// open in it); a key or `?` in a block mapping opens an entry, and a
/// `-` in a block sequence an item, closing the one before; a flow
/// collection opens at its bracket and closes at the matching one.
pub open spec fn kinds_after(ks: Seq<SyntaxKind>, k: RecordedTokenKind, container: SyntaxKind) -> Seq<
    SyntaxKind,
> {
    match k {
        RecordedTokenKind::BlockMapStart => ks.push(SyntaxKind::BlockMapping),
        RecordedTokenKind::BlockSeqStart => ks.push(SyntaxKind::BlockSequence),
        RecordedTokenKind::BlockEnd => close_kind(
            close_entry(ks),
            SyntaxKind::BlockMapping,
            SyntaxKind::BlockSequence,
        ),
        RecordedTokenKind::SyntheticKey | RecordedTokenKind::QuestionIndicator => if container
            == SyntaxKind::BlockMapping {
            close_entry(ks).push(SyntaxKind::MappingEntry)
        } else {
            ks
        },
        RecordedTokenKind::DashIndicator => if container == SyntaxKind::BlockSequence {
            close_entry(ks).push(SyntaxKind::SequenceItem)
        } else {
            ks
        },
        RecordedTokenKind::OpenBrace => ks.push(SyntaxKind::FlowMapping),
        RecordedTokenKind::CloseBrace => close_kind(ks, SyntaxKind::FlowMapping, SyntaxKind::FlowMapping),
        RecordedTokenKind::OpenBracket => ks.push(SyntaxKind::FlowSequence),
        RecordedTokenKind::CloseBracket => close_kind(
            ks,
            SyntaxKind::FlowSequence,
            SyntaxKind::FlowSequence,
        ),
        _ => ks,
    }
}

/// A frame whose recorded length matches its leaves.
spec fn frame_ok(f: Frame) -> bool {
    children_len(f.children@) == leaves_len(seq_leaves(f.children@))
}

proof fn lemma_frames_one(fs: Seq<Frame>)
    requires
        fs.len() == 1,
    ensures
        frames_leaves(fs) == seq_leaves(fs[0].children@),
        frames_len(fs) == children_len(fs[0].children@),
{
    assert(fs.drop_last() =~= Seq::<Frame>::empty());
    assert(frames_leaves(fs.drop_last()) == Seq::<(SyntaxKind, nat)>::empty());
    assert(frames_len(fs.drop_last()) == 0);
    assert(Seq::<(SyntaxKind, nat)>::empty() + seq_leaves(fs[0].children@) =~= seq_leaves(
        fs[0].children@,
    ));
}

/// Kinds that hold entries: collections and the document.
pub open spec fn is_container(k: SyntaxKind) -> bool {
    match k {
        SyntaxKind::BlockMapping | SyntaxKind::BlockSequence | SyntaxKind::FlowMapping
        | SyntaxKind::FlowSequence | SyntaxKind::Document => true,
        _ => false,
    }
}

/// Stack-based bracketer: structural tokens open and close frames,
/// byte-bearing items become leaves of the innermost frame.
struct TreeBuilder {
    stack: Vec<Frame>,
}

impl TreeBuilder {
    spec fn leaves(&self) -> Seq<(SyntaxKind, nat)> {
        frames_leaves(self.stack@)
    }

    spec fn held(&self) -> nat {
        frames_len(self.stack@)
    }

    spec fn ready(&self) -> bool {
        &&& self.stack@.len() >= 1
        &&& forall|i: int| 0 <= i < self.stack@.len() ==> #[trigger] frame_ok(self.stack@[i])
        &&& self.held() == leaves_len(self.leaves())
        &&& self.held() <= usize::MAX
    }

    fn new() -> (b: Self)
        ensures
            b.ready(),
            b.leaves() == Seq::<(SyntaxKind, nat)>::empty(),
    {
        let mut stack: Vec<Frame> = Vec::new();
        stack.push(Frame { kind: SyntaxKind::Document, children: Vec::new() });
        let b = TreeBuilder { stack };
        proof {
            lemma_frames_one(b.stack@);
            assert(seq_leaves(b.stack@[0].children@) == Seq::<(SyntaxKind, nat)>::empty());
            assert(frame_ok(b.stack@[0]));
        }
        b
    }

    fn top_kind(&self) -> (k: SyntaxKind)
        requires
            self.stack@.len() >= 1,
        ensures
            k == self.stack@.last().kind,
    {
        self.stack[self.stack.len() - 1].kind
    }

    fn push_leaf(&mut self, child: GreenChild)
        requires
            old(self).ready(),
            old(self).held() + child_len(child) <= usize::MAX,
            leaves_len(child_leaves(child)) == child_len(child),
        ensures
            final(self).ready(),
            final(self).stack@.len() == old(self).stack@.len(),
            forall|i: int|
                0 <= i < final(self).stack@.len() ==> #[trigger] final(self).stack@[i].kind
                    == old(self).stack@[i].kind,
            frame_kinds(final(self).stack@) == frame_kinds(old(self).stack@),
            final(self).leaves() == old(self).leaves() + child_leaves(child),
            final(self).held() == old(self).held() + child_len(child),
    {
        let ghost before = self.stack@;
        let mut top = self.stack.pop().unwrap();
        let ghost old_children = top.children@;
        top.children.push(child);
        self.stack.push(top);
        proof {
            assert(self.stack@.drop_last() =~= before.drop_last());
            assert(top.children@.drop_last() =~= old_children);
            assert(self.leaves() =~= frames_leaves(before.drop_last()) + (seq_leaves(old_children)
                + child_leaves(child)));
            assert(self.leaves() =~= frames_leaves(before) + child_leaves(child));
            lemma_leaves_len_concat(frames_leaves(before), child_leaves(child));
            lemma_leaves_len_concat(seq_leaves(old_children), child_leaves(child));
            assert(frame_ok(before[before.len() - 1]));
            assert(frame_ok(top));
            assert forall|i: int| 0 <= i < self.stack@.len() implies #[trigger] frame_ok(
                self.stack@[i],
            ) by {
                if i < self.stack@.len() - 1 {
                    assert(self.stack@[i] == before[i]);
                }
            }
        }
    }

    fn push_frame(&mut self, kind: SyntaxKind)
        requires
            old(self).ready(),
        ensures
            final(self).ready(),
            final(self).stack@.len() == old(self).stack@.len() + 1,
            final(self).stack@.last().kind == kind,
            final(self).stack@.drop_last() == old(self).stack@,
            final(self).leaves() == old(self).leaves(),
            final(self).held() == old(self).held(),
            frame_kinds(final(self).stack@) == frame_kinds(old(self).stack@).push(kind),
    {
        let ghost before = self.stack@;
        self.stack.push(Frame { kind, children: Vec::new() });
        proof {
            assert(self.stack@.drop_last() =~= before);
            assert(self.stack@.last().children@ =~= Seq::<GreenChild>::empty());
            assert(seq_leaves(self.stack@.last().children@) == Seq::<(SyntaxKind, nat)>::empty());
            assert(self.leaves() =~= frames_leaves(before));
            assert(frame_ok(self.stack@.last()));
            assert forall|i: int| 0 <= i < self.stack@.len() implies #[trigger] frame_ok(
                self.stack@[i],
            ) by {
                if i < self.stack@.len() - 1 {
                    assert(self.stack@[i] == before[i]);
                }
            }
        }
    }

    /// Close the innermost frame into a node of its kind, appended to
    /// the frame below; the document frame is never closed.
    fn pop_frame(&mut self)
        requires
            old(self).ready(),
        ensures
            final(self).ready(),
            final(self).leaves() == old(self).leaves(),
            final(self).held() == old(self).held(),
            old(self).stack@.len() <= 1 ==> final(self).stack@ == old(self).stack@,
            old(self).stack@.len() > 1 ==> final(self).stack@.len() == old(self).stack@.len() - 1,
            old(self).stack@.len() > 1 ==> forall|i: int|
                0 <= i < final(self).stack@.len() ==> #[trigger] final(self).stack@[i].kind
                    == old(self).stack@[i].kind,
            old(self).stack@.len() > 1 ==> frame_kinds(final(self).stack@) == frame_kinds(
                old(self).stack@,
            ).drop_last(),
    {
        if self.stack.len() <= 1 {
            return;
        }
        let ghost before = self.stack@;
        let frame = self.stack.pop().unwrap();
        proof {
            assert(self.stack@ =~= before.drop_last());
            assert(frame_ok(before[before.len() - 1]));
            lemma_leaves_len_concat(frames_leaves(before.drop_last()), seq_leaves(frame.children@));
            assert forall|i: int| 0 <= i < self.stack@.len() implies #[trigger] frame_ok(
                self.stack@[i],
            ) by {
                assert(self.stack@[i] == before[i]);
            }
        }
        let node = GreenNode::new(frame.kind, frame.children);
        let child = GreenChild::Node(node);
        proof {
            assert(child_leaves(child) == seq_leaves(node.spec_children()));
            assert(leaves_len(frames_leaves(before)) == leaves_len(frames_leaves(
                before.drop_last(),
            )) + leaves_len(child_leaves(child))) by {
                lemma_leaves_len_concat(frames_leaves(before.drop_last()), child_leaves(child));
            }
        }
        self.push_leaf(child);
        proof {
            assert(frames_leaves(before.drop_last()) + child_leaves(child) =~= frames_leaves(
                before,
            ));
        }
    }

    /// Close the innermost frame when it is a mapping entry or a
    /// sequence item.
    fn close_open_entry(&mut self)
        requires
            old(self).ready(),
        ensures
            final(self).ready(),
            final(self).leaves() == old(self).leaves(),
            final(self).held() == old(self).held(),
            old(self).stack@.len() > 1 && (old(self).stack@.last().kind == SyntaxKind::MappingEntry
                || old(self).stack@.last().kind == SyntaxKind::SequenceItem) ==> final(self).stack@.len()
                == old(self).stack@.len() - 1 && forall|i: int|
                0 <= i < final(self).stack@.len() ==> #[trigger] final(self).stack@[i].kind == old(
                    self,
                ).stack@[i].kind,
            !(old(self).stack@.len() > 1 && (old(self).stack@.last().kind == SyntaxKind::MappingEntry
                || old(self).stack@.last().kind == SyntaxKind::SequenceItem)) ==> final(self).stack@
                == old(self).stack@,
            frame_kinds(final(self).stack@) == close_entry(frame_kinds(old(self).stack@)),
    {
        let k = self.top_kind();
        if k == SyntaxKind::MappingEntry || k == SyntaxKind::SequenceItem {
            self.pop_frame();
        }
    }

    /// The kind of the innermost open collection, or the document.
    fn nearest_container_kind(&self) -> (k: SyntaxKind)
        ensures
            k == nearest_container(self.stack@),
    {
        let mut i = self.stack.len();
        assert(self.stack@.take(self.stack@.len() as int) =~= self.stack@);
        while i > 0
            invariant
                i <= self.stack@.len(),
                self.stack@.take(self.stack@.len() as int) == self.stack@,
                nearest_container(self.stack@) == nearest_container(self.stack@.take(i as int)),
            decreases i,
        {
            let k = self.stack[i - 1].kind;
            proof {
                let t = self.stack@.take(i as int);
                assert(t.drop_last() =~= self.stack@.take(i - 1));
            }
            match k {
                SyntaxKind::BlockMapping | SyntaxKind::BlockSequence | SyntaxKind::FlowMapping
                | SyntaxKind::FlowSequence | SyntaxKind::Document => {
                    return k;
                },
                _ => {},
            }
            i -= 1;
        }
        SyntaxKind::Document
    }

    /// Feed one recorded token: structural markers open and close
    /// frames, byte-bearing tokens become leaves.
    fn handle_token(&mut self, tok: RecordedToken)
        requires
            old(self).ready(),
            tok.start <= tok.end,
            old(self).held() + leaves_len(token_leaves(tok)) <= usize::MAX,
        ensures
            final(self).ready(),
            final(self).leaves() == old(self).leaves() + token_leaves(tok),
            final(self).held() == old(self).held() + leaves_len(token_leaves(tok)),
            frame_kinds(final(self).stack@) == kinds_after(
                frame_kinds(old(self).stack@),
                tok.kind,
                nearest_container(old(self).stack@),
            ),
    {
        let ghost start_leaves = self.leaves();
        match tok.kind {
            RecordedTokenKind::BlockMapStart => self.push_frame(SyntaxKind::BlockMapping),
            RecordedTokenKind::BlockSeqStart => self.push_frame(SyntaxKind::BlockSequence),
            RecordedTokenKind::BlockEnd => {
                self.close_open_entry();
                let k = self.top_kind();
                if k == SyntaxKind::BlockMapping || k == SyntaxKind::BlockSequence {
                    self.pop_frame();
                }
            },
            RecordedTokenKind::SyntheticKey => {
                if self.nearest_container_kind() == SyntaxKind::BlockMapping {
                    self.close_open_entry();
                    self.push_frame(SyntaxKind::MappingEntry);
                }
            },
            RecordedTokenKind::QuestionIndicator => {
                if self.nearest_container_kind() == SyntaxKind::BlockMapping {
                    self.close_open_entry();
                    self.push_frame(SyntaxKind::MappingEntry);
                }
                self.push_token_leaf(SyntaxKind::QuestionIndicator, tok);
            },
            RecordedTokenKind::DashIndicator => {
                if self.nearest_container_kind() == SyntaxKind::BlockSequence {
                    self.close_open_entry();
                    self.push_frame(SyntaxKind::SequenceItem);
                }
                self.push_token_leaf(SyntaxKind::DashIndicator, tok);
            },
            RecordedTokenKind::OpenBrace => {
                self.push_frame(SyntaxKind::FlowMapping);
                self.push_token_leaf(SyntaxKind::OpenBrace, tok);
            },
            RecordedTokenKind::CloseBrace => {
                self.push_token_leaf(SyntaxKind::CloseBrace, tok);
                if self.top_kind() == SyntaxKind::FlowMapping {
                    self.pop_frame();
                }
            },
            RecordedTokenKind::OpenBracket => {
                self.push_frame(SyntaxKind::FlowSequence);
                self.push_token_leaf(SyntaxKind::OpenBracket, tok);
            },
            RecordedTokenKind::CloseBracket => {
                self.push_token_leaf(SyntaxKind::CloseBracket, tok);
                if self.top_kind() == SyntaxKind::FlowSequence {
                    self.pop_frame();
                }
            },
            RecordedTokenKind::DocStart => self.push_token_leaf(SyntaxKind::DocStart, tok),
            RecordedTokenKind::DocEnd => self.push_token_leaf(SyntaxKind::DocEnd, tok),
            RecordedTokenKind::ColonIndicator => self.push_token_leaf(
                SyntaxKind::ColonIndicator,
                tok,
            ),
            RecordedTokenKind::Comma => self.push_token_leaf(SyntaxKind::Comma, tok),
            RecordedTokenKind::AnchorMark => self.push_token_leaf(SyntaxKind::AnchorMark, tok),
            RecordedTokenKind::AliasMark => self.push_token_leaf(SyntaxKind::AliasMark, tok),
            RecordedTokenKind::TagMark => self.push_token_leaf(SyntaxKind::TagMark, tok),
            RecordedTokenKind::PlainScalar => self.push_token_leaf(SyntaxKind::PlainScalar, tok),
            RecordedTokenKind::SingleQuotedScalar => self.push_token_leaf(
                SyntaxKind::SingleQuotedScalar,
                tok,
            ),
            RecordedTokenKind::DoubleQuotedScalar => self.push_token_leaf(
                SyntaxKind::DoubleQuotedScalar,
                tok,
            ),
            RecordedTokenKind::LiteralScalar => self.push_token_leaf(
                SyntaxKind::LiteralScalar,
                tok,
            ),
            RecordedTokenKind::FoldedScalar => self.push_token_leaf(
                SyntaxKind::FoldedScalar,
                tok,
            ),
        }
        proof {
            if is_structural(tok.kind) {
                assert(start_leaves + token_leaves(tok) =~= start_leaves);
            }
        }
    }

    /// Append the leaf of a byte-bearing token.
    fn push_token_leaf(&mut self, kind: SyntaxKind, tok: RecordedToken)
        requires
            old(self).ready(),
            tok.start <= tok.end,
            !is_structural(tok.kind),
            kind == token_leaf_kind(tok.kind),
            old(self).held() + (tok.end - tok.start) <= usize::MAX,
        ensures
            final(self).ready(),
            final(self).leaves() == old(self).leaves() + token_leaves(tok),
            final(self).held() == old(self).held() + leaves_len(token_leaves(tok)),
            frame_kinds(final(self).stack@) == frame_kinds(old(self).stack@),
    {
        let child = leaf_token(kind, tok.end - tok.start);
        proof {
            assert(child_leaves(child) =~= token_leaves(tok));
            lemma_leaves_len_one((kind, (tok.end - tok.start) as nat));
        }
        self.push_leaf(child);
    }

    /// Close every open frame and return the document node.
    fn finish(self) -> (root: GreenNode)
        requires
            self.ready(),
        ensures
            root.spec_kind() == SyntaxKind::Document,
            seq_leaves(root.spec_children()) == self.leaves(),
            root.spec_text_len() == self.held(),
    {
        let mut b = self;
        while b.stack.len() > 1
            invariant
                b.ready(),
                b.leaves() == self.leaves(),
                b.held() == self.held(),
            decreases b.stack@.len(),
        {
            b.pop_frame();
        }
        let ghost last = b.stack@;
        let root = b.stack.pop().unwrap();
        proof {
            lemma_frames_one(last);
        }
        GreenNode::new(SyntaxKind::Document, root.children)
    }
}

/// A byte-bearing leaf of `kind` and `len` bytes.
fn leaf_token(kind: SyntaxKind, len: usize) -> (c: GreenChild)
    ensures
        c == (GreenChild::Token { kind, len }),
{
    GreenChild::Token { kind, len }
}

/// The leaf a piece of trivia becomes.
fn child_from_trivia(t: Trivia) -> (c: GreenChild)
    requires
        t.start <= t.end,
    ensures
        child_leaves(c) == seq![trivia_leaf(t)],
        child_len(c) == t.end - t.start,
{
    let kind = match t.kind {
        TriviaKind::Whitespace => SyntaxKind::Whitespace,
        TriviaKind::Newline => SyntaxKind::Newline,
        TriviaKind::Bom => SyntaxKind::Bom,
        TriviaKind::Directive => SyntaxKind::Directive,
    };
    GreenChild::Token { kind, len: t.end - t.start }
}

/// The leaf a comment becomes.
fn child_from_comment(c: &ScannedComment) -> (leaf: GreenChild)
    requires
        c.start <= c.end,
    ensures
        child_leaves(leaf) == seq![comment_leaf(*c)],
        child_len(leaf) == c.end - c.start,
{
    GreenChild::Token { kind: SyntaxKind::Comment, len: c.end - c.start }
}

/// The start of an optional head, or `usize::MAX` when absent.
fn min_or_max(opt: Option<usize>) -> (r: usize)
    ensures
        r == or_max(opt),
{
    match opt {
        Some(v) => v,
        None => usize::MAX,
    }
}

/// Which stream's head comes next (see [`first_stream`]).
fn next_stream(nt: Option<usize>, ntok: Option<usize>, nc: Option<usize>) -> (r: Option<
    StreamSource,
>)
    ensures
        r == first_stream(nt, ntok, nc),
{
    match ntok {
        Some(tk) => {
            if min_or_max(nc) >= tk && min_or_max(nt) >= tk {
                return Some(StreamSource::Token);
            }
        },
        None => {},
    }
    match nt {
        Some(t) => {
            if min_or_max(nc) >= t {
                return Some(StreamSource::Trivia);
            }
        },
        None => {},
    }
    match nc {
        Some(_) => Some(StreamSource::Comment),
        None => None,
    }
}

/// Merge the three recorded streams into one document node. Its
/// leaves, in order, are the streams' items in source order (see
/// [`merged_leaves`]), so no recorded byte is lost or repeated, and
/// its length is their total.
pub fn assemble(
    trivia: Vec<Trivia>,
    tokens: Vec<RecordedToken>,
    comments: Vec<ScannedComment>,
) -> (root: GreenNode)
    requires
        forall|i: int| 0 <= i < trivia@.len() ==> #[trigger] trivia@[i].start <= trivia@[i].end,
        forall|i: int| 0 <= i < tokens@.len() ==> #[trigger] tokens@[i].start <= tokens@[i].end,
        forall|i: int|
            0 <= i < comments@.len() ==> #[trigger] comments@[i].start <= comments@[i].end,
        leaves_len(merged_leaves(trivia@, tokens@, comments@)) <= usize::MAX,
    ensures
        root.spec_kind() == SyntaxKind::Document,
        seq_leaves(root.spec_children()) == merged_leaves(trivia@, tokens@, comments@),
        root.spec_text_len() == leaves_len(merged_leaves(trivia@, tokens@, comments@)),
{
    let ghost all = merged_leaves(trivia@, tokens@, comments@);
    let mut builder = TreeBuilder::new();
    let mut i: usize = 0;
    let mut j: usize = 0;
    let mut k: usize = 0;
    proof {
        assert(trivia@.skip(0) =~= trivia@);
        assert(tokens@.skip(0) =~= tokens@);
        assert(comments@.skip(0) =~= comments@);
        assert(builder.leaves() + all =~= all);
    }
    loop
        invariant
            i <= trivia@.len(),
            j <= tokens@.len(),
            k <= comments@.len(),
            forall|x: int| 0 <= x < trivia@.len() ==> #[trigger] trivia@[x].start <= trivia@[x].end,
            forall|x: int| 0 <= x < tokens@.len() ==> #[trigger] tokens@[x].start <= tokens@[x].end,
            forall|x: int|
                0 <= x < comments@.len() ==> #[trigger] comments@[x].start <= comments@[x].end,
            all == merged_leaves(trivia@, tokens@, comments@),
            leaves_len(all) <= usize::MAX,
            builder.ready(),
            builder.leaves() + merged_leaves(
                trivia@.skip(i as int),
                tokens@.skip(j as int),
                comments@.skip(k as int),
            ) == all,
        ensures
            builder.ready(),
            builder.leaves() == all,
            leaves_len(all) <= usize::MAX,
        decreases trivia@.len() - i + tokens@.len() - j + comments@.len() - k,
    {
        let ghost tr = trivia@.skip(i as int);
        let ghost tk = tokens@.skip(j as int);
        let ghost cm = comments@.skip(k as int);
        let ghost rest = merged_leaves(tr, tk, cm);
        let nt = if i < trivia.len() {
            Some(trivia[i].start)
        } else {
            None
        };
        let ntok = if j < tokens.len() {
            Some(tokens[j].start)
        } else {
            None
        };
        let nc = if k < comments.len() {
            Some(comments[k].start)
        } else {
            None
        };
        proof {
            assert(nt == trivia_head(tr));
            assert(ntok == token_head(tk));
            assert(nc == comment_head(cm));
            lemma_leaves_len_concat(builder.leaves(), rest);
        }
        match next_stream(nt, ntok, nc) {
            None => {
                proof {
                    assert(rest =~= Seq::<(SyntaxKind, nat)>::empty());
                    assert(builder.leaves() + rest =~= builder.leaves());
                }
                break ;
            },
            Some(StreamSource::Token) => {
                let tok = tokens[j];
                proof {
                    assert(tk[0] == tok);
                    assert(tk.drop_first() =~= tokens@.skip(j + 1));
                    let tail = merged_leaves(tr, tk.drop_first(), cm);
                    assert(rest == token_leaves(tok) + tail);
                    lemma_leaves_len_concat(token_leaves(tok), tail);
                    assert(builder.leaves() + rest =~= (builder.leaves() + token_leaves(tok))
                        + tail);
                }
                builder.handle_token(tok);
                j += 1;
            },
            Some(StreamSource::Trivia) => {
                let triv = trivia[i];
                proof {
                    assert(tr[0] == triv);
                    assert(tr.drop_first() =~= trivia@.skip(i + 1));
                    let tail = merged_leaves(tr.drop_first(), tk, cm);
                    assert(rest == seq![trivia_leaf(triv)] + tail);
                    lemma_leaves_len_concat(seq![trivia_leaf(triv)], tail);
                    assert(builder.leaves() + rest =~= (builder.leaves() + seq![trivia_leaf(triv)])
                        + tail);
                    lemma_leaves_len_one(trivia_leaf(triv));
                }
                let child = child_from_trivia(triv);
                builder.push_leaf(child);
                i += 1;
            },
            Some(StreamSource::Comment) => {
                proof {
                    assert(cm[0] == comments@[k as int]);
                    assert(cm.drop_first() =~= comments@.skip(k + 1));
                    let tail = merged_leaves(tr, tk, cm.drop_first());
                    let leaf = comment_leaf(comments@[k as int]);
                    assert(rest == seq![leaf] + tail);
                    lemma_leaves_len_concat(seq![leaf], tail);
                    assert(builder.leaves() + rest =~= (builder.leaves() + seq![leaf]) + tail);
                    lemma_leaves_len_one(leaf);
                }
                let child = child_from_comment(&comments[k]);
                builder.push_leaf(child);
                k += 1;
            },
        }
    }
    builder.finish()
}


/// Indentation and flow context for re-parsing a sub-tree.
#[derive(Debug, Clone, Copy)]
pub struct SubtreeContext {
    /// Column at which the sub-tree begins; block-collection content
    /// must indent past it.
    pub indent: usize,
    /// `0` in block context, non-zero inside flow brackets.
    pub flow_level: u32,
}

impl SubtreeContext {
    /// A block context at column `indent`.
    pub fn block_at(indent: usize) -> (c: Self)
        ensures
            c.indent == indent,
            c.flow_level == 0,
    {
        SubtreeContext { indent, flow_level: 0 }
    }
}

/// `s` with `indent` spaces before its first line, unless `indent` is
/// zero or `s` already starts with a space.
pub open spec fn spec_prepend_first_line_indent(s: Seq<char>, indent: nat) -> Seq<char> {
    if indent == 0 || (s.len() > 0 && s[0] == ' ') {
        s
    } else {
        spaces(indent) + s
    }
}

/// Line a fragment whose first line starts at column 0 up with its
/// later lines, which carry their original indentation (see
/// [`spec_prepend_first_line_indent`]).
pub fn prepend_first_line_indent(s: &str, indent: usize) -> (out: String)
    ensures
        out@ == spec_prepend_first_line_indent(s@, indent as nat),
{
    let lead = crate::text::starts_with_text(s, " ");
    proof {
        reveal_strlit(" ");
        if s@.len() > 0 && s@[0] == ' ' {
            assert(s@.take(1) =~= " "@);
        }
        if lead {
            assert(s@.take(1)[0] == s@[0]);
        }
    }
    if indent == 0 || lead {
        return owned_string(s);
    }
    let mut out = String::new();
    push_spaces(&mut out, indent);
    push_str(&mut out, s);
    assert(out@ =~= spaces(indent as nat) + s@);
    out
}

/// `c` is a node of kind `kind`.
pub open spec fn is_node_of(c: GreenChild, kind: SyntaxKind) -> bool {
    c matches GreenChild::Node(m) && m.spec_kind() == kind
}

/// The first child of `node` that is a node of `kind`, copied.
pub fn first_node_of_kind(node: &GreenNode, kind: SyntaxKind) -> (r: Option<GreenNode>)
    ensures
        match r {
            Some(n) => exists|i: int|
                0 <= i < node.spec_children().len() && copy_of(
                    GreenChild::Node(n),
                    #[trigger] node.spec_children()[i],
                ) && n.spec_kind() == kind && forall|j: int|
                    0 <= j < i ==> !is_node_of(#[trigger] node.spec_children()[j], kind),
            None => forall|j: int|
                0 <= j < node.spec_children().len() ==> !is_node_of(
                    #[trigger] node.spec_children()[j],
                    kind,
                ),
        },
{
    let children = node.children();
    let mut i: usize = 0;
    while i < children.len()
        invariant
            children@ == node.spec_children(),
            i <= children@.len(),
            forall|j: int| 0 <= j < i ==> !is_node_of(#[trigger] children@[j], kind),
        decreases children@.len() - i,
    {
        match &children[i] {
            GreenChild::Node(n) => {
                if n.kind() == kind {
                    let c = n.clone();
                    assert(copy_of(GreenChild::Node(c), children@[i as int]));
                    return Some(c);
                }
            },
            GreenChild::Token { .. } => {},
        }
        i += 1;
    }
    None
}

/// The scan state between recorded tokens: ranges found so far, the
/// start of the open document, whether it has content, and whether the
/// last marker was an explicit end (`...`).
pub struct BoundaryScan {
    pub ranges: Seq<(int, int)>,
    pub cur: int,
    pub has_content: bool,
    pub saw_end: bool,
}

/// The offset past a `...` marker ending at `end`, with its line break
/// (`\r\n`, `\r` or `\n`) when one follows.
pub open spec fn past_line_break(b: Seq<u8>, end: int) -> int {
    let c = if 0 <= end < b.len() && b[end] == 13 {
        end + 1
    } else {
        end
    };
    if 0 <= c < b.len() && b[c] == 10 {
        c + 1
    } else {
        c
    }
}

/// Feed the recorded tokens `toks` to the scan: a `---` closes the open
/// document when it has content and no `...` closed it; a `...` closes
/// it through its line break; any other token is content.
pub open spec fn scan_boundaries(b: Seq<u8>, toks: Seq<RecordedToken>, st: BoundaryScan) -> BoundaryScan
    decreases toks.len(),
{
    if toks.len() == 0 {
        st
    } else {
        let t = toks[0];
        let next = match t.kind {
            RecordedTokenKind::DocStart => if st.has_content && !st.saw_end {
                BoundaryScan {
                    ranges: st.ranges.push((st.cur, t.start as int)),
                    cur: t.start as int,
                    has_content: true,
                    saw_end: false,
                }
            } else {
                BoundaryScan { has_content: true, saw_end: false, ..st }
            },
            RecordedTokenKind::DocEnd => {
                let close = past_line_break(b, t.end as int);
                BoundaryScan {
                    ranges: st.ranges.push((st.cur, close)),
                    cur: close,
                    has_content: false,
                    saw_end: true,
                }
            },
            _ => BoundaryScan { has_content: true, saw_end: false, ..st },
        };
        scan_boundaries(b, toks.drop_first(), next)
    }
}

/// The byte ranges of the documents of an input of bytes `b` whose
/// scanner recorded `toks`: the scanned ranges, with the rest of the
/// input either a last document (when it has content, or nothing was
/// found) or added to the last range; the whole input when no range
/// results.
pub open spec fn spec_document_boundaries(b: Seq<u8>, toks: Seq<RecordedToken>) -> Seq<(int, int)> {
    let st = scan_boundaries(
        b,
        toks,
        BoundaryScan { ranges: seq![], cur: 0, has_content: false, saw_end: false },
    );
    let n = b.len() as int;
    let r = if st.cur < n {
        if st.has_content || st.ranges.len() == 0 {
            st.ranges.push((st.cur, n))
        } else {
            st.ranges.update(st.ranges.len() - 1, (st.ranges.last().0, n))
        }
    } else {
        st.ranges
    };
    if r.len() == 0 {
        seq![(0, n)]
    } else {
        r
    }
}

/// The byte ranges of the logical documents of `input`, from the
/// tokens its scanner recorded (see [`spec_document_boundaries`]).
/// When the tokens lie within the input, the ranges tile it: the first
/// starts at 0, each starts where the previous one ends, and the last
/// ends at the input's end.
pub fn boundaries_from_tokens(input: &str, toks: &[RecordedToken]) -> (r: Vec<(usize, usize)>)
    requires
        forall|i: int| 0 <= i < toks@.len() ==> #[trigger] toks@[i].end <= input.spec_bytes().len()
            && toks@[i].start <= input.spec_bytes().len(),
    ensures
        r@.map_values(|p: (usize, usize)| (p.0 as int, p.1 as int)) == spec_document_boundaries(
            input.spec_bytes(),
            toks@,
        ),
        r@.len() >= 1,
        r@[0].0 == 0,
        r@.last().1 == input.spec_bytes().len(),
        forall|i: int| 0 <= i < r@.len() - 1 ==> #[trigger] r@[i].1 == r@[i + 1].0,
{
    let bytes = input.as_bytes();
    let ghost b = input.spec_bytes();
    let n = bytes.len();
    let ghost init = BoundaryScan { ranges: seq![], cur: 0, has_content: false, saw_end: false };
    let mut out: Vec<(usize, usize)> = Vec::new();
    let mut cur: usize = 0;
    let mut has_content = false;
    let mut saw_end = false;
    let mut k: usize = 0;
    proof {
        assert(toks@.skip(0) =~= toks@);
        assert(out@.map_values(|p: (usize, usize)| (p.0 as int, p.1 as int)) =~= Seq::<
            (int, int),
        >::empty());
    }
    while k < toks.len()
        invariant
            bytes@ == b,
            n == b.len(),
            k <= toks@.len(),
            cur <= n,
            forall|i: int| 0 <= i < toks@.len() ==> #[trigger] toks@[i].end <= n && toks@[i].start <= n,
            scan_boundaries(b, toks@, init) == scan_boundaries(
                b,
                toks@.skip(k as int),
                BoundaryScan {
                    ranges: out@.map_values(|p: (usize, usize)| (p.0 as int, p.1 as int)),
                    cur: cur as int,
                    has_content,
                    saw_end,
                },
            ),
            out@.len() > 0 ==> out@[0].0 == 0 && out@.last().1 == cur,
            out@.len() == 0 ==> cur == 0,
            forall|i: int| 0 <= i < out@.len() - 1 ==> #[trigger] out@[i].1 == out@[i + 1].0,
        decreases toks@.len() - k,
    {
        let t = toks[k];
        let ghost before = out@;
        proof {
            assert(toks@.skip(k as int).drop_first() =~= toks@.skip(k + 1));
            assert(toks@.skip(k as int)[0] == t);
        }
        match t.kind {
            RecordedTokenKind::DocStart => {
                if has_content && !saw_end {
                    out.push((cur, t.start));
                    cur = t.start;
                }
                has_content = true;
                saw_end = false;
            },
            RecordedTokenKind::DocEnd => {
                let mut close = t.end;
                if close < n && bytes[close] == 13 {
                    close += 1;
                }
                if close < n && bytes[close] == 10 {
                    close += 1;
                }
                out.push((cur, close));
                cur = close;
                has_content = false;
                saw_end = true;
            },
            _ => {
                has_content = true;
                saw_end = false;
            },
        }
        proof {
            if out@.len() > before.len() {
                assert(out@.map_values(|p: (usize, usize)| (p.0 as int, p.1 as int)) =~= before.map_values(
                    |p: (usize, usize)| (p.0 as int, p.1 as int),
                ).push((out@.last().0 as int, out@.last().1 as int)));
            }
        }
        k += 1;
    }
    let ghost fin = out@.map_values(|p: (usize, usize)| (p.0 as int, p.1 as int));
    proof {
        assert(toks@.skip(k as int) =~= Seq::<RecordedToken>::empty());
    }
    if cur < n {
        if has_content || out.len() == 0 {
            out.push((cur, n));
        } else {
            let last = out.len() - 1;
            let start = out[last].0;
            out.set(last, (start, n));
        }
    }
    if out.len() == 0 {
        out.push((0, n));
    }
    proof {
        assert(out@.map_values(|p: (usize, usize)| (p.0 as int, p.1 as int)) =~= spec_document_boundaries(
            b,
            toks@,
        ));
    }
    out
}

/// The byte ranges of the logical documents of `input` (see
/// [`boundaries_from_tokens`]), from the tokens its scanner records; a
/// scanning error is reported with its message.
pub fn document_boundaries(input: &str) -> (r: Result<Vec<(usize, usize)>, Error>)
    requires
        input.spec_bytes().len() <= isize::MAX,
    ensures
        r matches Ok(v) ==> {
            &&& v@.len() >= 1
            &&& v@[0].0 == 0
            &&& v@.last().1 == input.spec_bytes().len()
            &&& forall|i: int| 0 <= i < v@.len() - 1 ==> #[trigger] v@[i].1 == v@[i + 1].0
        },
        r matches Ok(v) ==> exists|toks: Seq<RecordedToken>|
            (forall|i: int|
                0 <= i < toks.len() ==> #[trigger] toks[i].start <= toks[i].end <= input.spec_bytes().len())
                && v@.map_values(|p: (usize, usize)| (p.0 as int, p.1 as int))
                == spec_document_boundaries(input.spec_bytes(), toks),
        r matches Err(e) ==> e is Parse,
{
    match scan_records(input) {
        Ok((_, toks, _)) => {
            assert forall|i: int| 0 <= i < toks@.len() implies #[trigger] toks@[i].end
                <= input.spec_bytes().len() && toks@[i].start <= input.spec_bytes().len() by {
                assert(toks@[i].start <= toks@[i].end);
            }
            let ghost t = toks@;
            let v = boundaries_from_tokens(input, toks.as_slice());
            assert(v@.map_values(|p: (usize, usize)| (p.0 as int, p.1 as int))
                == spec_document_boundaries(input.spec_bytes(), t));
            Ok(v)
        },
        Err(e) => Err(Error::Parse(e.message)),
    }
}

// ── The green tree of a source ───────────────────────────────────────

/// The bytes the pieces of trivia cover, together.
pub open spec fn trivia_total(tr: Seq<Trivia>) -> nat
    decreases tr.len(),
{
    if tr.len() == 0 {
        0
    } else {
        trivia_leaf(tr[0]).1 + trivia_total(tr.drop_first())
    }
}

/// The bytes the byte-bearing tokens cover, together.
pub open spec fn token_total(tk: Seq<RecordedToken>) -> nat
    decreases tk.len(),
{
    if tk.len() == 0 {
        0
    } else {
        leaves_len(token_leaves(tk[0])) + token_total(tk.drop_first())
    }
}

/// The bytes the comments cover, together.
pub open spec fn comment_total(cm: Seq<ScannedComment>) -> nat
    decreases cm.len(),
{
    if cm.len() == 0 {
        0
    } else {
        comment_leaf(cm[0]).1 + comment_total(cm.drop_first())
    }
}

proof fn lemma_one_leaf(l: (SyntaxKind, nat))
    ensures
        leaves_len(seq![l]) == l.1,
{
    assert(seq![l].drop_last() =~= Seq::<(SyntaxKind, nat)>::empty());
    assert(leaves_len(Seq::<(SyntaxKind, nat)>::empty()) == 0);
    assert(seq![l].last() == l);
}

/// The merged leaves cover the bytes of the three streams together.
proof fn lemma_merged_len(tr: Seq<Trivia>, tk: Seq<RecordedToken>, cm: Seq<ScannedComment>)
    ensures
        leaves_len(merged_leaves(tr, tk, cm)) == trivia_total(tr) + token_total(tk) + comment_total(
            cm,
        ),
    decreases tr.len() + tk.len() + cm.len(),
{
    match first_stream(trivia_head(tr), token_head(tk), comment_head(cm)) {
        Some(StreamSource::Token) => {
            lemma_merged_len(tr, tk.drop_first(), cm);
            lemma_leaves_len_concat(token_leaves(tk[0]), merged_leaves(tr, tk.drop_first(), cm));
        },
        Some(StreamSource::Trivia) => {
            lemma_merged_len(tr.drop_first(), tk, cm);
            lemma_one_leaf(trivia_leaf(tr[0]));
            lemma_leaves_len_concat(seq![trivia_leaf(tr[0])], merged_leaves(tr.drop_first(), tk, cm));
        },
        Some(StreamSource::Comment) => {
            lemma_merged_len(tr, tk, cm.drop_first());
            lemma_one_leaf(comment_leaf(cm[0]));
            lemma_leaves_len_concat(seq![comment_leaf(cm[0])], merged_leaves(tr, tk, cm.drop_first()));
        },
        None => {
            assert(leaves_len(Seq::<(SyntaxKind, nat)>::empty()) == 0);
        },
    }
}

/// [`trivia_total`] + [`token_total`] + [`comment_total`], or `None`
/// where it passes the largest `usize`.
fn records_total(tr: &Vec<Trivia>, tk: &Vec<RecordedToken>, cm: &Vec<ScannedComment>) -> (r: Option<usize>)
    requires
        forall|i: int| 0 <= i < tr@.len() ==> #[trigger] tr@[i].start <= tr@[i].end,
        forall|i: int| 0 <= i < tk@.len() ==> #[trigger] tk@[i].start <= tk@[i].end,
        forall|i: int| 0 <= i < cm@.len() ==> #[trigger] cm@[i].start <= cm@[i].end,
    ensures
        match r {
            Some(n) => n == trivia_total(tr@) + token_total(tk@) + comment_total(cm@),
            None => trivia_total(tr@) + token_total(tk@) + comment_total(cm@) > usize::MAX,
        },
{
    let mut total: usize = 0;
    let mut i: usize = tr.len();
    while i > 0
        invariant
            i <= tr@.len(),
            forall|x: int| 0 <= x < tr@.len() ==> #[trigger] tr@[x].start <= tr@[x].end,
            total == trivia_total(tr@.skip(i as int)),
        decreases i,
    {
        i -= 1;
        proof {
            assert(tr@.skip(i as int).drop_first() =~= tr@.skip(i + 1));
        }
        let w = tr[i].end - tr[i].start;
        if total > usize::MAX - w {
            proof {
                lemma_total_suffix_trivia(tr@, i as int);
            }
            return None;
        }
        total = total + w;
    }
    assert(tr@.skip(0) =~= tr@);
    let mut j: usize = tk.len();
    let mut t2: usize = 0;
    while j > 0
        invariant
            j <= tk@.len(),
            forall|x: int| 0 <= x < tk@.len() ==> #[trigger] tk@[x].start <= tk@[x].end,
            t2 == token_total(tk@.skip(j as int)),
        decreases j,
    {
        j -= 1;
        proof {
            assert(tk@.skip(j as int).drop_first() =~= tk@.skip(j + 1));
            if is_structural(tk@[j as int].kind) {
                assert(token_leaves(tk@[j as int]) =~= Seq::<(SyntaxKind, nat)>::empty());
            } else {
                lemma_one_leaf(token_leaves(tk@[j as int])[0]);
                assert(token_leaves(tk@[j as int]) =~= seq![token_leaves(tk@[j as int])[0]]);
            }
        }
        let w = if is_structural_kind(tk[j].kind) {
            0
        } else {
            tk[j].end - tk[j].start
        };
        if t2 > usize::MAX - w {
            proof {
                lemma_total_suffix_token(tk@, j as int);
            }
            return None;
        }
        t2 = t2 + w;
    }
    assert(tk@.skip(0) =~= tk@);
    let mut k: usize = cm.len();
    let mut t3: usize = 0;
    while k > 0
        invariant
            k <= cm@.len(),
            forall|x: int| 0 <= x < cm@.len() ==> #[trigger] cm@[x].start <= cm@[x].end,
            t3 == comment_total(cm@.skip(k as int)),
        decreases k,
    {
        k -= 1;
        proof {
            assert(cm@.skip(k as int).drop_first() =~= cm@.skip(k + 1));
        }
        let w = cm[k].end - cm[k].start;
        if t3 > usize::MAX - w {
            proof {
                lemma_total_suffix_comment(cm@, k as int);
            }
            return None;
        }
        t3 = t3 + w;
    }
    assert(cm@.skip(0) =~= cm@);
    if total > usize::MAX - t2 || total + t2 > usize::MAX - t3 {
        return None;
    }
    Some(total + t2 + t3)
}

proof fn lemma_total_suffix_trivia(tr: Seq<Trivia>, i: int)
    requires
        0 <= i <= tr.len(),
    ensures
        trivia_total(tr.skip(i)) <= trivia_total(tr),
    decreases i,
{
    if i > 0 {
        lemma_total_suffix_trivia(tr, i - 1);
        assert(tr.skip(i - 1).drop_first() =~= tr.skip(i));
    } else {
        assert(tr.skip(0) =~= tr);
    }
}

proof fn lemma_total_suffix_token(tk: Seq<RecordedToken>, i: int)
    requires
        0 <= i <= tk.len(),
    ensures
        token_total(tk.skip(i)) <= token_total(tk),
    decreases i,
{
    if i > 0 {
        lemma_total_suffix_token(tk, i - 1);
        assert(tk.skip(i - 1).drop_first() =~= tk.skip(i));
    } else {
        assert(tk.skip(0) =~= tk);
    }
}

proof fn lemma_total_suffix_comment(cm: Seq<ScannedComment>, i: int)
    requires
        0 <= i <= cm.len(),
    ensures
        comment_total(cm.skip(i)) <= comment_total(cm),
    decreases i,
{
    if i > 0 {
        lemma_total_suffix_comment(cm, i - 1);
        assert(cm.skip(i - 1).drop_first() =~= cm.skip(i));
    } else {
        assert(cm.skip(0) =~= cm);
    }
}

/// The green tree of `input`: the trivia, tokens and comments that
/// scanning it records, assembled under a document node (see
/// [`assemble`]); a scanning error is reported with its message.
pub fn build_green_tree(input: &str) -> (r: Result<GreenNode, Error>)
    requires
        input.spec_bytes().len() <= isize::MAX,
    ensures
        r matches Ok(root) ==> root.spec_kind() == SyntaxKind::Document && exists|
            tr: Seq<Trivia>,
            tk: Seq<RecordedToken>,
            cm: Seq<ScannedComment>,
        |
            seq_leaves(root.spec_children()) == merged_leaves(tr, tk, cm) && (forall|i: int|
                0 <= i < tk.len() ==> #[trigger] tk[i].start <= tk[i].end <= input.spec_bytes().len()),
        r matches Err(e) ==> e is Parse,
{
    match scan_records(input) {
        Ok((tr, tk, cm)) => {
            let total = records_total(&tr, &tk, &cm);
            if total.is_none() {
                return Err(Error::Parse(owned_string("document records exceed the addressable size")));
            }
            proof {
                lemma_merged_len(tr@, tk@, cm@);
            }
            let ghost gt = tr@;
            let ghost gk = tk@;
            let ghost gc = cm@;
            let root = assemble(tr, tk, cm);
            assert(seq_leaves(root.spec_children()) == merged_leaves(gt, gk, gc));
            assert(forall|i: int|
                0 <= i < gk.len() ==> #[trigger] gk[i].start <= gk[i].end <= input.spec_bytes().len());
            Ok(root)
        },
        Err(e) => Err(Error::Parse(e.message)),
    }
}

} // verus!
