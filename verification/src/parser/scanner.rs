//! The YAML 1.2 scanner: turns the bytes of a document into the tokens
//! the event parser consumes, and, when asked, records the trivia,
//! source-bearing tokens and comments the lossless tree is built from.
//!
//! Every token covers a byte range of the input. The scanner's work is
//! bounded: each fetch either consumes input or closes a scope, so a
//! full pass over an input of `n` bytes hands out at most `4 n + 2`
//! tokens and always ends.
use vstd::prelude::*;
use vstd::string::StringSliceAdditionalSpecFns;
use vstd::utf8::{is_char_boundary_iff_not_is_continuation_byte, valid_utf8};

use crate::cst::builder::{RecordedToken, RecordedTokenKind, ScannedComment, Trivia, TriviaKind};
use crate::parser::token::{ScalarStyle, ScanError, Span, Token, TokenKind};
use crate::parser::lexeme::{
    blank, blank_or_break, blanks_from, byte_at, flow_indicator, is_blank, is_break, line_break,
    lemma_after_ascii, lemma_after_lead3, starts_char, PlainScan, QuotedScan, Source, COLON, COMMA, CR, DASH, DOT,
    HASH, LBRACE, LBRACKET, LF, RBRACE, RBRACKET, TAB,
};
use crate::text::{on_boundary, owned_string, push_str, str_range};

verus! {

/// Where the line holding byte `i` of `b` starts.
pub open spec fn line_start(b: Seq<u8>, i: int) -> int
    decreases i,
{
    if i <= 0 {
        0
    } else if b[i - 1] == LF {
        i
    } else {
        line_start(b, i - 1)
    }
}

/// Where `end` lands after stepping back over blanks and breaks, not
/// past `floor`.
pub open spec fn trimmed(b: Seq<u8>, floor: int, end: int) -> int
    decreases end - floor,
{
    if end > floor && (is_blank(b[end - 1]) || is_break(b[end - 1])) {
        trimmed(b, floor, end - 1)
    } else {
        end
    }
}

/// A line break stands in `b` between `from` and `to`.
pub open spec fn breaks_within(b: Seq<u8>, from: int, to: int) -> bool {
    exists|i: int| from <= i < to && is_break(#[trigger] b[i])
}

/// The blanks at `p` end in a tab and are followed by `-`, `?` or `:`
/// standing as an indicator (before a blank, a break or the end).
pub open spec fn tab_before_indicator(b: Seq<u8>, p: int) -> bool {
    let look = blanks_from(b, p);
    &&& look > p
    &&& b[look - 1] == TAB
    &&& look < b.len()
    &&& (b[look] == DASH || b[look] == 0x3f || b[look] == COLON)
    &&& (look + 1 >= b.len() || is_blank(b[look + 1]) || is_break(b[look + 1]))
}

/// The kind a token is recorded under for the tree builder: the
/// source-bearing kinds, none for the stream and block markers.
pub open spec fn recorded_kind_of(kind: TokenKind) -> Option<RecordedTokenKind> {
    match kind {
        TokenKind::DocumentStart => Some(RecordedTokenKind::DocStart),
        TokenKind::DocumentEnd => Some(RecordedTokenKind::DocEnd),
        TokenKind::BlockEntry => Some(RecordedTokenKind::DashIndicator),
        TokenKind::FlowEntry => Some(RecordedTokenKind::Comma),
        TokenKind::Key => Some(RecordedTokenKind::QuestionIndicator),
        TokenKind::Value => Some(RecordedTokenKind::ColonIndicator),
        TokenKind::FlowSequenceStart => Some(RecordedTokenKind::OpenBracket),
        TokenKind::FlowSequenceEnd => Some(RecordedTokenKind::CloseBracket),
        TokenKind::FlowMappingStart => Some(RecordedTokenKind::OpenBrace),
        TokenKind::FlowMappingEnd => Some(RecordedTokenKind::CloseBrace),
        TokenKind::Anchor(_) => Some(RecordedTokenKind::AnchorMark),
        TokenKind::Alias(_) => Some(RecordedTokenKind::AliasMark),
        TokenKind::Tag(_, _) => Some(RecordedTokenKind::TagMark),
        TokenKind::Scalar(style, _) => Some(
            match style {
                ScalarStyle::Plain => RecordedTokenKind::PlainScalar,
                ScalarStyle::SingleQuoted => RecordedTokenKind::SingleQuotedScalar,
                ScalarStyle::DoubleQuoted => RecordedTokenKind::DoubleQuotedScalar,
                ScalarStyle::Literal => RecordedTokenKind::LiteralScalar,
                ScalarStyle::Folded => RecordedTokenKind::FoldedScalar,
            },
        ),
        _ => None,
    }
}

/// Where a simple key may begin, and whether one must.
#[derive(Debug, Clone, Copy)]
pub struct SimpleKey {
    pub possible: bool,
    pub required: bool,
    pub token_number: u128,
    pub index: usize,
    pub json_like: bool,
}

/// The kind of the most recently emitted token, as far as the alias
/// guard needs it.
#[derive(Debug, Clone, Copy, PartialEq, Eq, Structural)]
pub enum LastEmitted {
    Other,
    Anchor,
    Tag,
}

/// A range `start <= end <= bound`.
pub open spec fn within(start: usize, end: usize, bound: int) -> bool {
    start <= end <= bound
}

/// The open block indents: the outermost is `-1`, every later one is a
/// column, and the current indent is `-1` exactly when none is open.
#[verifier::opaque]
pub open spec fn indents_ok(stack: Seq<isize>, indent: isize, bound: int) -> bool {
    &&& -1 <= indent <= bound
    &&& (indent == -1 <==> stack.len() == 0)
    &&& forall|i: int| 0 <= i < stack.len() ==> -1 <= #[trigger] stack[i] <= bound
    &&& forall|i: int| 0 <= i < stack.len() ==> (stack[i] == -1 <==> i == 0)
}

/// Every token covers a range ending by `bound`.
#[verifier::opaque]
pub open spec fn spans_within(t: Seq<Token>, bound: int) -> bool {
    forall|i: int| 0 <= i < t.len() ==> within(#[trigger] t[i].span.start, t[i].span.end, bound)
}

/// Every recorded item covers a range ending by `bound`.
#[verifier::opaque]
pub open spec fn records_within(
    tr: Seq<Trivia>,
    rt: Seq<RecordedToken>,
    cm: Seq<ScannedComment>,
    bound: int,
) -> bool {
    &&& forall|i: int| 0 <= i < tr.len() ==> within(#[trigger] tr[i].start, tr[i].end, bound)
    &&& forall|i: int| 0 <= i < rt.len() ==> within(#[trigger] rt[i].start, rt[i].end, bound)
    &&& forall|i: int| 0 <= i < cm.len() ==> within(#[trigger] cm[i].start, cm[i].end, bound)
}

/// Every possible simple key stands for a token numbered from `low`
/// up to `top`, and begins by `pos`.
#[verifier::opaque]
pub open spec fn keys_fit(keys: Seq<SimpleKey>, low: int, top: int, pos: int) -> bool {
    forall|i: int|
        0 <= i < keys.len() && (#[trigger] keys[i]).possible ==> low <= keys[i].token_number <= top
            && keys[i].index <= pos
}

/// Every possible simple key stands for a token numbered below `top`
/// and begins by `last_end`.
#[verifier::opaque]
pub open spec fn keys_queued(keys: Seq<SimpleKey>, top: int, last_end: int) -> bool {
    forall|i: int|
        0 <= i < keys.len() && (#[trigger] keys[i]).possible ==> keys[i].token_number < top
            && keys[i].index <= last_end
}

proof fn lemma_indents_mono(stack: Seq<isize>, indent: isize, a: int, b: int)
    requires
        indents_ok(stack, indent, a),
        a <= b,
    ensures
        indents_ok(stack, indent, b),
{
    reveal(indents_ok);
}

proof fn lemma_indents_push(stack: Seq<isize>, indent: isize, column: isize, b: int)
    requires
        indents_ok(stack, indent, b),
        indent < column <= b,
        0 <= column,
    ensures
        indents_ok(stack.push(indent), column, b),
{
    reveal(indents_ok);
    let s2 = stack.push(indent);
    assert forall|i: int| 0 <= i < s2.len() implies -1 <= #[trigger] s2[i] <= b && (s2[i] == -1
        <==> i == 0) by {
        if i < stack.len() {
            assert(s2[i] == stack[i]);
        }
    }
}

proof fn lemma_indents_pop(stack: Seq<isize>, indent: isize, b: int)
    requires
        indents_ok(stack, indent, b),
        indent >= 0,
    ensures
        stack.len() > 0,
        indents_ok(stack.drop_last(), stack.last(), b),
{
    reveal(indents_ok);
    let s2 = stack.drop_last();
    assert forall|i: int| 0 <= i < s2.len() implies -1 <= #[trigger] s2[i] <= b && (s2[i] == -1
        <==> i == 0) by {
        assert(s2[i] == stack[i]);
    }
    assert(stack.last() == stack[stack.len() - 1]);
}

proof fn lemma_spans_mono(t: Seq<Token>, a: int, b: int)
    requires
        spans_within(t, a),
        a <= b,
    ensures
        spans_within(t, b),
{
    reveal(spans_within);
}

proof fn lemma_spans_push(t: Seq<Token>, tok: Token, b: int)
    requires
        spans_within(t, b),
        within(tok.span.start, tok.span.end, b),
    ensures
        spans_within(t.push(tok), b),
{
    reveal(spans_within);
    let t2 = t.push(tok);
    assert forall|i: int| 0 <= i < t2.len() implies within(
        #[trigger] t2[i].span.start,
        t2[i].span.end,
        b,
    ) by {
        if i < t.len() {
            assert(t2[i] == t[i]);
        }
    }
}

proof fn lemma_spans_insert(t: Seq<Token>, k: int, tok: Token, b: int)
    requires
        spans_within(t, b),
        0 <= k <= t.len(),
        within(tok.span.start, tok.span.end, b),
    ensures
        spans_within(t.insert(k, tok), b),
{
    reveal(spans_within);
    let t2 = t.insert(k, tok);
    assert forall|i: int| 0 <= i < t2.len() implies within(
        #[trigger] t2[i].span.start,
        t2[i].span.end,
        b,
    ) by {
        if i < k {
            assert(t2[i] == t[i]);
        } else if i > k {
            assert(t2[i] == t[i - 1]);
        }
    }
}

proof fn lemma_spans_skip(t: Seq<Token>, k: int, b: int)
    requires
        spans_within(t, b),
        0 <= k <= t.len(),
    ensures
        spans_within(t.skip(k), b),
{
    reveal(spans_within);
    let t2 = t.skip(k);
    assert forall|i: int| 0 <= i < t2.len() implies within(
        #[trigger] t2[i].span.start,
        t2[i].span.end,
        b,
    ) by {
        assert(t2[i] == t[i + k]);
    }
}

proof fn lemma_records_mono(tr: Seq<Trivia>, rt: Seq<RecordedToken>, cm: Seq<ScannedComment>, a: int, b: int)
    requires
        records_within(tr, rt, cm, a),
        a <= b,
    ensures
        records_within(tr, rt, cm, b),
{
    reveal(records_within);
}

proof fn lemma_records_trivia(tr: Seq<Trivia>, rt: Seq<RecordedToken>, cm: Seq<ScannedComment>, x: Trivia, b: int)
    requires
        records_within(tr, rt, cm, b),
        within(x.start, x.end, b),
    ensures
        records_within(tr.push(x), rt, cm, b),
{
    reveal(records_within);
    let t2 = tr.push(x);
    assert forall|i: int| 0 <= i < t2.len() implies within(#[trigger] t2[i].start, t2[i].end, b) by {
        if i < tr.len() {
            assert(t2[i] == tr[i]);
        }
    }
}

proof fn lemma_records_token(tr: Seq<Trivia>, rt: Seq<RecordedToken>, cm: Seq<ScannedComment>, x: RecordedToken, b: int)
    requires
        records_within(tr, rt, cm, b),
        within(x.start, x.end, b),
    ensures
        records_within(tr, rt.push(x), cm, b),
{
    reveal(records_within);
    let t2 = rt.push(x);
    assert forall|i: int| 0 <= i < t2.len() implies within(#[trigger] t2[i].start, t2[i].end, b) by {
        if i < rt.len() {
            assert(t2[i] == rt[i]);
        }
    }
}

proof fn lemma_records_comment(tr: Seq<Trivia>, rt: Seq<RecordedToken>, cm: Seq<ScannedComment>, x: ScannedComment, b: int)
    requires
        records_within(tr, rt, cm, b),
        within(x.start, x.end, b),
    ensures
        records_within(tr, rt, cm.push(x), b),
{
    reveal(records_within);
    let t2 = cm.push(x);
    assert forall|i: int| 0 <= i < t2.len() implies within(#[trigger] t2[i].start, t2[i].end, b) by {
        if i < cm.len() {
            assert(t2[i] == cm[i]);
        }
    }
}

proof fn lemma_keys_fit_mono(keys: Seq<SimpleKey>, low: int, top: int, pos: int, top2: int, pos2: int)
    requires
        keys_fit(keys, low, top, pos),
        top <= top2,
        pos <= pos2,
    ensures
        keys_fit(keys, low, top2, pos2),
{
    reveal(keys_fit);
}

/// The YAML 1.2 scanner over one input.
pub struct Scanner<'a> {
    input: &'a str,
    bytes: &'a [u8],
    pos: usize,
    mark: usize,
    col: usize,
    tokens: Vec<Token>,
    tokens_consumed: usize,
    tokens_produced: u128,
    indent: isize,
    indents: Vec<isize>,
    flow_level: usize,
    simple_keys: Vec<SimpleKey>,
    simple_key_allowed: bool,
    adjacent_value_allowed: bool,
    explicit_key_pending: bool,
    stream_started: bool,
    stream_ended: bool,
    comments: Vec<ScannedComment>,
    yaml_directive_seen: bool,
    recording: bool,
    trivia: Vec<Trivia>,
    recorded_tokens: Vec<RecordedToken>,
    last_token_opens_block: bool,
    doc_start_inline: bool,
    pending_directive_needs_doc_start: bool,
    in_document_body: bool,
    last_emitted_kind: LastEmitted,
}

impl<'a> Scanner<'a> {
    /// The input's bytes.
    pub closed spec fn text(&self) -> Seq<u8> {
        self.bytes@
    }

    /// The input.
    pub closed spec fn source(&self) -> &'a str {
        self.input
    }

    /// Tokens fetched and not yet handed out.
    pub closed spec fn queued(&self) -> int {
        self.tokens@.len() - self.tokens_consumed
    }

    /// What is left to do: four units per unread byte, one per open
    /// block indent and per queued token, one each for the stream's
    /// start and end while they are owed. No fetch raises it, and each
    /// token handed out lowers it.
    pub closed spec fn budget(&self) -> int {
        4 * (self.bytes@.len() - self.pos) + self.indents@.len() + self.queued() + (if self.stream_started {
            0int
        } else {
            1int
        }) + (if self.stream_ended {
            0int
        } else {
            1int
        })
    }

    /// What each fetch lowers: five units per unread byte, one per open
    /// indent, two each for the stream's start and end.
    pub closed spec fn progress(&self) -> int {
        5 * (self.bytes@.len() - self.pos) + self.indents@.len() + (if self.stream_started {
            0int
        } else {
            2int
        }) + (if self.stream_ended {
            0int
        } else {
            2int
        })
    }

    /// Whether trivia and source-bearing tokens are being recorded.
    pub closed spec fn recording_on(&self) -> bool {
        self.recording
    }

    /// The trivia recorded and not yet taken.
    pub closed spec fn trivia_seq(&self) -> Seq<Trivia> {
        self.trivia@
    }

    /// The source-bearing tokens recorded and not yet taken.
    pub closed spec fn recorded_seq(&self) -> Seq<RecordedToken> {
        self.recorded_tokens@
    }

    /// The comments captured and not yet taken.
    pub closed spec fn comment_seq(&self) -> Seq<ScannedComment> {
        self.comments@
    }

    /// Nothing has been scanned yet.
    pub closed spec fn fresh(&self) -> bool {
        &&& !self.stream_started
        &&& !self.stream_ended
        &&& self.tokens@.len() == 0
        &&& self.tokens_consumed == 0
        &&& self.tokens_produced == 0
        &&& self.simple_keys@.len() == 0
    }

    /// Only the stream's start has been scanned, and nothing handed out.
    spec fn just_opened(&self) -> bool {
        &&& self.stream_started
        &&& !self.stream_ended
        &&& self.tokens@.len() == 1
        &&& self.tokens@[0].kind is StreamStart
        &&& self.tokens_consumed == 0
        &&& self.tokens_produced == 0
        &&& self.simple_keys@.len() == 1
        &&& !self.simple_keys@[0].possible
    }

    /// Tokens handed out so far.
    pub closed spec fn handed_out(&self) -> int {
        self.tokens_produced as int
    }

    /// `b` is `a` with at most the named parts changed: the position
    /// and column, the mark, the token queue, the indents, the simple
    /// keys, the marks of emitted content, the records, and the context
    /// flags.
    pub closed spec fn kept(
        a: Self,
        b: Self,
        pc: bool,
        mk: bool,
        t: bool,
        ind: bool,
        k: bool,
        e: bool,
        rec: bool,
        fl: bool,
    ) -> bool {
        &&& b.input == a.input
        &&& b.bytes == a.bytes
        &&& (mk || b.mark == a.mark)
        &&& (pc || (b.pos == a.pos && b.col == a.col))
        &&& (t || b.tokens == a.tokens)
        &&& (ind || (b.indent == a.indent && b.indents == a.indents))
        &&& (k || b.simple_keys == a.simple_keys)
        &&& (e || (b.in_document_body == a.in_document_body && b.last_emitted_kind
            == a.last_emitted_kind))
        &&& (rec || (b.comments == a.comments && b.trivia == a.trivia && b.recorded_tokens
            == a.recorded_tokens))
        &&& (fl || (b.simple_key_allowed == a.simple_key_allowed && b.adjacent_value_allowed
            == a.adjacent_value_allowed && b.explicit_key_pending == a.explicit_key_pending
            && b.yaml_directive_seen == a.yaml_directive_seen && b.last_token_opens_block
            == a.last_token_opens_block && b.doc_start_inline == a.doc_start_inline
            && b.pending_directive_needs_doc_start == a.pending_directive_needs_doc_start))
        &&& b.tokens_consumed == a.tokens_consumed
        &&& b.tokens_produced == a.tokens_produced
        &&& b.flow_level == a.flow_level
        &&& b.stream_started == a.stream_started
        &&& b.stream_ended == a.stream_ended
        &&& b.recording == a.recording
    }

    /// `b` reads the same input as `a` and holds the same queue, scopes
    /// and simple keys.
    pub closed spec fn same_queue(a: Self, b: Self) -> bool {
        &&& b.input == a.input
        &&& b.bytes == a.bytes
        &&& b.tokens == a.tokens
        &&& b.tokens_consumed == a.tokens_consumed
        &&& b.tokens_produced == a.tokens_produced
        &&& b.indent == a.indent
        &&& b.indents == a.indents
        &&& b.flow_level == a.flow_level
        &&& b.simple_keys == a.simple_keys
        &&& b.stream_started == a.stream_started
        &&& b.stream_ended == a.stream_ended
        &&& b.mark == a.mark
    }

    /// A fetch that succeeded leaves the scanner well formed over the
    /// same input, with nothing handed out, no more budget and less
    /// progress left.
    pub closed spec fn fetched(a: Self, b: Self) -> bool {
        &&& b.wf()
        &&& b.input == a.input
        &&& b.bytes == a.bytes
        &&& b.tokens_produced == a.tokens_produced
        &&& b.tokens_consumed == a.tokens_consumed
        &&& b.budget() <= a.budget()
        &&& b.progress() < a.progress()
    }

    /// The scanner's own consistency: positions within the input,
    /// recorded ranges within what was read, the indent stack in shape,
    /// and, while the stream is open, every possible simple key standing
    /// for a token fetched and not yet handed out.
    pub closed spec fn consistent(&self) -> bool {
        let n = self.bytes@.len() as int;
        &&& self.bytes@ == self.input.spec_bytes()
        &&& n <= isize::MAX
        &&& self.mark <= self.pos <= n
        &&& self.col <= self.pos
        &&& self.tokens_consumed <= self.tokens@.len()
        &&& self.tokens_produced <= 4 * n + 2
        &&& spans_within(self.tokens@, self.pos as int)
        &&& indents_ok(self.indents@, self.indent, self.pos as int)
        &&& self.flow_level <= self.pos
        &&& !self.stream_ended ==> keys_fit(
            self.simple_keys@,
            self.tokens_produced as int,
            self.tokens_produced + self.queued(),
            self.pos as int,
        )
        &&& records_within(self.trivia@, self.recorded_tokens@, self.comments@, self.pos as int)
    }

    /// Between fetches, the token a possible simple key stands for is
    /// already queued, and the key begins no later than the last token
    /// ends.
    pub closed spec fn keys_settled(&self) -> bool {
        !self.stream_ended ==> keys_queued(
            self.simple_keys@,
            self.tokens_produced + self.queued(),
            self.tokens@.last().span.end as int,
        )
    }

    /// The count of tokens handed out is bounded by the work spent.
    pub closed spec fn bounded(&self) -> bool {
        self.tokens_produced + self.budget() <= 4 * self.bytes@.len() + 2
    }

    /// The scanner is consistent, settled, within its budget, and at the
    /// start of a character.
    pub closed spec fn wf(&self) -> bool {
        self.consistent() && self.keys_settled() && self.bounded() && self.at_char()
    }

    /// The position starts a character (or is the end).
    pub closed spec fn at_char(&self) -> bool {
        starts_char(self.bytes@, self.pos as int)
    }

    /// A scanner at the start of `input`.
    pub fn new(input: &'a str) -> (s: Self)
        requires
            input.spec_bytes().len() <= isize::MAX,
        ensures
            s.wf(),
            s.text() == input.spec_bytes(),
            s.source() == input,
            s.handed_out() == 0,
            s.budget() == 4 * input.spec_bytes().len() + 2,
            s.fresh(),
    {
        let s = Scanner {
            input,
            bytes: input.as_bytes(),
            pos: 0,
            mark: 0,
            col: 0,
            tokens: Vec::new(),
            tokens_consumed: 0,
            tokens_produced: 0,
            indent: -1,
            indents: Vec::new(),
            flow_level: 0,
            simple_keys: Vec::new(),
            simple_key_allowed: false,
            adjacent_value_allowed: false,
            explicit_key_pending: false,
            stream_started: false,
            stream_ended: false,
            comments: Vec::new(),
            yaml_directive_seen: false,
            recording: false,
            trivia: Vec::new(),
            recorded_tokens: Vec::new(),
            last_token_opens_block: true,
            doc_start_inline: false,
            pending_directive_needs_doc_start: false,
            in_document_body: false,
            last_emitted_kind: LastEmitted::Other,
        };
        proof {
            reveal(indents_ok);
            reveal(spans_within);
            reveal(keys_fit);
            reveal(keys_queued);
            reveal(records_within);
            vstd::utf8::encode_utf8_valid_utf8(input@);
            if input.spec_bytes().len() > 0 {
                is_char_boundary_iff_not_is_continuation_byte(input.spec_bytes(), 0);
            }
        }
        s
    }

    /// Record trivia and source-bearing tokens for the tree builder.
    pub fn enable_recording(&mut self)
        requires
            old(self).wf(),
        ensures
            final(self).wf(),
            final(self).text() == old(self).text(),
            final(self).source() == old(self).source(),
            final(self).budget() == old(self).budget(),
            final(self).handed_out() == old(self).handed_out(),
            final(self).recording_on(),
            final(self).trivia_seq() == old(self).trivia_seq(),
            final(self).recorded_seq() == old(self).recorded_seq(),
            final(self).comment_seq() == old(self).comment_seq(),
    {
        self.recording = true;
    }

    /// The byte at `pos`, or 0 at the end.
    fn peek(&self) -> (c: u8)
        requires
            self.consistent(),
        ensures
            c == byte_at(self.bytes@, self.pos as int),
    {
        if self.pos < self.bytes.len() {
            self.bytes[self.pos]
        } else {
            0
        }
    }

    /// The byte `offset` past `pos`, or 0 past the end.
    fn peek_at(&self, offset: usize) -> (c: u8)
        requires
            self.consistent(),
            offset <= 4,
        ensures
            c == byte_at(self.bytes@, self.pos + offset),
    {
        let idx = self.pos + offset;
        if idx < self.bytes.len() {
            self.bytes[idx]
        } else {
            0
        }
    }

    fn is_eof(&self) -> (r: bool)
        requires
            self.consistent(),
        ensures
            r == (self.pos >= self.bytes@.len()),
    {
        self.pos >= self.bytes.len()
    }

    /// The plain numeric facts of a consistent scanner.
    proof fn lemma_facts(&self)
        requires
            self.consistent(),
        ensures
            self.bytes@ == self.input.spec_bytes(),
            self.bytes@.len() <= isize::MAX,
            self.mark <= self.pos <= self.bytes@.len(),
            self.col <= self.pos,
            self.tokens_consumed <= self.tokens@.len(),
            self.tokens_produced <= 4 * self.bytes@.len() + 2,
            self.flow_level <= self.pos,
            -1 <= self.indent <= self.pos,
    {
        reveal(indents_ok);
    }

    proof fn lemma_valid(&self)
        requires
            self.consistent(),
        ensures
            valid_utf8(self.bytes@),
    {
        vstd::utf8::encode_utf8_valid_utf8(self.input@);
    }

    /// Past an ASCII byte the position starts a character.
    proof fn lemma_after_step(&self)
        requires
            self.consistent(),
            self.pos > 0,
            self.bytes@[self.pos - 1] < 0x80,
        ensures
            self.at_char(),
    {
        self.lemma_facts();
        self.lemma_ascii_bounds(self.pos - 1);
    }

    /// `starts_char` positions are character boundaries of the input.
    proof fn lemma_boundary(&self, i: int)
        requires
            self.consistent(),
            starts_char(self.bytes@, i),
        ensures
            on_boundary(self.input, i),
    {
        self.lemma_valid();
        if i == self.bytes@.len() {
            vstd::utf8::is_char_boundary_start_end_of_seq(self.bytes@);
        } else {
            is_char_boundary_iff_not_is_continuation_byte(self.bytes@, i);
        }
    }

    /// A byte below 0x80 starts a character, and so does the byte after it.
    proof fn lemma_ascii_bounds(&self, j: int)
        requires
            self.consistent(),
            0 <= j < self.bytes@.len(),
            self.bytes@[j] < 0x80,
        ensures
            starts_char(self.bytes@, j),
            starts_char(self.bytes@, j + 1),
    {
        self.lemma_valid();
        lemma_after_ascii(self.bytes@, j);
    }

    /// The input from `start` to `end`.
    fn slice_str(&self, start: usize, end: usize) -> (r: &'a str)
        requires
            self.consistent(),
            start <= end <= self.bytes@.len(),
            starts_char(self.bytes@, start as int),
            starts_char(self.bytes@, end as int),
        ensures
            r.spec_bytes() == self.bytes@.subrange(start as int, end as int),
    {
        proof {
            self.lemma_boundary(start as int);
            self.lemma_boundary(end as int);
        }
        str_range(self.input, start, end)
    }

    /// An error at the current position.
    fn error(&self, msg: &str) -> (e: ScanError)
        requires
            self.consistent(),
        ensures
            e.message@ == msg@,
            e.index == self.pos,
            e.index <= self.bytes@.len(),
    {
        ScanError { message: owned_string(msg), index: self.pos }
    }

    /// Moving forward keeps the scanner consistent and settled.
    proof fn lemma_moved(a: Self, b: Self)
        requires
            a.consistent(),
            Self::kept(a, b, true, false, false, false, false, false, false, false),
            a.pos <= b.pos <= a.bytes@.len(),
            b.col <= b.pos,
        ensures
            b.consistent(),
            a.keys_settled() ==> b.keys_settled(),
            b.budget() == a.budget() - 4 * (b.pos - a.pos),
            b.progress() == a.progress() - 5 * (b.pos - a.pos),
    {
        lemma_spans_mono(a.tokens@, a.pos as int, b.pos as int);
        lemma_indents_mono(a.indents@, a.indent, a.pos as int, b.pos as int);
        lemma_records_mono(a.trivia@, a.recorded_tokens@, a.comments@, a.pos as int, b.pos as int);
        if !a.stream_ended {
            lemma_keys_fit_mono(
                a.simple_keys@,
                a.tokens_produced as int,
                a.tokens_produced + a.queued(),
                a.pos as int,
                a.tokens_produced + a.queued(),
                b.pos as int,
            );
        }
    }

    /// Record a piece of trivia read so far.
    fn record_trivia(&mut self, start: usize, end: usize, kind: TriviaKind)
        requires
            old(self).consistent(),
            start <= end <= old(self).pos,
        ensures
            final(self).consistent(),
            old(self).keys_settled() ==> final(self).keys_settled(),
            Self::kept(*old(self), *final(self), false, false, false, false, false, false, true, false),
            final(self).trivia@ == old(self).trivia@.push(Trivia { start, end, kind }),
            final(self).recorded_tokens == old(self).recorded_tokens,
            final(self).comments == old(self).comments,
            final(self).budget() == old(self).budget(),
            final(self).progress() == old(self).progress(),
    {
        let x = Trivia { start, end, kind };
        proof {
            lemma_records_trivia(
                self.trivia@,
                self.recorded_tokens@,
                self.comments@,
                x,
                self.pos as int,
            );
        }
        self.trivia.push(x);
    }

    /// Record a comment read so far.
    fn record_comment(&mut self, c: ScannedComment)
        requires
            old(self).consistent(),
            c.start <= c.end <= old(self).pos,
        ensures
            final(self).consistent(),
            old(self).keys_settled() ==> final(self).keys_settled(),
            Self::kept(*old(self), *final(self), false, false, false, false, false, false, true, false),
            final(self).comments@ == old(self).comments@.push(c),
            final(self).recorded_tokens == old(self).recorded_tokens,
            final(self).trivia == old(self).trivia,
            final(self).budget() == old(self).budget(),
            final(self).progress() == old(self).progress(),
    {
        proof {
            lemma_records_comment(
                self.trivia@,
                self.recorded_tokens@,
                self.comments@,
                c,
                self.pos as int,
            );
        }
        self.comments.push(c);
    }

    /// Where the first line break or the end lies at or after `from`.
    fn line_end_from(&self, from: usize) -> (e: usize)
        requires
            self.consistent(),
            from <= self.bytes@.len(),
        ensures
            from <= e <= self.bytes@.len(),
            e < self.bytes@.len() ==> is_break(self.bytes@[e as int]),
            forall|i: int| from <= i < e ==> !is_break(#[trigger] self.bytes@[i]),
    {
        let n = self.bytes.len();
        let mut e = from;
        while e < n && !line_break(self.bytes[e])
            invariant
                from <= e <= n,
                n == self.bytes@.len(),
                forall|i: int| from <= i < e ==> !is_break(#[trigger] self.bytes@[i]),
            decreases n - e,
        {
            e = e + 1;
        }
        e
    }

    /// Where the run of blanks at `from` ends.
    fn blanks_end_from(&self, from: usize) -> (e: usize)
        requires
            self.consistent(),
            from <= self.bytes@.len(),
        ensures
            from <= e <= self.bytes@.len(),
            !is_blank(byte_at(self.bytes@, e as int)),
            forall|i: int| from <= i < e ==> is_blank(#[trigger] self.bytes@[i]),
            e == blanks_from(self.bytes@, from as int),
    {
        let n = self.bytes.len();
        let mut e = from;
        while e < n && blank(self.bytes[e])
            invariant
                from <= e <= n,
                n == self.bytes@.len(),
                forall|i: int| from <= i < e ==> is_blank(#[trigger] self.bytes@[i]),
                blanks_from(self.bytes@, e as int) == blanks_from(self.bytes@, from as int),
            decreases n - e,
        {
            e = e + 1;
        }
        e
    }

    /// The line after a break breaks the indentation rules: in a flow
    /// collection inside a block, content at or left of the block's
    /// indentation; in block context, a tab before the line's content.
    spec fn breaks_indentation(s: Self) -> bool {
        let look = blanks_from(s.bytes@, s.pos as int);
        let content = look < s.bytes@.len() && !is_break(s.bytes@[look]);
        ||| s.flow_level > 0 && s.indent >= 0 && content && look - s.pos <= s.indent
        ||| s.flow_level == 0 && byte_at(s.bytes@, s.pos as int) == TAB && content
    }

    /// Capture the comment at the current position, if there is one.
    fn skip_comment(&mut self, inline: bool) -> (r: Result<(), ScanError>)
        requires
            old(self).consistent(),
        ensures
            old(self).at_char() ==> final(self).at_char(),
            final(self).consistent(),
            old(self).keys_settled() ==> final(self).keys_settled(),
            Self::same_queue(*old(self), *final(self)),
            final(self).pos >= old(self).pos,
            final(self).budget() == old(self).budget() - 4 * (final(self).pos - old(self).pos),
            final(self).progress() == old(self).progress() - 5 * (final(self).pos - old(self).pos),
            r matches Err(e) ==> e.index <= old(self).bytes@.len(),
            byte_at(old(self).bytes@, old(self).pos as int) != HASH ==> r is Ok && final(self).pos
                == old(self).pos && final(self).comment_seq() == old(self).comment_seq(),
            byte_at(old(self).bytes@, old(self).pos as int) == HASH ==> (r is Err <==> old(self).pos > 0
                && !is_blank(old(self).bytes@[old(self).pos - 1]) && !is_break(
                old(self).bytes@[old(self).pos - 1],
            )),
            byte_at(old(self).bytes@, old(self).pos as int) == HASH && r is Ok ==> {
                &&& final(self).pos < final(self).bytes@.len() ==> is_break(
                    final(self).bytes@[final(self).pos as int],
                )
                &&& forall|i: int|
                    old(self).pos <= i < final(self).pos ==> !is_break(#[trigger] final(self).bytes@[i])
                &&& final(self).comment_seq().len() == old(self).comment_seq().len() + 1
                &&& final(self).comment_seq().last().start == old(self).pos
                &&& final(self).comment_seq().last().end == final(self).pos
                &&& final(self).comment_seq().last().inline == inline
            },
    {
        if self.peek() != HASH {
            return Ok(());
        }
        if self.pos > 0 {
            let prev = self.bytes[self.pos - 1];
            if !blank_or_break(prev) {
                return Err(
                    self.error(
                        "comment indicator '#' must be preceded by a space, tab, or line break",
                    ),
                );
            }
        }
        let comment_start = self.pos;
        let comment_end = self.line_end_from(comment_start);
        let text_start = comment_start + 1;
        proof {
            self.lemma_ascii_bounds(comment_start as int);
            if comment_end < self.bytes@.len() {
                self.lemma_ascii_bounds(comment_end as int);
            }
        }
        let text = owned_string(self.slice_str(text_start, comment_end));
        self.advance_by(comment_end - comment_start);
        assert(self.at_char());
        self.record_comment(ScannedComment { start: comment_start, end: comment_end, text, inline });
        Ok(())
    }

    /// After a line break: close the `---` line, drop node decorations,
    /// and check flow continuation indents and block tab indentation.
    fn after_line_break(&mut self) -> (r: Result<(), ScanError>)
        requires
            old(self).consistent(),
        ensures
            final(self).consistent(),
            old(self).keys_settled() ==> final(self).keys_settled(),
            Self::same_queue(*old(self), *final(self)),
            final(self).pos == old(self).pos,
            final(self).budget() == old(self).budget(),
            final(self).progress() == old(self).progress(),
            r matches Err(e) ==> e.index == old(self).pos,
            !final(self).doc_start_inline,
            r is Err <==> Self::breaks_indentation(*old(self)),
            r is Ok && old(self).flow_level == 0 ==> final(self).simple_key_allowed,
            old(self).last_emitted_kind == LastEmitted::Anchor || old(self).last_emitted_kind
                == LastEmitted::Tag ==> final(self).last_emitted_kind == LastEmitted::Other,
    {
        self.doc_start_inline = false;
        if self.last_emitted_kind == LastEmitted::Anchor || self.last_emitted_kind
            == LastEmitted::Tag {
            self.last_emitted_kind = LastEmitted::Other;
        }
        if self.flow_level > 0 && self.indent >= 0 {
            let look = self.blanks_end_from(self.pos);
            let line_has_content = look < self.bytes.len() && !line_break(self.bytes[look]);
            let content_col = (look - self.pos) as isize;
            if line_has_content && content_col <= self.indent {
                return Err(self.error("flow content must be indented more than the surrounding block"));
            }
        }
        if self.flow_level == 0 {
            self.simple_key_allowed = true;
            if self.peek() == TAB {
                let look = self.blanks_end_from(self.pos);
                if look < self.bytes.len() && !line_break(self.bytes[look]) {
                    return Err(self.error("tab characters are not allowed as indentation"));
                }
            }
        }
        Ok(())
    }

    /// Skip blanks, comments and line breaks up to the next token,
    /// capturing comments and checking indentation rules on the way.
    fn skip_to_next_token(&mut self) -> (r: Result<(), ScanError>)
        requires
            old(self).consistent(),
        ensures
            old(self).at_char() ==> final(self).at_char(),
            final(self).consistent(),
            old(self).keys_settled() ==> final(self).keys_settled(),
            Self::same_queue(*old(self), *final(self)),
            final(self).pos >= old(self).pos,
            final(self).budget() == old(self).budget() - 4 * (final(self).pos - old(self).pos),
            final(self).progress() == old(self).progress() - 5 * (final(self).pos - old(self).pos),
            r matches Err(e) ==> e.index <= old(self).bytes@.len(),
            r is Ok ==> {
                let c = byte_at(final(self).bytes@, final(self).pos as int);
                !is_blank(c) && !is_break(c) && c != HASH
            },
            r is Ok ==> skippable(old(self).bytes@, old(self).pos as int, final(self).pos as int),
    {
        loop
            invariant
                self.consistent(),
                self.bytes@ == old(self).bytes@,
                skippable(old(self).bytes@, old(self).pos as int, self.pos as int),
                old(self).keys_settled() ==> self.keys_settled(),
                old(self).at_char() ==> self.at_char(),
                Self::same_queue(*old(self), *self),
                self.pos >= old(self).pos,
                self.budget() == old(self).budget() - 4 * (self.pos - old(self).pos),
                self.progress() == old(self).progress() - 5 * (self.pos - old(self).pos),
            ensures
                self.consistent(),
                skippable(old(self).bytes@, old(self).pos as int, self.pos as int),
                old(self).keys_settled() ==> self.keys_settled(),
                old(self).at_char() ==> self.at_char(),
                Self::same_queue(*old(self), *self),
                self.pos >= old(self).pos,
                self.budget() == old(self).budget() - 4 * (self.pos - old(self).pos),
                self.progress() == old(self).progress() - 5 * (self.pos - old(self).pos),
                !is_blank(byte_at(self.bytes@, self.pos as int)) && !is_break(
                    byte_at(self.bytes@, self.pos as int),
                ) && byte_at(self.bytes@, self.pos as int) != HASH,
            decreases self.bytes@.len() - self.pos,
        {
            let ghost round = self.pos;
            proof {
                self.lemma_facts();
            }
            let inline = self.col > 0;
            let blank_start = self.pos;
            self.skip_blank();
            if self.recording && self.pos > blank_start {
                self.record_trivia(blank_start, self.pos, TriviaKind::Whitespace);
            }
            let comment_start = self.pos;
            self.skip_comment(inline)?;
            proof {
                if self.pos > comment_start {
                    lemma_comment_run(self.bytes@, comment_start as int, self.pos as int);
                }
                assert(skippable(old(self).bytes@, old(self).pos as int, self.pos as int));
            }
            if line_break(self.peek()) {
                let break_start = self.pos;
                self.skip_line();
                if self.recording {
                    self.record_trivia(break_start, self.pos, TriviaKind::Newline);
                }
                self.after_line_break()?;
                proof {
                    self.lemma_facts();
                }
                assert(self.pos > round);
            } else {
                break;
            }
        }
        Ok(())
    }

    /// Put the mark at the current position.
    fn set_mark(&mut self)
        requires
            old(self).consistent(),
        ensures
            final(self).consistent(),
            old(self).keys_settled() ==> final(self).keys_settled(),
            final(self).mark == final(self).pos,
            Self::kept(*old(self), *final(self), false, true, false, false, false, false, false, false),
            final(self).budget() == old(self).budget(),
            final(self).progress() == old(self).progress(),
    {
        self.mark = self.pos;
    }

    /// Open a simple-key context that holds no key.
    fn push_simple_key(&mut self, sk: SimpleKey)
        requires
            old(self).consistent(),
            !sk.possible,
        ensures
            final(self).consistent(),
            old(self).keys_settled() ==> final(self).keys_settled(),
            Self::kept(*old(self), *final(self), false, false, false, false, true, false, false, false),
            final(self).simple_keys@ == old(self).simple_keys@.push(sk),
            final(self).budget() == old(self).budget(),
            final(self).progress() == old(self).progress(),
    {
        let ghost before = self.simple_keys@;
        self.simple_keys.push(sk);
        proof {
            reveal(keys_fit);
            reveal(keys_queued);
            assert forall|i: int| 0 <= i < before.len() implies self.simple_keys@[i] == before[i] by {
            }
        }
    }

    /// Close the innermost simple-key context.
    fn pop_simple_key(&mut self)
        requires
            old(self).consistent(),
        ensures
            final(self).consistent(),
            old(self).keys_settled() ==> final(self).keys_settled(),
            Self::kept(*old(self), *final(self), false, false, false, false, true, false, false, false),
            final(self).simple_keys@ == if old(self).simple_keys@.len() > 0 {
                old(self).simple_keys@.drop_last()
            } else {
                old(self).simple_keys@
            },
            final(self).budget() == old(self).budget(),
            final(self).progress() == old(self).progress(),
    {
        let ghost before = self.simple_keys@;
        let _ = self.simple_keys.pop();
        proof {
            reveal(keys_fit);
            reveal(keys_queued);
            assert forall|i: int| 0 <= i < self.simple_keys@.len() implies self.simple_keys@[i] == before[i] by {
            }
        }
    }

    /// The innermost simple key can no longer begin here.
    fn clear_last_key(&mut self)
        requires
            old(self).consistent(),
        ensures
            final(self).consistent(),
            old(self).keys_settled() ==> final(self).keys_settled(),
            Self::kept(*old(self), *final(self), false, false, false, false, true, false, false, false),
            final(self).simple_keys@.len() == old(self).simple_keys@.len(),
            final(self).simple_keys@.len() > 0 ==> !final(self).simple_keys@.last().possible,
            final(self).budget() == old(self).budget(),
            final(self).progress() == old(self).progress(),
    {
        let k = self.simple_keys.len();
        if k > 0 {
            let sk = self.simple_keys[k - 1];
            let ghost before = self.simple_keys@;
            self.simple_keys.set(k - 1, SimpleKey { possible: false, ..sk });
            proof {
                reveal(keys_fit);
                reveal(keys_queued);
                assert forall|i: int|
                    0 <= i < self.simple_keys@.len() && (#[trigger] self.simple_keys@[i]).possible implies self.simple_keys@[i]
                    == before[i] by {
                }
            }
        }
    }

    /// `prefix` followed by `rest`.
    fn message(prefix: &str, rest: &str) -> (m: String)
        ensures
            m@ == prefix@ + rest@,
    {
        let mut m = owned_string(prefix);
        push_str(&mut m, rest);
        m
    }

    /// A block collection cannot open on the `---` line.
    fn reject_block_inline_with_doc_start(&self, indicator: &str) -> (r: Result<(), ScanError>)
        requires
            self.consistent(),
        ensures
            r is Err <==> self.doc_start_inline,
            r matches Err(e) ==> e.index == self.pos && e.message@ == indicator@
                + " cannot open a block collection on the same line as '---'"@,
    {
        if self.doc_start_inline {
            return Err(
                ScanError {
                    message: Self::message(
                        indicator,
                        " cannot open a block collection on the same line as '---'",
                    ),
                    index: self.pos,
                },
            );
        }
        Ok(())
    }

    /// After a block indicator, a tab cannot stand as indentation before
    /// another block indicator.
    fn reject_tab_indent_after_indicator(&self, indicator: &str) -> (r: Result<(), ScanError>)
        requires
            self.consistent(),
        ensures
            r matches Err(e) ==> e.index == self.pos,
            r is Err <==> self.flow_level == 0 && tab_before_indicator(self.bytes@, self.pos as int),
    {
        proof {
            self.lemma_facts();
        }
        if self.flow_level != 0 {
            return Ok(());
        }
        let n = self.bytes.len();
        let mut look = self.pos;
        let mut last_ws: u8 = 0;
        while look < n && blank(self.bytes[look])
            invariant
                self.pos <= look <= n,
                n == self.bytes@.len(),
                blanks_from(self.bytes@, look as int) == blanks_from(self.bytes@, self.pos as int),
                last_ws == if look > self.pos {
                    self.bytes@[look - 1]
                } else {
                    0u8
                },
            decreases n - look,
        {
            last_ws = self.bytes[look];
            look = look + 1;
        }
        if last_ws != TAB || look >= n {
            return Ok(());
        }
        let next = self.bytes[look];
        let structural = (next == DASH || next == 0x3f || next == COLON) && (look + 1 >= n
            || blank_or_break(self.bytes[look + 1]));
        if !structural {
            return Ok(());
        }
        Err(
            ScanError {
                message: Self::message(
                    "tab character cannot precede a block-structural indicator after ",
                    indicator,
                ),
                index: self.pos,
            },
        )
    }

    /// The stream's first token, after an optional byte-order mark.
    fn fetch_stream_start(&mut self) -> (r: Result<(), ScanError>)
        requires
            old(self).wf(),
            !old(self).stream_started,
        ensures
            r is Ok,
            Self::fetched(*old(self), *final(self)),
            final(self).stream_started,
            old(self).fresh() ==> final(self).just_opened(),
    {
        proof {
            self.lemma_facts();
        }
        self.stream_started = true;
        self.simple_key_allowed = true;
        self.push_simple_key(
            SimpleKey { possible: false, required: false, token_number: 0, index: 0, json_like: false },
        );
        let n = self.bytes.len();
        if self.pos + 2 < n && self.bytes[self.pos] == 0xEF && self.bytes[self.pos + 1] == 0xBB
            && self.bytes[self.pos + 2] == 0xBF {
            let bom_start = self.pos;
            proof {
                self.lemma_valid();
                lemma_after_lead3(self.bytes@, self.pos as int);
            }
            self.advance_by(3);
            if self.recording {
                self.record_trivia(bom_start, self.pos, TriviaKind::Bom);
            }
        }
        self.set_mark();
        self.emit(TokenKind::StreamStart);
        Ok(())
    }

    /// The stream's last token, closing every open block.
    fn fetch_stream_end(&mut self) -> (r: Result<(), ScanError>)
        requires
            old(self).wf(),
            !old(self).stream_ended,
        ensures
            r is Ok ==> Self::fetched(*old(self), *final(self)) && final(self).stream_ended,
            r matches Err(e) ==> e.index <= old(self).bytes@.len(),
    {
        if self.pending_directive_needs_doc_start {
            return Err(self.error("directive must be followed by an explicit '---' document indicator"));
        }
        self.unroll_indent(-1);
        self.remove_simple_key()?;
        self.simple_key_allowed = false;
        self.stream_ended = true;
        self.emit(TokenKind::StreamEnd);
        Ok(())
    }

    /// A `---` or `...` marker.
    fn fetch_document_indicator(&mut self, is_start: bool) -> (r: Result<(), ScanError>)
        requires
            old(self).bytes@[old(self).pos + 2] < 0x80,
            old(self).wf(),
            old(self).pos + 3 <= old(self).bytes@.len(),
        ensures
            r is Ok ==> Self::fetched(*old(self), *final(self)),
            r matches Err(e) ==> e.index <= old(self).bytes@.len(),
    {
        self.unroll_indent(-1);
        self.remove_simple_key()?;
        self.simple_key_allowed = false;
        self.set_mark();
        self.advance_by(3);
        proof {
            self.lemma_after_step();
        }
        if is_start {
            self.emit(TokenKind::DocumentStart);
            self.pending_directive_needs_doc_start = false;
            self.doc_start_inline = true;
            self.in_document_body = false;
        } else {
            self.emit(TokenKind::DocumentEnd);
            self.yaml_directive_seen = false;
            self.in_document_body = false;
            proof {
                self.lemma_facts();
            }
            let look = self.blanks_end_from(self.pos);
            if look < self.bytes.len() && !line_break(self.bytes[look]) && self.bytes[look]
                != HASH {
                return Err(self.error("unexpected content after document-end marker '...'"));
            }
        }
        Ok(())
    }

    /// `[` or `{`.
    fn fetch_flow_collection_start(&mut self, is_seq: bool) -> (r: Result<(), ScanError>)
        requires
            old(self).bytes@[old(self).pos as int] < 0x80,
            old(self).wf(),
            old(self).pos < old(self).bytes@.len(),
        ensures
            r is Ok,
            Self::fetched(*old(self), *final(self)),
    {
        self.save_simple_key_ext(true);
        self.push_simple_key(
            SimpleKey { possible: false, required: false, token_number: 0, index: 0, json_like: false },
        );
        self.simple_key_allowed = true;
        self.set_mark();
        self.advance();
        proof {
            self.lemma_after_step();
        }
        proof {
            self.lemma_facts();
        }
        self.flow_level = self.flow_level + 1;
        if is_seq {
            self.emit(TokenKind::FlowSequenceStart);
        } else {
            self.emit(TokenKind::FlowMappingStart);
        }
        self.last_token_opens_block = false;
        Ok(())
    }

    /// `]` or `}`.
    fn fetch_flow_collection_end(&mut self, is_seq: bool) -> (r: Result<(), ScanError>)
        requires
            old(self).bytes@[old(self).pos as int] < 0x80,
            old(self).wf(),
            old(self).pos < old(self).bytes@.len(),
        ensures
            r is Ok ==> Self::fetched(*old(self), *final(self)),
            r matches Err(e) ==> e.index <= old(self).bytes@.len(),
    {
        if self.flow_level == 0 {
            return Err(
                self.error(
                    if is_seq {
                        "unexpected ']' outside of any flow sequence"
                    } else {
                        "unexpected '}' outside of any flow mapping"
                    },
                ),
            );
        }
        self.remove_simple_key()?;
        self.pop_simple_key();
        self.flow_level = self.flow_level - 1;
        self.simple_key_allowed = false;
        self.set_mark();
        self.advance();
        proof {
            self.lemma_after_step();
        }
        if is_seq {
            self.emit(TokenKind::FlowSequenceEnd);
        } else {
            self.emit(TokenKind::FlowMappingEnd);
        }
        if self.flow_level > 0 {
            self.adjacent_value_allowed = true;
        }
        Ok(())
    }

    /// `,` in a flow collection.
    fn fetch_flow_entry(&mut self) -> (r: Result<(), ScanError>)
        requires
            old(self).bytes@[old(self).pos as int] < 0x80,
            old(self).wf(),
            old(self).pos < old(self).bytes@.len(),
        ensures
            r is Ok ==> Self::fetched(*old(self), *final(self)),
            r matches Err(e) ==> e.index <= old(self).bytes@.len(),
    {
        self.remove_simple_key()?;
        self.simple_key_allowed = true;
        self.set_mark();
        self.advance();
        proof {
            self.lemma_after_step();
        }
        self.emit(TokenKind::FlowEntry);
        Ok(())
    }

    /// `-` opening a block sequence entry.
    fn fetch_block_entry(&mut self) -> (r: Result<(), ScanError>)
        requires
            old(self).bytes@[old(self).pos as int] < 0x80,
            old(self).wf(),
            old(self).pos < old(self).bytes@.len(),
        ensures
            r is Ok ==> Self::fetched(*old(self), *final(self)),
            r matches Err(e) ==> e.index <= old(self).bytes@.len(),
    {
        proof {
            self.lemma_facts();
        }
        if self.flow_level == 0 {
            if !self.simple_key_allowed && !self.explicit_key_pending {
                return Err(self.error("block sequence entries are not allowed in this context"));
            }
            self.reject_block_inline_with_doc_start("'-'")?;
            let col = self.col as isize;
            self.roll_indent(col, None, TokenKind::BlockSequenceStart, self.pos);
        }
        self.remove_simple_key()?;
        self.simple_key_allowed = true;
        self.set_mark();
        self.advance();
        proof {
            self.lemma_after_step();
        }
        self.reject_tab_indent_after_indicator("'-'")?;
        self.emit(TokenKind::BlockEntry);
        self.last_token_opens_block = true;
        Ok(())
    }

    /// `?` opening an explicit key.
    fn fetch_key(&mut self) -> (r: Result<(), ScanError>)
        requires
            old(self).bytes@[old(self).pos as int] < 0x80,
            old(self).wf(),
            old(self).pos < old(self).bytes@.len(),
        ensures
            r is Ok ==> Self::fetched(*old(self), *final(self)),
            r matches Err(e) ==> e.index <= old(self).bytes@.len(),
    {
        proof {
            self.lemma_facts();
        }
        if self.flow_level == 0 {
            if !self.simple_key_allowed {
                return Err(self.error("mapping keys are not allowed in this context"));
            }
            self.reject_block_inline_with_doc_start("'?'")?;
            let col = self.col as isize;
            self.roll_indent(col, None, TokenKind::BlockMappingStart, self.pos);
        }
        self.remove_simple_key()?;
        self.simple_key_allowed = false;
        if self.flow_level == 0 {
            self.explicit_key_pending = true;
        }
        self.set_mark();
        self.advance();
        proof {
            self.lemma_after_step();
        }
        self.reject_tab_indent_after_indicator("'?'")?;
        self.emit(TokenKind::Key);
        self.last_token_opens_block = true;
        Ok(())
    }

    /// Some byte from `from` up to `to` is a line break.
    fn has_break(&self, from: usize, to: usize) -> (r: bool)
        requires
            self.consistent(),
            from <= to <= self.bytes@.len(),
        ensures
            r == exists|i: int| from <= i < to && is_break(#[trigger] self.bytes@[i]),
    {
        let mut i = from;
        while i < to
            invariant
                from <= i <= to,
                to <= self.bytes@.len(),
                forall|j: int| from <= j < i ==> !is_break(#[trigger] self.bytes@[j]),
            decreases to - i,
        {
            if line_break(self.bytes[i]) {
                return true;
            }
            i = i + 1;
        }
        false
    }

    /// The column of byte `index`: its distance from the line's start.
    fn column_of(&self, index: usize) -> (c: usize)
        requires
            self.consistent(),
            index <= self.bytes@.len(),
        ensures
            c <= index,
            c == index - line_start(self.bytes@, index as int),
    {
        let mut i = index;
        while i > 0
            invariant
                i <= index,
                index <= self.bytes@.len(),
                line_start(self.bytes@, i as int) == line_start(self.bytes@, index as int),
            decreases i,
        {
            if self.bytes[i - 1] == LF {
                return index - i;
            }
            i = i - 1;
        }
        index
    }

    /// Where `end` lands after stepping back over blanks and breaks, not
    /// past `floor`.
    fn trim_back(&self, floor: usize, end: usize) -> (e: usize)
        requires
            self.consistent(),
            floor <= end <= self.bytes@.len(),
        ensures
            floor <= e <= end,
            e == trimmed(self.bytes@, floor as int, end as int),
    {
        let mut e = end;
        while e > floor && blank_or_break(self.bytes[e - 1])
            invariant
                floor <= e <= end,
                end <= self.bytes@.len(),
                trimmed(self.bytes@, floor as int, e as int) == trimmed(
                    self.bytes@,
                    floor as int,
                    end as int,
                ),
            decreases e,
        {
            e = e - 1;
        }
        e
    }

    /// Where the innermost simple key's text ends: at the last queued
    /// token, or at the key itself.
    spec fn key_end_of(s: Self) -> int {
        if s.tokens@.len() > 0 {
            s.tokens@.last().span.end as int
        } else {
            s.simple_keys@.last().index as int
        }
    }

    /// The innermost simple key spans more than one line.
    #[verifier::opaque]
    spec fn key_spans_lines(s: Self) -> bool {
        let sk = s.simple_keys@.last();
        breaks_within(s.bytes@, sk.index as int, trimmed(s.bytes@, sk.index as int, Self::key_end_of(s)))
    }

    /// A line break stands between the innermost simple key and the `:`.
    #[verifier::opaque]
    spec fn value_off_key_line(s: Self) -> bool {
        let sk = s.simple_keys@.last();
        breaks_within(
            s.bytes@,
            trimmed(s.bytes@, sk.index as int, Self::key_end_of(s)),
            s.pos as int,
        )
    }

    /// The queue once the simple key `sk` is completed: its key marker at
    /// its place and, in block context where its column is deeper than
    /// the current scope, a mapping start before it.
    #[verifier::opaque]
    spec fn keyed_tokens(s: Self, sk: SimpleKey) -> Seq<Token> {
        let i = s.tokens_consumed + (sk.token_number - s.tokens_produced);
        let sp = Span { start: sk.index, end: sk.index };
        let with_key = s.tokens@.insert(i, Token { kind: TokenKind::Key, span: sp });
        if s.flow_level == 0 && s.indent < sk.index - line_start(s.bytes@, sk.index as int) {
            with_key.insert(i, Token { kind: TokenKind::BlockMappingStart, span: sp })
        } else {
            with_key
        }
    }

    /// The queue after a `:` with no key: in block context, a mapping
    /// start where it stands when its column is deeper than the scope.
    #[verifier::opaque]
    spec fn complex_tokens(s: Self) -> Seq<Token> {
        if s.flow_level == 0 && s.indent < s.col {
            s.tokens@.push(
                Token { kind: TokenKind::BlockMappingStart, span: Span { start: s.pos, end: s.pos } },
            )
        } else {
            s.tokens@
        }
    }

    /// The pending simple key is refused for spanning lines.
    spec fn key_broken(s: Self) -> bool {
        s.simple_keys@.len() > 0 && s.simple_keys@.last().possible && s.flow_level == 0
            && Self::key_spans_lines(s)
    }

    /// The pending simple key stands and the `:` completes it.
    spec fn key_kept(s: Self) -> bool {
        s.simple_keys@.len() > 0 && s.simple_keys@.last().possible && (s.flow_level > 0 || (
        !Self::key_spans_lines(s) && !Self::value_off_key_line(s)))
    }

    /// In block context an implicit key must sit on one line, and the
    /// `:` on the line where the key ends; the answer is whether the key
    /// still stands.
    fn vet_simple_key(&mut self, sk: SimpleKey) -> (r: Result<bool, ScanError>)
        requires
            old(self).consistent(),
            old(self).keys_settled(),
            !old(self).stream_ended,
            old(self).simple_keys@.len() > 0,
            old(self).simple_keys@.last() == sk,
            sk.possible,
        ensures
            final(self).consistent(),
            final(self).keys_settled(),
            Self::kept(*old(self), *final(self), false, false, false, false, true, false, false, false),
            final(self).simple_keys@.len() == old(self).simple_keys@.len(),
            final(self).budget() == old(self).budget(),
            final(self).progress() == old(self).progress(),
            r matches Ok(b) ==> (b ==> final(self).simple_keys == old(self).simple_keys),
            r matches Err(e) ==> e.index <= old(self).bytes@.len() && e.index == old(self).pos,
            r is Err <==> Self::key_spans_lines(*old(self)),
            r matches Ok(b) ==> (b <==> !Self::value_off_key_line(*old(self))),
            r matches Ok(b) ==> (!b ==> !final(self).simple_keys@.last().possible),
    {
        proof {
            reveal(Scanner::key_spans_lines);
            reveal(Scanner::value_off_key_line);
        }
        proof {
            self.lemma_facts();
        }
        let nt = self.tokens.len();
        let key_end = if nt > 0 {
            self.tokens[nt - 1].span.end
        } else {
            sk.index
        };
        assert(sk.index <= key_end <= self.pos) by {
            let li = self.simple_keys@.len() - 1;
            assert(self.simple_keys@[li] == sk);
            reveal(keys_fit);
            reveal(keys_queued);
            reveal(spans_within);
            if nt > 0 {
                assert(self.tokens@.last() == self.tokens@[nt - 1]);
                assert(within(self.tokens@[nt - 1].span.start, self.tokens@[nt - 1].span.end, self.pos as int));
            }
        }
        let key_end_trimmed = self.trim_back(sk.index, key_end);
        if self.has_break(sk.index, key_end_trimmed) {
            return Err(self.error("implicit mapping key in block context cannot span multiple lines"));
        }
        if self.has_break(key_end_trimmed, self.pos) {
            self.clear_last_key();
            return Ok(false);
        }
        Ok(true)
    }

    /// Complete the pending simple key `sk`: queue its key marker at its
    /// place and, in block context, open a mapping there.
    #[verifier::rlimit(40)]
    fn complete_simple_key(&mut self, sk: SimpleKey) -> (r: Result<(), ScanError>)
        requires
            old(self).consistent(),
            old(self).keys_settled(),
            old(self).bounded(),
            !old(self).stream_ended,
            old(self).simple_keys@.len() > 0,
            old(self).simple_keys@.last() == sk,
            sk.possible,
        ensures
            r is Ok ==> {
                &&& final(self).consistent()
                &&& final(self).keys_settled()
                &&& final(self).input == old(self).input
                &&& final(self).bytes == old(self).bytes
                &&& final(self).pos == old(self).pos
                &&& final(self).mark == old(self).mark
                &&& final(self).tokens_produced == old(self).tokens_produced
                &&& final(self).tokens_consumed == old(self).tokens_consumed
                &&& final(self).stream_started == old(self).stream_started
                &&& !final(self).stream_ended
                &&& final(self).budget() <= old(self).budget() + 3
                &&& final(self).progress() <= old(self).progress() + 1
            },
            r matches Err(e) ==> e.index <= old(self).bytes@.len(),
            r is Err <==> old(self).flow_level == 0 && old(self).doc_start_inline,
            r is Ok ==> {
                &&& final(self).tokens@ == Self::keyed_tokens(*old(self), sk)
                &&& !final(self).simple_key_allowed
                &&& final(self).simple_keys@.len() == old(self).simple_keys@.len()
                &&& !final(self).simple_keys@.last().possible
            },
    {
        proof {
            reveal(Scanner::keyed_tokens);
        }
        proof {
            self.lemma_facts();
        }
        assert(self.tokens_produced <= sk.token_number < self.tokens_produced + self.queued()
            && sk.index <= self.pos) by {
            let li = self.simple_keys@.len() - 1;
            assert(self.simple_keys@[li] == sk);
            reveal(keys_fit);
            reveal(keys_queued);
        }
        let q = self.tokens.len();
        assert(sk.token_number - self.tokens_produced < q);
        let idx = (sk.token_number - self.tokens_produced) as usize;
        let span = Span { start: sk.index, end: sk.index };
        self.insert_token(idx, TokenKind::Key, span);
        if self.flow_level == 0 {
            self.reject_block_inline_with_doc_start("':'")?;
            let c = self.column_of(sk.index);
            let col = c as isize;
            assert(col == sk.index - line_start(self.bytes@, sk.index as int));
            self.roll_indent(col, Some(sk.token_number), TokenKind::BlockMappingStart, sk.index);
        }
        self.clear_last_key();
        self.simple_key_allowed = false;
        Ok(())
    }

    /// A `:` with no simple key pending: in block context it opens a
    /// mapping where it stands, where a key is allowed.
    fn complex_value(&mut self) -> (r: Result<(), ScanError>)
        requires
            old(self).consistent(),
            old(self).keys_settled(),
        ensures
            r is Ok ==> {
                &&& final(self).consistent()
                &&& final(self).keys_settled()
                &&& Self::kept(*old(self), *final(self), false, false, true, true, false, true, false, true)
                &&& final(self).budget() <= old(self).budget() + 2
                &&& final(self).progress() <= old(self).progress() + 1
            },
            r matches Err(e) ==> e.index <= old(self).bytes@.len(),
            r is Err <==> old(self).flow_level == 0 && !old(self).simple_key_allowed && !old(self).explicit_key_pending,
            r is Ok ==> final(self).simple_key_allowed == (old(self).flow_level == 0)
                && final(self).tokens@ == Self::complex_tokens(*old(self)),
    {
        proof {
            reveal(Scanner::complex_tokens);
        }
        proof {
            self.lemma_facts();
        }
        if self.flow_level == 0 && !self.simple_key_allowed && !self.explicit_key_pending {
            return Err(self.error("mapping values are not allowed in this context"));
        }
        if self.flow_level == 0 {
            let col = self.col as isize;
            self.roll_indent(col, None, TokenKind::BlockMappingStart, self.pos);
        }
        self.simple_key_allowed = self.flow_level == 0;
        Ok(())
    }

    /// Queue what a `:` completes: the pending simple key's marker and
    /// mapping start, or a mapping start where the `:` stands.
    #[verifier::rlimit(100)]
    #[verifier::spinoff_prover]
    fn prepare_value(&mut self) -> (r: Result<(), ScanError>)
        requires
            old(self).wf(),
            !old(self).stream_ended,
        ensures
            r is Ok ==> {
                &&& final(self).consistent()
                &&& final(self).keys_settled()
                &&& final(self).input == old(self).input
                &&& final(self).bytes == old(self).bytes
                &&& final(self).pos == old(self).pos
                &&& final(self).mark == old(self).mark
                &&& final(self).tokens_produced == old(self).tokens_produced
                &&& final(self).tokens_consumed == old(self).tokens_consumed
                &&& final(self).stream_started == old(self).stream_started
                &&& !final(self).stream_ended
                &&& final(self).budget() <= old(self).budget() + 3
                &&& final(self).progress() <= old(self).progress() + 1
            },
            r matches Err(e) ==> e.index <= old(self).bytes@.len(),
            r is Err <==> Self::key_broken(*old(self)) || (Self::key_kept(*old(self)) && old(self).flow_level == 0 && old(self).doc_start_inline) || (!Self::key_broken(*old(self))
                && !Self::key_kept(*old(self)) && old(self).flow_level == 0
                && !old(self).simple_key_allowed && !old(self).explicit_key_pending),
            r is Ok ==> final(self).tokens@ == if Self::key_kept(*old(self)) {
                Self::keyed_tokens(*old(self), old(self).simple_keys@.last())
            } else {
                Self::complex_tokens(*old(self))
            },
            r is Ok ==> final(self).simple_key_allowed == (!Self::key_kept(*old(self)) && old(self).flow_level == 0),
    {
        proof {
            reveal(Scanner::keyed_tokens);
            reveal(Scanner::complex_tokens);
        }
        let k = self.simple_keys.len();
        if k > 0 {
            let sk = self.simple_keys[k - 1];
            proof {
                assert(self.simple_keys@.last() == sk);
            }
            let mut possible = sk.possible;
            if sk.possible && self.flow_level == 0 {
                possible = self.vet_simple_key(sk)?;
            }
            if possible {
                return self.complete_simple_key(sk);
            }
        }
        self.complex_value()
    }

    /// `:` closing a key: completes a pending simple key (queueing its
    /// key marker and, in block context, opening a mapping) or stands as
    /// a complex value.
    fn fetch_value(&mut self) -> (r: Result<(), ScanError>)
        requires
            old(self).bytes@[old(self).pos as int] < 0x80,
            old(self).wf(),
            !old(self).stream_ended,
            old(self).pos < old(self).bytes@.len(),
        ensures
            r is Ok ==> Self::fetched(*old(self), *final(self)),
            r matches Err(e) ==> e.index <= old(self).bytes@.len(),
            r is Ok ==> final(self).tokens@ == (if Self::key_kept(*old(self)) {
                Self::keyed_tokens(*old(self), old(self).simple_keys@.last())
            } else {
                Self::complex_tokens(*old(self))
            }).push(
                Token {
                    kind: TokenKind::Value,
                    span: Span { start: old(self).pos, end: (old(self).pos + 1) as usize },
                },
            ),
    {
        self.prepare_value()?;
        self.explicit_key_pending = false;
        self.set_mark();
        self.advance();
        proof {
            self.lemma_after_step();
        }
        self.reject_tab_indent_after_indicator("':'")?;
        self.emit(TokenKind::Value);
        self.last_token_opens_block = true;
        Ok(())
    }

    /// `&name`.
    fn fetch_anchor(&mut self) -> (r: Result<(), ScanError>)
        requires
            old(self).wf(),
            old(self).pos < old(self).bytes@.len(),
            old(self).bytes@[old(self).pos as int] < 0x80,
        ensures
            r is Ok ==> Self::fetched(*old(self), *final(self)),
            r matches Err(e) ==> e.index <= old(self).bytes@.len(),
    {
        self.save_simple_key_ext(false);
        self.simple_key_allowed = false;
        self.set_mark();
        self.advance();
        let name = self.scan_anchor_name()?;
        self.emit(TokenKind::Anchor(owned_string(name)));
        Ok(())
    }

    /// `*name`; an alias is a whole node, so nothing may decorate it.
    fn fetch_alias(&mut self) -> (r: Result<(), ScanError>)
        requires
            old(self).wf(),
            old(self).pos < old(self).bytes@.len(),
            old(self).bytes@[old(self).pos as int] < 0x80,
        ensures
            r is Ok ==> Self::fetched(*old(self), *final(self)),
            r matches Err(e) ==> e.index <= old(self).bytes@.len(),
    {
        if self.last_emitted_kind == LastEmitted::Anchor || self.last_emitted_kind
            == LastEmitted::Tag {
            return Err(
                self.error(
                    "alias cannot be decorated with an anchor or tag — aliases are complete references",
                ),
            );
        }
        self.save_simple_key_ext(false);
        self.simple_key_allowed = false;
        self.set_mark();
        self.advance();
        let name = self.scan_anchor_name()?;
        self.emit(TokenKind::Alias(owned_string(name)));
        self.last_token_opens_block = false;
        Ok(())
    }

    /// `!suffix`, `!!suffix` or `!<uri>`.
    fn fetch_tag(&mut self) -> (r: Result<(), ScanError>)
        requires
            old(self).wf(),
            old(self).pos < old(self).bytes@.len(),
            old(self).bytes@[old(self).pos as int] < 0x80,
        ensures
            r is Ok ==> Self::fetched(*old(self), *final(self)),
            r matches Err(e) ==> e.index <= old(self).bytes@.len(),
    {
        self.save_simple_key_ext(false);
        self.simple_key_allowed = false;
        self.set_mark();
        proof {
            self.lemma_facts();
            self.lemma_ascii_bounds(self.pos as int);
        }
        self.advance();
        let handle;
        let suffix;
        if self.peek() == 0x3c {
            handle = "!";
            proof {
                self.lemma_ascii_bounds(self.pos as int);
            }
            self.advance();
            suffix = self.scan_tag_text(true, "tag URI")?;
            if self.peek() == 0x3e {
                self.advance();
                proof {
                    self.lemma_after_step();
                }
            }
        } else if self.peek() == 0x21 {
            handle = "!!";
            proof {
                self.lemma_ascii_bounds(self.pos as int);
            }
            self.advance();
            suffix = self.scan_tag_text(false, "tag suffix")?;
        } else {
            handle = "!";
            proof {
                self.lemma_after_step();
            }
            suffix = self.scan_tag_text(false, "tag suffix")?;
        }
        if flow_indicator(self.peek()) {
            return Err(
                self.error("tag must be followed by whitespace or a line break, not a flow indicator"),
            );
        }
        self.emit(TokenKind::Tag(owned_string(handle), owned_string(suffix)));
        Ok(())
    }

    /// The directive's name is `YAML`.
    fn is_yaml_name(&self, start: usize, end: usize) -> (r: bool)
        requires
            self.consistent(),
            start <= end <= self.bytes@.len(),
        ensures
            r == (end - start == 4 && self.bytes@[start as int] == 0x59 && self.bytes@[start + 1]
                == 0x41 && self.bytes@[start + 2] == 0x4d && self.bytes@[start + 3] == 0x4c),
    {
        end - start == 4 && self.bytes[start] == 0x59 && self.bytes[start + 1] == 0x41
            && self.bytes[start + 2] == 0x4d && self.bytes[start + 3] == 0x4c
    }

    /// The rest of a `%YAML` line: one per document, and a version
    /// that is not followed by a word.
    fn yaml_version(&mut self) -> (r: Result<(), ScanError>)
        requires
            old(self).consistent(),
        ensures
            final(self).consistent(),
            old(self).keys_settled() ==> final(self).keys_settled(),
            Self::kept(*old(self), *final(self), true, false, false, false, false, false, false, true),
            final(self).pos >= old(self).pos,
            final(self).budget() == old(self).budget() - 4 * (final(self).pos - old(self).pos),
            final(self).progress() == old(self).progress() - 5 * (final(self).pos - old(self).pos),
            r matches Err(e) ==> e.index <= old(self).bytes@.len(),
            old(self).yaml_directive_seen ==> r is Err && final(self).pos == old(self).pos,
            final(self).yaml_directive_seen,
            !old(self).yaml_directive_seen ==> {
                let c = byte_at(final(self).bytes@, final(self).pos as int);
                &&& !is_blank(c)
                &&& r is Err <==> final(self).pos < final(self).bytes@.len() && !is_break(c) && c != HASH
                    && !(0x30 <= c <= 0x39) && c != DOT
            },
    {
        if self.yaml_directive_seen {
            return Err(self.error("duplicate %YAML directive (at most one allowed per document)"));
        }
        self.yaml_directive_seen = true;
        self.skip_blank();
        self.skip_word();
        self.skip_blank();
        let c = self.peek();
        if !self.is_eof() && !line_break(c) && c != HASH {
            if !(0x30 <= c && c <= 0x39) && c != DOT {
                return Err(self.error("unexpected non-numeric argument on %YAML directive"));
            }
        }
        Ok(())
    }

    /// The end of a directive line: a trailing comment needs a blank
    /// before it; the line is skipped and recorded.
    fn finish_directive(&mut self, directive_start: usize) -> (r: Result<(), ScanError>)
        requires
            old(self).consistent(),
            directive_start <= old(self).pos,
        ensures
            r is Ok ==> final(self).at_char(),
            final(self).consistent(),
            old(self).keys_settled() ==> final(self).keys_settled(),
            Self::kept(*old(self), *final(self), true, false, false, false, false, false, true, false),
            final(self).pos >= old(self).pos,
            final(self).budget() == old(self).budget() - 4 * (final(self).pos - old(self).pos),
            final(self).progress() == old(self).progress() - 5 * (final(self).pos - old(self).pos),
            r matches Err(e) ==> e.index <= old(self).bytes@.len(),
    {
        proof {
            self.lemma_facts();
        }
        if self.peek() == HASH && self.pos > 0 && !blank_or_break(self.bytes[self.pos - 1]) {
            return Err(
                self.error(
                    "comment indicator '#' on a directive line must be preceded by a space or tab",
                ),
            );
        }
        self.skip_rest_of_line();
        if self.recording {
            self.record_trivia(directive_start, self.pos, TriviaKind::Directive);
        }
        Ok(())
    }

    /// Step to the next line break, or to the end of the input (leaving
    /// the column as it is) when none follows.
    fn skip_rest_of_line(&mut self)
        requires
            old(self).consistent(),
        ensures
            final(self).consistent(),
            old(self).keys_settled() ==> final(self).keys_settled(),
            Self::kept(*old(self), *final(self), true, false, false, false, false, false, false, false),
            final(self).pos >= old(self).pos,
            final(self).budget() == old(self).budget() - 4 * (final(self).pos - old(self).pos),
            final(self).progress() == old(self).progress() - 5 * (final(self).pos - old(self).pos),
            final(self).at_char(),
    {
        proof {
            self.lemma_facts();
        }
        let e = self.line_end_from(self.pos);
        if e < self.bytes.len() {
            self.advance_by(e - self.pos);
        } else {
            self.jump_to_end();
        }
    }

    /// A `%` directive line: checked, recorded as trivia, and owed a
    /// `---`.
    fn fetch_directive(&mut self) -> (r: Result<(), ScanError>)
        requires
            old(self).wf(),
            old(self).pos < old(self).bytes@.len(),
        ensures
            r is Ok ==> Self::fetched(*old(self), *final(self)),
            r matches Err(e) ==> e.index <= old(self).bytes@.len(),
    {
        if self.in_document_body {
            return Err(self.error("directive must be preceded by '...' to close the previous document"));
        }
        self.unroll_indent(-1);
        self.remove_simple_key()?;
        self.simple_key_allowed = false;
        self.pending_directive_needs_doc_start = true;
        let directive_start = self.pos;
        self.advance();
        let name_start = self.pos;
        self.skip_word();
        if self.is_yaml_name(name_start, self.pos) {
            self.yaml_version()?;
        }
        self.finish_directive(directive_start)
    }

    /// Move to the end of the input, leaving the column as it is.
    fn jump_to_end(&mut self)
        requires
            old(self).consistent(),
        ensures
            final(self).consistent(),
            old(self).keys_settled() ==> final(self).keys_settled(),
            Self::kept(*old(self), *final(self), true, false, false, false, false, false, false, false),
            final(self).pos == final(self).bytes@.len(),
            final(self).budget() == old(self).budget() - 4 * (final(self).pos - old(self).pos),
            final(self).progress() == old(self).progress() - 5 * (final(self).pos - old(self).pos),
    {
        proof {
            self.lemma_facts();
        }
        let ghost a = *self;
        self.pos = self.bytes.len();
        proof {
            Self::lemma_moved(a, *self);
        }
    }

    /// The input as text and bytes.
    fn src(&self) -> (r: Source<'a>)
        requires
            self.consistent(),
        ensures
            r.wf(),
            r.text == self.input,
            r.bytes@ == self.bytes@,
    {
        proof {
            self.lemma_facts();
        }
        Source { text: self.input, bytes: self.bytes }
    }

    /// The name after `&` or `*`: up to a blank, a break or a flow
    /// indicator, at most 1024 bytes, not empty.
    fn scan_anchor_name(&mut self) -> (r: Result<&'a str, ScanError>)
        requires
            old(self).consistent(),
            old(self).pos > 0,
            old(self).bytes@[old(self).pos - 1] < 0x80,
        ensures
            final(self).consistent(),
            old(self).keys_settled() ==> final(self).keys_settled(),
            Self::kept(*old(self), *final(self), true, false, false, false, false, false, false, false),
            final(self).pos >= old(self).pos,
            final(self).budget() == old(self).budget() - 4 * (final(self).pos - old(self).pos),
            final(self).progress() == old(self).progress() - 5 * (final(self).pos - old(self).pos),
            r matches Ok(name) ==> name.spec_bytes() == old(self).bytes@.subrange(
                old(self).pos as int,
                final(self).pos as int,
            ) && final(self).pos > old(self).pos && final(self).at_char(),
            r matches Err(e) ==> e.index <= old(self).bytes@.len(),
    {
        proof {
            self.lemma_facts();
            self.lemma_ascii_bounds((self.pos - 1) as int);
        }
        let src = self.src();
        let start = self.pos;
        let (e, _) = src.run_end(start, 1024, false);
        if e - start > 1024 && e < self.bytes.len() {
            return Err(ScanError { message: owned_string("anchor name exceeds maximum length of 1024 bytes"), index: e });
        }
        if e == start {
            return Err(self.error("expected anchor or alias name"));
        }
        proof {
            if e < self.bytes@.len() {
                self.lemma_ascii_bounds(e as int);
            }
        }
        let name = src.slice(start, e);
        self.advance_by(e - start);
        Ok(name)
    }

    /// Step over bytes that are neither blank, break nor `#`.
    fn skip_word(&mut self)
        requires
            old(self).consistent(),
        ensures
            final(self).consistent(),
            old(self).keys_settled() ==> final(self).keys_settled(),
            Self::kept(*old(self), *final(self), true, false, false, false, false, false, false, false),
            final(self).pos >= old(self).pos,
            final(self).budget() == old(self).budget() - 4 * (final(self).pos - old(self).pos),
            final(self).progress() == old(self).progress() - 5 * (final(self).pos - old(self).pos),
            final(self).pos == final(self).bytes@.len() || is_blank(final(self).bytes@[final(self).pos as int])
                || is_break(final(self).bytes@[final(self).pos as int]) || final(self).bytes@[final(self).pos as int] == HASH,
            forall|i: int|
                old(self).pos <= i < final(self).pos ==> !(is_blank(#[trigger] final(self).bytes@[i])
                    || is_break(final(self).bytes@[i]) || final(self).bytes@[i] == HASH),
    {
        proof {
            self.lemma_facts();
        }
        let src = self.src();
        let e = src.word_end(self.pos);
        self.advance_by(e - self.pos);
    }

    /// A tag's text from the position: up to `>` when `verbatim`, else
    /// up to a blank, a break or a flow indicator; an error past 1024
    /// bytes.
    fn scan_tag_text(&mut self, verbatim: bool, what: &str) -> (r: Result<&'a str, ScanError>)
        requires
            old(self).consistent(),
            old(self).at_char(),
        ensures
            final(self).consistent(),
            old(self).keys_settled() ==> final(self).keys_settled(),
            Self::kept(*old(self), *final(self), true, false, false, false, false, false, false, false),
            final(self).pos >= old(self).pos,
            final(self).budget() == old(self).budget() - 4 * (final(self).pos - old(self).pos),
            final(self).progress() == old(self).progress() - 5 * (final(self).pos - old(self).pos),
            r is Ok ==> final(self).at_char(),
            r matches Err(e) ==> e.index <= old(self).bytes@.len(),
            r matches Ok(text) ==> {
                &&& text.spec_bytes() == old(self).bytes@.subrange(old(self).pos as int, final(self).pos as int)
                &&& final(self).pos - old(self).pos <= 1025
                &&& final(self).pos == final(self).bytes@.len() || Source::run_stops(
                    final(self).bytes@[final(self).pos as int],
                    verbatim,
                )
                &&& forall|i: int|
                    old(self).pos <= i < final(self).pos ==> !Source::run_stops(
                        #[trigger] final(self).bytes@[i],
                        verbatim,
                    )
            },
            r matches Err(e) ==> {
                &&& final(self).pos == old(self).pos
                &&& e.index == old(self).pos + 1025
                &&& e.index < old(self).bytes@.len()
                &&& forall|i: int|
                    old(self).pos <= i <= e.index ==> !Source::run_stops(
                        #[trigger] old(self).bytes@[i],
                        verbatim,
                    )
            },
    {
        proof {
            self.lemma_facts();
        }
        let src = self.src();
        let start = self.pos;
        let (e, over) = src.run_end(start, 1024, verbatim);
        if over {
            return Err(ScanError { message: Self::message(what, " exceeds maximum length of 1024 bytes"), index: e });
        }
        proof {
            if e < self.bytes@.len() {
                self.lemma_ascii_bounds(e as int);
            }
        }
        let text = src.slice(start, e);
        self.advance_by(e - start);
        Ok(text)
    }

    /// Emit the one-line plain scalar of `len` bytes at the position.
    fn emit_one_line_plain(&mut self, len: usize)
        requires
            old(self).consistent(),
            old(self).bounded(),
            old(self).at_char(),
            old(self).mark == old(self).pos,
            len > 0,
            old(self).pos + len <= old(self).bytes@.len(),
            old(self).pos + len == old(self).bytes@.len() || old(self).bytes@[old(self).pos + len]
                < 0x80,
        ensures
            final(self).consistent(),
            final(self).keys_settled(),
            final(self).bounded(),
            final(self).at_char(),
            final(self).input == old(self).input,
            final(self).bytes == old(self).bytes,
            final(self).tokens_produced == old(self).tokens_produced,
            final(self).tokens_consumed == old(self).tokens_consumed,
            final(self).budget() <= old(self).budget(),
            final(self).progress() < old(self).progress(),
    {
        proof {
            self.lemma_facts();
            if self.pos + len < self.bytes@.len() {
                self.lemma_ascii_bounds((self.pos + len) as int);
            }
        }
        let s = owned_string(self.slice_str(self.pos, self.pos + len));
        self.advance_by(len);
        self.emit(TokenKind::Scalar(ScalarStyle::Plain, s));
        self.last_token_opens_block = false;
    }

    /// A plain scalar: one line read straight from the input, or several
    /// folded together.
    fn fetch_plain_scalar(&mut self) -> (r: Result<(), ScanError>)
        requires
            old(self).wf(),
        ensures
            r is Ok ==> Self::fetched(*old(self), *final(self)),
            r matches Err(e) ==> e.index <= old(self).bytes@.len(),
    {
        self.save_simple_key_ext(false);
        self.simple_key_allowed = false;
        self.set_mark();
        proof {
            self.lemma_facts();
        }
        let src = self.src();
        let in_flow = self.flow_level > 0;
        let (single, len) = src.plain_fast_len(self.pos, in_flow);
        if single && len > 0 {
            self.emit_one_line_plain(len);
            return Ok(());
        }
        self.emit_multiline_plain()
    }

    /// The plain scalar across lines at the position.
    fn read_plain(&self) -> (r: PlainScan)
        requires
            self.consistent(),
            self.at_char(),
        ensures
            self.pos <= r.end <= self.bytes@.len(),
            starts_char(self.bytes@, r.end as int),
            r.nonempty ==> r.end > self.pos,
    {
        proof {
            self.lemma_facts();
        }
        let src = self.src();
        src.plain_multiline(self.pos, self.col, self.flow_level > 0, self.indent)
    }

    /// Read a plain scalar across lines and emit it.
    fn emit_multiline_plain(&mut self) -> (r: Result<(), ScanError>)
        requires
            old(self).consistent(),
            old(self).bounded(),
            old(self).at_char(),
            old(self).mark == old(self).pos,
        ensures
            r is Ok ==> {
                &&& final(self).consistent()
                &&& final(self).keys_settled()
                &&& final(self).bounded()
                &&& final(self).at_char()
                &&& final(self).input == old(self).input
                &&& final(self).bytes == old(self).bytes
                &&& final(self).tokens_produced == old(self).tokens_produced
                &&& final(self).tokens_consumed == old(self).tokens_consumed
                &&& final(self).budget() <= old(self).budget()
                &&& final(self).progress() < old(self).progress()
            },
            r matches Err(e) ==> e.index <= old(self).bytes@.len(),
    {
        let scan = self.read_plain();
        self.advance_by(scan.end - self.pos);
        if !scan.nonempty {
            return Err(self.error("unexpected character in YAML stream"));
        }
        let allow = self.flow_level == 0 && scan.leading_blanks;
        self.emit(TokenKind::Scalar(ScalarStyle::Plain, scan.text));
        self.last_token_opens_block = false;
        self.simple_key_allowed = self.simple_key_allowed || allow;
        Ok(())
    }

    /// The quoted scalar whose opening quote is at the position.
    fn read_quoted(&self, double: bool) -> (r: Result<QuotedScan, ScanError>)
        requires
            self.consistent(),
            self.pos < self.bytes@.len(),
            self.bytes@[self.pos as int] < 0x80,
        ensures
            r matches Ok(q) ==> self.pos < q.end <= self.bytes@.len() && starts_char(self.bytes@, q.end as int),
            r matches Err(e) ==> e.index <= self.bytes@.len(),
    {
        proof {
            self.lemma_facts();
        }
        let src = self.src();
        if double {
            src.double_quoted(self.pos, self.col, self.flow_level > 0, self.indent)
        } else {
            src.single_quoted(self.pos, self.col, self.flow_level > 0, self.indent)
        }
    }

    /// The block scalar whose indicator is at the position.
    fn read_block(&self, literal: bool) -> (r: Result<QuotedScan, ScanError>)
        requires
            self.consistent(),
            self.pos < self.bytes@.len(),
            self.bytes@[self.pos as int] < 0x80,
        ensures
            r matches Ok(q) ==> self.pos < q.end <= self.bytes@.len() && starts_char(self.bytes@, q.end as int),
            r matches Err(e) ==> e.index <= self.bytes@.len(),
    {
        proof {
            self.lemma_facts();
        }
        let src = self.src();
        src.block_scalar(self.pos, self.col, self.indent, literal)
    }

    /// A single- or double-quoted scalar.
    fn fetch_quoted_scalar(&mut self, double: bool) -> (r: Result<(), ScanError>)
        requires
            old(self).wf(),
            old(self).pos < old(self).bytes@.len(),
            old(self).bytes@[old(self).pos as int] < 0x80,
        ensures
            r is Ok ==> Self::fetched(*old(self), *final(self)),
            r matches Err(e) ==> e.index <= old(self).bytes@.len(),
    {
        self.save_simple_key_ext(true);
        self.simple_key_allowed = false;
        self.set_mark();
        let q = self.read_quoted(double)?;
        self.advance_by(q.end - self.pos);
        let style = if double {
            ScalarStyle::DoubleQuoted
        } else {
            ScalarStyle::SingleQuoted
        };
        self.emit(TokenKind::Scalar(style, q.text));
        self.last_token_opens_block = false;
        self.adjacent_value_allowed = self.adjacent_value_allowed || self.flow_level > 0;
        Ok(())
    }

    /// A literal (`|`) or folded (`>`) block scalar.
    fn fetch_block_scalar(&mut self, literal: bool) -> (r: Result<(), ScanError>)
        requires
            old(self).wf(),
            old(self).pos < old(self).bytes@.len(),
            old(self).bytes@[old(self).pos as int] < 0x80,
        ensures
            r is Ok ==> Self::fetched(*old(self), *final(self)),
            r matches Err(e) ==> e.index <= old(self).bytes@.len(),
    {
        self.remove_simple_key()?;
        self.simple_key_allowed = true;
        self.set_mark();
        let q = self.read_block(literal)?;
        self.advance_by(q.end - self.pos);
        let style = if literal {
            ScalarStyle::Literal
        } else {
            ScalarStyle::Folded
        };
        self.emit(TokenKind::Scalar(style, q.text));
        self.last_token_opens_block = false;
        Ok(())
    }

    /// The byte after the position ends an indicator: a blank, a break,
    /// or in flow context `,`, `]` or `}`.
    fn indicator_ends(&self) -> (r: bool)
        requires
            self.consistent(),
        ensures
            r == ({
                let next = byte_at(self.bytes@, self.pos + 1);
                is_blank(next) || is_break(next) || (self.flow_level > 0 && (next == COMMA || next
                    == RBRACKET || next == RBRACE))
            }),
    {
        let next = self.peek_at(1);
        blank_or_break(next) || (self.flow_level > 0 && (next == COMMA || next == RBRACKET
            || next == RBRACE))
    }

    /// Whether the innermost simple key is a pending JSON-like key.
    fn json_key_pending(&self) -> (r: bool)
        ensures
            r == (self.simple_keys@.len() > 0 && self.simple_keys@.last().possible
                && self.simple_keys@.last().json_like),
    {
        let k = self.simple_keys.len();
        k > 0 && self.simple_keys[k - 1].possible && self.simple_keys[k - 1].json_like
    }

    /// Fetch the token the byte at the position starts.
    fn dispatch(&mut self, adjacent_value: bool) -> (r: Result<(), ScanError>)
        requires
            old(self).wf(),
            !old(self).stream_ended,
            old(self).pos < old(self).bytes@.len(),
            old(self).mark == old(self).pos,
        ensures
            r is Ok ==> Self::fetched(*old(self), *final(self)),
            r matches Err(e) ==> e.index <= old(self).bytes@.len(),
    {
        let c = self.peek();
        if self.col == 0 && self.peek_at(1) == c && self.peek_at(2) == c && (c == DASH || c == DOT) {
            let n = self.bytes.len();
            if self.pos + 3 >= n || blank_or_break(self.peek_at(3)) {
                return self.fetch_document_indicator(c == DASH);
            }
        }
        if c == LBRACKET {
            self.fetch_flow_collection_start(true)
        } else if c == LBRACE {
            self.fetch_flow_collection_start(false)
        } else if c == RBRACKET {
            self.fetch_flow_collection_end(true)
        } else if c == RBRACE {
            self.fetch_flow_collection_end(false)
        } else if c == COMMA {
            self.fetch_flow_entry()
        } else if c == DASH && self.indicator_ends() {
            self.fetch_block_entry()
        } else if c == 0x3f && self.indicator_ends() {
            self.fetch_key()
        } else if c == COLON && (self.indicator_ends() || (self.flow_level > 0 && adjacent_value)
            || (self.flow_level > 0 && self.json_key_pending())) {
            self.fetch_value()
        } else if c == 0x2a {
            self.fetch_alias()
        } else if c == 0x26 {
            self.fetch_anchor()
        } else if c == 0x21 {
            self.fetch_tag()
        } else if c == 0x7c && self.flow_level == 0 {
            self.fetch_block_scalar(true)
        } else if c == 0x3e && self.flow_level == 0 {
            self.fetch_block_scalar(false)
        } else if c == 0x27 {
            self.fetch_quoted_scalar(false)
        } else if c == 0x22 {
            self.fetch_quoted_scalar(true)
        } else if c == 0x25 && self.col == 0 {
            self.fetch_directive()
        } else if c == 0xEF && self.pos == 0 && self.peek_at(1) == 0xBB && self.peek_at(2) == 0xBF {
            self.skip_bom()
        } else {
            self.fetch_plain_scalar()
        }
    }

    /// Step over a byte-order mark met at the start of a token.
    fn skip_bom(&mut self) -> (r: Result<(), ScanError>)
        requires
            old(self).wf(),
            old(self).pos + 3 <= old(self).bytes@.len(),
            old(self).bytes@[old(self).pos as int] == 0xEF,
        ensures
            r is Ok,
            Self::fetched(*old(self), *final(self)),
    {
        proof {
            self.lemma_valid();
            lemma_after_lead3(self.bytes@, self.pos as int);
        }
        self.advance_by(3);
        Ok(())
    }

    /// Skip to the next token, close the blocks it falls outside of, and
    /// check its indentation; the answer tells whether a `:` here would
    /// sit right against a JSON-like key.
    fn prepare_fetch(&mut self) -> (r: Result<bool, ScanError>)
        requires
            old(self).wf(),
            old(self).stream_started,
            !old(self).stream_ended,
        ensures
            r is Ok ==> {
                &&& final(self).wf()
                &&& final(self).stream_started
                &&& !final(self).stream_ended
                &&& final(self).mark == final(self).pos
                &&& final(self).input == old(self).input
                &&& final(self).bytes == old(self).bytes
                &&& final(self).tokens_produced == old(self).tokens_produced
                &&& final(self).tokens_consumed == old(self).tokens_consumed
                &&& final(self).budget() <= old(self).budget()
                &&& final(self).progress() <= old(self).progress()
            },
            r matches Err(e) ==> e.index <= old(self).bytes@.len(),
    {
        let pos_before = self.pos;
        let adj = self.adjacent_value_allowed;
        self.adjacent_value_allowed = false;
        self.skip_to_next_token()?;
        let adjacent_value = adj && self.pos == pos_before;
        proof {
            self.lemma_facts();
        }
        self.unroll_indent(self.col as isize);
        proof {
            self.lemma_facts();
        }
        if self.flow_level == 0 && self.indent >= 0 && (self.col as isize) > self.indent
            && !self.last_token_opens_block && self.simple_key_allowed && !self.is_eof() {
            return Err(
                self.error(
                    "inconsistent indentation: token at a column that does not match any open block scope",
                ),
            );
        }
        self.set_mark();
        Ok(adjacent_value)
    }

    /// Fetch one more token (or a few: closing blocks, and a key's
    /// markers, may come with it).
    fn fetch_next_token(&mut self) -> (r: Result<(), ScanError>)
        requires
            old(self).wf(),
            !old(self).stream_ended,
        ensures
            r is Ok ==> Self::fetched(*old(self), *final(self)),
            r matches Err(e) ==> e.index <= old(self).bytes@.len(),
            old(self).fresh() ==> r is Ok && final(self).just_opened(),
    {
        if !self.stream_started {
            return self.fetch_stream_start();
        }
        let adjacent_value = self.prepare_fetch()?;
        if self.is_eof() {
            return self.fetch_stream_end();
        }
        self.dispatch(adjacent_value)
    }

    /// More tokens must be fetched before the next can be handed out:
    /// none is queued, or the next queued one may yet get a key marker
    /// in front of it.
    fn needs_more_tokens(&self) -> (r: bool)
        requires
            self.consistent(),
        ensures
            !r ==> self.stream_ended || (self.tokens_consumed < self.tokens@.len() && forall|i: int|
                0 <= i < self.simple_keys@.len() && (#[trigger] self.simple_keys@[i]).possible
                    ==> self.simple_keys@[i].token_number != self.tokens_produced),
            r ==> !self.stream_ended,
            r ==> self.tokens_consumed >= self.tokens@.len() || exists|i: int|
                0 <= i < self.simple_keys@.len() && (#[trigger] self.simple_keys@[i]).possible
                    && self.simple_keys@[i].token_number == self.tokens_produced,
    {
        if self.stream_ended {
            return false;
        }
        if self.tokens_consumed >= self.tokens.len() {
            return true;
        }
        let mut i: usize = 0;
        while i < self.simple_keys.len()
            invariant
                i <= self.simple_keys@.len(),
                !self.stream_ended,
                self.tokens_consumed < self.tokens@.len(),
                forall|j: int|
                    0 <= j < i && (#[trigger] self.simple_keys@[j]).possible
                        ==> self.simple_keys@[j].token_number != self.tokens_produced,
            decreases self.simple_keys@.len() - i,
        {
            let sk = self.simple_keys[i];
            if sk.possible && sk.token_number == self.tokens_produced {
                return true;
            }
            i = i + 1;
        }
        false
    }

    /// The kind a token is recorded under for the tree builder, if it
    /// covers source bytes.
    fn recorded_kind(kind: &TokenKind) -> (r: Option<RecordedTokenKind>)
        ensures
            r == recorded_kind_of(*kind),
    {
        match kind {
            TokenKind::DocumentStart => Some(RecordedTokenKind::DocStart),
            TokenKind::DocumentEnd => Some(RecordedTokenKind::DocEnd),
            TokenKind::BlockEntry => Some(RecordedTokenKind::DashIndicator),
            TokenKind::FlowEntry => Some(RecordedTokenKind::Comma),
            TokenKind::Key => Some(RecordedTokenKind::QuestionIndicator),
            TokenKind::Value => Some(RecordedTokenKind::ColonIndicator),
            TokenKind::FlowSequenceStart => Some(RecordedTokenKind::OpenBracket),
            TokenKind::FlowSequenceEnd => Some(RecordedTokenKind::CloseBracket),
            TokenKind::FlowMappingStart => Some(RecordedTokenKind::OpenBrace),
            TokenKind::FlowMappingEnd => Some(RecordedTokenKind::CloseBrace),
            TokenKind::Anchor(_) => Some(RecordedTokenKind::AnchorMark),
            TokenKind::Alias(_) => Some(RecordedTokenKind::AliasMark),
            TokenKind::Tag(_, _) => Some(RecordedTokenKind::TagMark),
            TokenKind::Scalar(style, _) => Some(
                match style {
                    ScalarStyle::Plain => RecordedTokenKind::PlainScalar,
                    ScalarStyle::SingleQuoted => RecordedTokenKind::SingleQuotedScalar,
                    ScalarStyle::DoubleQuoted => RecordedTokenKind::DoubleQuotedScalar,
                    ScalarStyle::Literal => RecordedTokenKind::LiteralScalar,
                    ScalarStyle::Folded => RecordedTokenKind::FoldedScalar,
                },
            ),
            _ => None,
        }
    }

    /// Hand out the next queued token, recording it when asked.
    fn take_token(&mut self) -> (t: Token)
        requires
            old(self).wf(),
            old(self).tokens_consumed < old(self).tokens@.len(),
            old(self).stream_ended || forall|i: int|
                0 <= i < old(self).simple_keys@.len() && (#[trigger] old(self).simple_keys@[i]).possible
                    ==> old(self).simple_keys@[i].token_number != old(self).tokens_produced,
        ensures
            final(self).wf(),
            final(self).input == old(self).input,
            final(self).bytes == old(self).bytes,
            final(self).handed_out() == old(self).handed_out() + 1,
            final(self).budget() == old(self).budget() - 1,
            t.span.start <= t.span.end <= old(self).bytes@.len(),
            t == old(self).tokens@[old(self).tokens_consumed as int],
    {
        proof {
            reveal(spans_within);
            self.lemma_facts();
        }
        let t = self.tokens[self.tokens_consumed].clone();
        assert(within(t.span.start, t.span.end, self.pos as int));
        if self.recording && t.span.end > t.span.start {
            match Self::recorded_kind(&t.kind) {
                Some(kind) => {
                    let x = RecordedToken { start: t.span.start, end: t.span.end, kind };
                    proof {
                        lemma_records_token(
                            self.trivia@,
                            self.recorded_tokens@,
                            self.comments@,
                            x,
                            self.pos as int,
                        );
                    }
                    self.recorded_tokens.push(x);
                },
                None => {},
            }
        }
        let ghost before = *self;
        assert(self.tokens_consumed < self.tokens.len());
        self.tokens_consumed = self.tokens_consumed + 1;
        self.tokens_produced = self.tokens_produced + 1;
        proof {
            if !self.stream_ended {
                reveal(keys_fit);
                reveal(keys_queued);
            }
        }
        if self.tokens_consumed > 256 {
            let ghost all = self.tokens@;
            let rest = self.tokens.split_off(self.tokens_consumed);
            self.tokens = rest;
            self.tokens_consumed = 0;
            proof {
                assert(self.tokens@ =~= all.skip(before.tokens_consumed + 1));
                lemma_spans_skip(all, before.tokens_consumed + 1, self.pos as int);
                if self.tokens@.len() > 0 {
                    assert(self.tokens@.last() == all.last());
                }
                if !self.stream_ended {
                    reveal(keys_fit);
                    reveal(keys_queued);
                }
            }
        }
        t
    }

    /// The next token, fetching as many as it takes; an error where the
    /// input is not YAML, or past the stream's end.
    pub fn next_token(&mut self) -> (r: Result<Token, ScanError>)
        requires
            old(self).wf(),
        ensures
            r matches Ok(t) ==> {
                &&& final(self).wf()
                &&& final(self).text() == old(self).text()
                &&& final(self).source() == old(self).source()
                &&& final(self).handed_out() == old(self).handed_out() + 1
                &&& final(self).budget() < old(self).budget()
                &&& t.span.start <= t.span.end <= old(self).text().len()
            },
            r matches Err(e) ==> e.index <= old(self).text().len(),
            old(self).fresh() ==> (r matches Ok(t) && t.kind is StreamStart),
    {
        while self.needs_more_tokens()
            invariant
                self.wf(),
                old(self).fresh() ==> self.fresh() || self.just_opened(),
                self.input == old(self).input,
                self.bytes == old(self).bytes,
                self.tokens_produced == old(self).tokens_produced,
                self.budget() <= old(self).budget(),
            decreases self.progress(),
        {
            proof {
                reveal(indents_ok);
            }
            self.fetch_next_token()?;
        }
        if self.tokens_consumed < self.tokens.len() {
            return Ok(self.take_token());
        }
        Err(self.error("unexpected end of token stream"))
    }
    /// Step over one byte, keeping the column.
    fn advance(&mut self)
        requires
            old(self).consistent(),
        ensures
            final(self).consistent(),
            old(self).keys_settled() ==> final(self).keys_settled(),
            Self::kept(*old(self), *final(self), true, false, false, false, false, false, false, false),
            old(self).pos < old(self).bytes@.len() ==> final(self).pos == old(self).pos + 1,
            old(self).pos >= old(self).bytes@.len() ==> final(self).pos == old(self).pos,
            final(self).budget() == old(self).budget() - 4 * (final(self).pos - old(self).pos),
            final(self).progress() == old(self).progress() - 5 * (final(self).pos - old(self).pos),
    {
        let ghost a = *self;
        if self.pos < self.bytes.len() {
            if self.bytes[self.pos] == LF {
                self.col = 0;
            } else {
                self.col = self.col + 1;
            }
            self.pos = self.pos + 1;
        }
        proof {
            Self::lemma_moved(a, *self);
        }
    }

    /// Step over `n` bytes, keeping the column.
    #[verifier::rlimit(40)]
    fn advance_by(&mut self, n: usize)
        requires
            old(self).consistent(),
            old(self).pos + n <= old(self).bytes@.len(),
        ensures
            final(self).consistent(),
            old(self).keys_settled() ==> final(self).keys_settled(),
            Self::kept(*old(self), *final(self), true, false, false, false, false, false, false, false),
            final(self).pos == old(self).pos + n,
            final(self).budget() == old(self).budget() - 4 * n,
            final(self).progress() == old(self).progress() - 5 * n,
    {
        let ghost a = *self;
        let end = self.pos + n;
        let mut i = end;
        let mut found = false;
        while i > self.pos
            invariant
                self.consistent(),
                self.pos <= i <= end,
                end == self.pos + n,
                end <= self.bytes@.len(),
            decreases i - self.pos,
        {
            if self.bytes[i - 1] == LF {
                found = true;
                break;
            }
            i = i - 1;
        }
        if found {
            self.col = end - i;
        } else {
            self.col = self.col + n;
        }
        self.pos = end;
        proof {
            Self::lemma_moved(a, *self);
        }
    }

    /// Queue `kind` over the bytes from the mark to the current position.
    fn emit(&mut self, kind: TokenKind)
        requires
            old(self).consistent(),
        ensures
            final(self).consistent(),
            final(self).keys_settled(),
            final(self).tokens@ == old(self).tokens@.push(
                (Token { kind: kind, span: (Span { start: old(self).mark, end: old(self).pos }) }),
            ),
            Self::kept(*old(self), *final(self), false, false, true, false, false, true, false, false),
            final(self).budget() == old(self).budget() + 1,
            final(self).progress() == old(self).progress(),
    {
        let content = match &kind {
            TokenKind::StreamStart | TokenKind::StreamEnd | TokenKind::DocumentStart
            | TokenKind::DocumentEnd | TokenKind::BlockEnd => false,
            _ => true,
        };
        if content {
            self.in_document_body = true;
        }
        self.last_emitted_kind = match &kind {
            TokenKind::Anchor(_) => LastEmitted::Anchor,
            TokenKind::Tag(_, _) => LastEmitted::Tag,
            _ => LastEmitted::Other,
        };
        let span = Span { start: self.mark, end: self.pos };
        let ghost t = self.tokens@;
        let tok = Token { kind, span };
        proof {
            lemma_spans_push(t, tok, self.pos as int);
        }
        self.tokens.push(tok);
        proof {
            if !self.stream_ended {
                reveal(keys_fit);
                reveal(keys_queued);
                lemma_keys_fit_mono(
                    self.simple_keys@,
                    self.tokens_produced as int,
                    self.tokens_produced + t.len() - self.tokens_consumed,
                    self.pos as int,
                    self.tokens_produced + self.queued(),
                    self.pos as int,
                );
            }
        }
    }

    /// Put `kind` at `index` among the queued tokens, ahead of the last.
    fn insert_token(&mut self, index: usize, kind: TokenKind, span: Span)
        requires
            old(self).consistent(),
            old(self).keys_settled(),
            index < old(self).queued(),
            span.start <= span.end <= old(self).pos,
        ensures
            final(self).consistent(),
            final(self).keys_settled(),
            final(self).tokens@ == old(self).tokens@.insert(
                old(self).tokens_consumed + index,
                (Token { kind: kind, span: span }),
            ),
            final(self).tokens@.last() == old(self).tokens@.last(),
            Self::kept(*old(self), *final(self), false, false, true, false, false, true, false, false),
            final(self).budget() == old(self).budget() + 1,
            final(self).progress() == old(self).progress(),
    {
        let block_end = match &kind {
            TokenKind::BlockEnd => true,
            _ => false,
        };
        if !block_end {
            self.in_document_body = true;
        }
        let len = self.tokens.len();
        let at = self.tokens_consumed + index;
        let ghost before = self.tokens@;
        let tok = Token { kind, span };
        proof {
            lemma_spans_insert(before, at as int, tok, self.pos as int);
        }
        self.tokens.insert(at, tok);
        proof {
            assert(self.tokens@.last() == before.last()) by {
                assert(self.tokens@[self.tokens@.len() - 1] == before[before.len() - 1]);
            }
            if !self.stream_ended {
                reveal(keys_queued);
                lemma_keys_fit_mono(
                    self.simple_keys@,
                    self.tokens_produced as int,
                    self.tokens_produced + before.len() - self.tokens_consumed,
                    self.pos as int,
                    self.tokens_produced + self.queued(),
                    self.pos as int,
                );
            }
        }
    }

    /// Skip spaces and tabs.
    fn skip_blank(&mut self)
        requires
            old(self).consistent(),
        ensures
            old(self).at_char() ==> final(self).at_char(),
            final(self).consistent(),
            old(self).keys_settled() ==> final(self).keys_settled(),
            Self::kept(*old(self), *final(self), true, false, false, false, false, false, false, false),
            final(self).pos >= old(self).pos,
            final(self).budget() == old(self).budget() - 4 * (final(self).pos - old(self).pos),
            final(self).progress() == old(self).progress() - 5 * (final(self).pos - old(self).pos),
            !is_blank(byte_at(final(self).bytes@, final(self).pos as int)),
            forall|i: int|
                old(self).pos <= i < final(self).pos ==> is_blank(#[trigger] final(self).bytes@[i]),
    {
        let ghost a = *self;
        let mut count: usize = 0;
        let n = self.bytes.len();
        while self.pos + count < n && blank(self.bytes[self.pos + count])
            invariant
                self.consistent(),
                n == self.bytes@.len(),
                self.pos + count <= n,
                forall|i: int| self.pos <= i < self.pos + count ==> is_blank(#[trigger] self.bytes@[i]),
            decreases n - self.pos - count,
        {
            count = count + 1;
        }
        if count > 0 {
            proof {
                self.lemma_ascii_bounds((self.pos + count - 1) as int);
            }
            self.col = self.col + count;
            self.pos = self.pos + count;
        }
        proof {
            Self::lemma_moved(a, *self);
        }
    }

    /// Step over one line break (`\r\n` counts as one).
    fn skip_line(&mut self)
        requires
            old(self).consistent(),
        ensures
            old(self).at_char() ==> final(self).at_char(),
            final(self).consistent(),
            old(self).keys_settled() ==> final(self).keys_settled(),
            Self::kept(*old(self), *final(self), true, false, false, false, false, false, false, false),
            is_break(byte_at(old(self).bytes@, old(self).pos as int)) ==> final(self).pos
                > old(self).pos,
            !is_break(byte_at(old(self).bytes@, old(self).pos as int)) ==> final(self).pos
                == old(self).pos,
            final(self).pos <= old(self).pos + 2,
            forall|i: int| old(self).pos <= i < final(self).pos ==> is_break(#[trigger] final(self).bytes@[i]),
            final(self).budget() == old(self).budget() - 4 * (final(self).pos - old(self).pos),
            final(self).progress() == old(self).progress() - 5 * (final(self).pos - old(self).pos),
    {
        let c = self.peek();
        if c == CR && self.peek_at(1) == LF {
            self.advance_by(2);
            proof {
                self.lemma_after_step();
            }
        } else if line_break(c) {
            self.advance();
            proof {
                self.lemma_after_step();
            }
        }
    }

    /// Push the current indent and make `column` the new one.
    fn push_indent(&mut self, column: isize)
        requires
            old(self).consistent(),
            old(self).indent < column <= old(self).pos,
            0 <= column,
        ensures
            final(self).consistent(),
            old(self).keys_settled() ==> final(self).keys_settled(),
            Self::kept(*old(self), *final(self), false, false, false, true, false, false, false, false),
            final(self).indent == column,
            final(self).indents@ == old(self).indents@.push(old(self).indent),
            final(self).budget() == old(self).budget() + 1,
            final(self).progress() == old(self).progress() + 1,
    {
        proof {
            lemma_indents_push(self.indents@, self.indent, column, self.pos as int);
        }
        self.indents.push(self.indent);
        self.indent = column;
    }

    /// Open a block scope at `column` if it is deeper than the current
    /// one, queueing `kind` over an empty range at `mark`: at the simple
    /// key's place `number` when given, else last (and then `mark` is
    /// the current position).
    fn roll_indent(&mut self, column: isize, number: Option<u128>, kind: TokenKind, mark: usize)
        requires
            old(self).consistent(),
            old(self).keys_settled(),
            0 <= column <= old(self).pos,
            mark <= old(self).pos,
            number is None ==> mark == old(self).pos,
            number matches Some(n) ==> old(self).tokens_produced <= n < old(self).tokens_produced
                + old(self).queued(),
        ensures
            final(self).consistent(),
            final(self).keys_settled(),
            Self::kept(*old(self), *final(self), false, false, true, true, false, true, false, false),
            final(self).budget() <= old(self).budget() + 2,
            final(self).progress() <= old(self).progress() + 1,
            number is Some ==> final(self).tokens@.last() == old(self).tokens@.last(),
            final(self).tokens@.len() >= old(self).tokens@.len(),
            !(old(self).flow_level == 0 && old(self).indent < column) ==> final(self).tokens@ == old(self).tokens@ && final(self).indent == old(self).indent && final(self).indents@ == old(self).indents@,
            old(self).flow_level == 0 && old(self).indent < column ==> final(self).indent == column
                && final(self).indents@ == old(self).indents@.push(old(self).indent),
            old(self).flow_level == 0 && old(self).indent < column && number is None ==> final(self).tokens@ == old(self).tokens@.push(
                (Token { kind: kind, span: (Span { start: mark, end: mark }) }),
            ),
            old(self).flow_level == 0 && old(self).indent < column ==> (number matches Some(n)
                ==> final(self).tokens@ == old(self).tokens@.insert(
                old(self).tokens_consumed + (n - old(self).tokens_produced),
                (Token { kind: kind, span: (Span { start: mark, end: mark }) }),
            )),
    {
        if self.flow_level > 0 {
            return;
        }
        if self.indent < column {
            self.push_indent(column);
            let span = Span { start: mark, end: mark };
            match number {
                Some(n) => {
                    let q = self.tokens.len();
                    assert(n - self.tokens_produced < q);
                    let idx = (n - self.tokens_produced) as usize;
                    self.insert_token(idx, kind, span);
                },
                None => {
                    let ghost a = *self;
                    let tok = Token { kind, span };
                    proof {
                        lemma_spans_push(self.tokens@, tok, self.pos as int);
                    }
                    self.tokens.push(tok);
                    proof {
                        if !self.stream_ended {
                            reveal(keys_fit);
                            reveal(keys_queued);
                            lemma_keys_fit_mono(
                                self.simple_keys@,
                                self.tokens_produced as int,
                                self.tokens_produced + a.queued(),
                                self.pos as int,
                                self.tokens_produced + self.queued(),
                                self.pos as int,
                            );
                        }
                    }
                },
            }
        }
    }

    /// Close every block scope deeper than `column`, queueing a block
    /// end for each.
    fn unroll_indent(&mut self, column: isize)
        requires
            old(self).consistent(),
            column >= -1,
        ensures
            final(self).consistent(),
            old(self).keys_settled() ==> final(self).keys_settled(),
            Self::kept(*old(self), *final(self), false, false, true, true, false, true, false, false),
            final(self).budget() == old(self).budget(),
            final(self).progress() <= old(self).progress(),
            final(self).tokens@.len() == old(self).tokens@.len() ==> final(self).tokens@ == old(self).tokens@
                && final(self).last_emitted_kind == old(self).last_emitted_kind,
            final(self).tokens@.len() >= old(self).tokens@.len(),
            old(self).flow_level > 0 || old(self).indent <= column ==> final(self).tokens@ == old(self).tokens@ && final(self).indent == old(self).indent && final(self).indents@ == old(self).indents@,
            old(self).flow_level == 0 ==> final(self).indent <= column,
            final(self).indents@ == old(self).indents@.subrange(0, final(self).indents@.len() as int),
            final(self).tokens@.subrange(0, old(self).tokens@.len() as int) == old(self).tokens@,
            forall|i: int|
                old(self).tokens@.len() <= i < final(self).tokens@.len() ==> (#[trigger] final(self).tokens@[i]).kind == TokenKind::BlockEnd,
    {
        if self.flow_level > 0 {
            return;
        }
        let ghost start = *self;
        while self.indent > column
            invariant
                self.consistent(),
                column >= -1,
                start.keys_settled() ==> self.keys_settled(),
                Self::kept(start, *self, false, false, true, true, false, true, false, false),
                self.budget() == start.budget(),
                self.progress() <= start.progress(),
                self.tokens@.len() == start.tokens@.len() ==> self.tokens@ == start.tokens@
                    && self.last_emitted_kind == start.last_emitted_kind,
                self.tokens@.len() >= start.tokens@.len(),
                self.indents@ == start.indents@.subrange(0, self.indents@.len() as int),
                self.indents@.len() <= start.indents@.len(),
                start.indent <= column ==> self.tokens@ == start.tokens@ && self.indent == start.indent
                    && self.indents@ == start.indents@,
                self.tokens@.subrange(0, start.tokens@.len() as int) == start.tokens@,
                forall|i: int|
                    start.tokens@.len() <= i < self.tokens@.len() ==> (#[trigger] self.tokens@[i]).kind
                        == TokenKind::BlockEnd,
            decreases self.indents@.len(),
        {
            proof {
                lemma_indents_pop(self.indents@, self.indent, self.pos as int);
            }
            let popped = self.indents.pop();
            self.indent = match popped {
                Some(v) => v,
                None => -1,
            };
            self.emit(TokenKind::BlockEnd);
        }
    }

    /// Note that a simple key may begin here.
    fn save_simple_key_ext(&mut self, json_like: bool)
        requires
            old(self).consistent(),
        ensures
            final(self).consistent(),
            Self::kept(*old(self), *final(self), false, false, false, false, true, false, false, false),
            final(self).simple_keys@.len() == old(self).simple_keys@.len(),
            old(self).simple_key_allowed && old(self).simple_keys@.len() > 0 ==> final(self).simple_keys@
                == old(self).simple_keys@.update(
                old(self).simple_keys@.len() - 1,
                (SimpleKey {
                    possible: true,
                    required: final(self).simple_keys@.last().required,
                    token_number: (old(self).tokens_produced + old(self).queued()) as u128,
                    index: old(self).pos,
                    json_like: json_like,
                }),
            ),
            !old(self).simple_key_allowed || old(self).simple_keys@.len() == 0 ==> final(self).simple_keys
                == old(self).simple_keys,
    {
        if !self.simple_key_allowed {
            return;
        }
        let required = self.flow_level == 0 && self.indent == self.col as isize;
        let queued = self.tokens.len() - self.tokens_consumed;
        let sk = SimpleKey {
            possible: true,
            required,
            token_number: self.tokens_produced + queued as u128,
            index: self.pos,
            json_like,
        };
        let k = self.simple_keys.len();
        if k > 0 {
            let ghost before = self.simple_keys@;
            self.simple_keys.set(k - 1, sk);
            proof {
                if !self.stream_ended {
                    reveal(keys_fit);
                    assert forall|i: int|
                        0 <= i < self.simple_keys@.len() && (#[trigger] self.simple_keys@[i]).possible implies self.tokens_produced
                        <= self.simple_keys@[i].token_number <= self.tokens_produced + self.queued()
                        && self.simple_keys@[i].index <= self.pos by {
                        if i < k - 1 {
                            assert(self.simple_keys@[i] == before[i]);
                        }
                    }
                }
            }
        }
    }

    /// The innermost simple key can no longer begin here; an error if it
    /// was required.
    fn remove_simple_key(&mut self) -> (r: Result<(), ScanError>)
        requires
            old(self).consistent(),
        ensures
            final(self).consistent(),
            old(self).keys_settled() ==> final(self).keys_settled(),
            Self::kept(*old(self), *final(self), false, false, false, false, true, false, false, false),
            final(self).simple_keys@.len() == old(self).simple_keys@.len(),
            forall|i: int|
                0 <= i < final(self).simple_keys@.len() && (#[trigger] final(self).simple_keys@[i]).possible
                    ==> final(self).simple_keys@[i] == old(self).simple_keys@[i],
            r matches Err(e) ==> e.index <= old(self).bytes@.len(),
            r is Err <==> old(self).simple_keys@.len() > 0 && old(self).simple_keys@.last().possible
                && old(self).simple_keys@.last().required,
            r matches Err(e) ==> e.index == if old(self).simple_keys@.last().index <= old(self).pos {
                old(self).simple_keys@.last().index
            } else {
                old(self).pos
            },
            r is Ok && old(self).simple_keys@.len() > 0 ==> final(self).simple_keys@ == old(self).simple_keys@.update(
                old(self).simple_keys@.len() - 1,
                (SimpleKey { possible: false, ..old(self).simple_keys@.last() }),
            ),
            old(self).simple_keys@.len() == 0 ==> final(self).simple_keys@ == old(self).simple_keys@,
    {
        let k = self.simple_keys.len();
        if k > 0 {
            let sk = self.simple_keys[k - 1];
            if sk.possible && sk.required {
                let index = if sk.index <= self.pos {
                    sk.index
                } else {
                    self.pos
                };
                return Err(
                    ScanError {
                        message: owned_string("simple key was required but not found"),
                        index,
                    },
                );
            }
            let ghost before = self.simple_keys@;
            self.simple_keys.set(k - 1, SimpleKey { possible: false, ..sk });
            proof {
                assert forall|i: int|
                    0 <= i < self.simple_keys@.len() && (#[trigger] self.simple_keys@[i]).possible implies self.simple_keys@[i]
                    == before[i] by {
                }
                if !self.stream_ended {
                    reveal(keys_fit);
                    reveal(keys_queued);
                }
            }
        }
        Ok(())
    }

    /// Take the recorded trivia, leaving none.
    pub fn take_trivia(&mut self) -> (r: Vec<Trivia>)
        requires
            old(self).wf(),
        ensures
            final(self).wf(),
            final(self).text() == old(self).text(),
            forall|i: int| 0 <= i < r@.len() ==> #[trigger] r@[i].start <= r@[i].end <= old(self).text().len(),
            r@ == old(self).trivia_seq(),
            final(self).trivia_seq() == Seq::<Trivia>::empty(),
    {
        proof {
            reveal(records_within);
        }
        let mut r = Vec::new();
        std::mem::swap(&mut r, &mut self.trivia);
        r
    }

    /// Take the recorded source-bearing tokens, leaving none.
    pub fn take_recorded_tokens(&mut self) -> (r: Vec<RecordedToken>)
        requires
            old(self).wf(),
        ensures
            final(self).wf(),
            final(self).text() == old(self).text(),
            forall|i: int| 0 <= i < r@.len() ==> #[trigger] r@[i].start <= r@[i].end <= old(self).text().len(),
            r@ == old(self).recorded_seq(),
            final(self).recorded_seq() == Seq::<RecordedToken>::empty(),
    {
        proof {
            reveal(records_within);
        }
        let mut r = Vec::new();
        std::mem::swap(&mut r, &mut self.recorded_tokens);
        r
    }

    /// Take the captured comments, leaving none.
    pub fn take_comments(&mut self) -> (r: Vec<ScannedComment>)
        requires
            old(self).wf(),
        ensures
            final(self).wf(),
            final(self).text() == old(self).text(),
            forall|i: int| 0 <= i < r@.len() ==> #[trigger] r@[i].start <= r@[i].end <= old(self).text().len(),
            r@ == old(self).comment_seq(),
            final(self).comment_seq() == Seq::<ScannedComment>::empty(),
    {
        proof {
            reveal(records_within);
        }
        let mut r = Vec::new();
        std::mem::swap(&mut r, &mut self.comments);
        r
    }
}

/// Byte `i` of `b` lies in a comment: a `#` at or before it, with no
/// line break between the two.
pub open spec fn in_comment(b: Seq<u8>, i: int) -> bool {
    exists|j: int|
        #![trigger b[j]]
        0 <= j <= i && b[j] == HASH && forall|k: int| j <= k <= i ==> !is_break(#[trigger] b[k])
}

/// Every byte of `b` in `[from, to)` is a blank, a line break or part of
/// a comment: what the scanner may pass over between tokens.
pub open spec fn skippable(b: Seq<u8>, from: int, to: int) -> bool {
    forall|i: int| from <= i < to ==> is_blank(#[trigger] b[i]) || is_break(b[i]) || in_comment(b, i)
}

/// A `#` followed by bytes that are no line break makes a comment run.
proof fn lemma_comment_run(b: Seq<u8>, j: int, to: int)
    requires
        0 <= j < to <= b.len(),
        b[j] == HASH,
        forall|k: int| j <= k < to ==> !is_break(#[trigger] b[k]),
    ensures
        forall|i: int| j <= i < to ==> in_comment(b, i),
{
    assert forall|i: int| j <= i < to implies in_comment(b, i) by {
        assert(b[j] == HASH);
    }
}

/// The tokens of `input`, in order, through the stream's end or up to
/// the first error; with them, what the scanner reports past them (that
/// error, or the end of the token stream at the input's end). Every
/// token covers a range of the input, and there are at most `4 n + 2` of
/// them for an input of `n` bytes.
pub fn tokenize(input: &str) -> (r: (Vec<Token>, ScanError))
    requires
        input.spec_bytes().len() <= isize::MAX,
    ensures
        forall|i: int|
            0 <= i < r.0@.len() ==> #[trigger] r.0@[i].span.start <= r.0@[i].span.end
                <= input.spec_bytes().len(),
        r.0@.len() <= 4 * input.spec_bytes().len() + 2,
        r.1.index <= input.spec_bytes().len(),
        r.0@.len() >= 1 && r.0@[0].kind is StreamStart,
        r.0@.last().kind is StreamEnd ==> r.1.index == input.spec_bytes().len(),
        forall|i: int| 0 <= i < r.0@.len() - 1 ==> !(#[trigger] r.0@[i].kind is StreamEnd),
{
    let mut sc = Scanner::new(input);
    let mut out: Vec<Token> = Vec::new();
    let n = input.as_bytes().len();
    loop
        invariant
            sc.wf(),
            sc.text() == input.spec_bytes(),
            n == input.spec_bytes().len(),
            out@.len() == sc.handed_out(),
            sc.handed_out() + sc.budget() <= 4 * n + 2,
            forall|i: int|
                0 <= i < out@.len() ==> #[trigger] out@[i].span.start <= out@[i].span.end <= n,
            out@.len() == 0 ==> sc.fresh(),
            out@.len() > 0 ==> out@[0].kind is StreamStart,
            forall|i: int| 0 <= i < out@.len() ==> !(#[trigger] out@[i].kind is StreamEnd),
        decreases sc.budget(),
    {
        proof {
            sc.lemma_budget_floor();
        }
        match sc.next_token() {
            Ok(t) => {
                let last = match &t.kind {
                    TokenKind::StreamEnd => true,
                    _ => false,
                };
                out.push(t);
                if last {
                    let end = ScanError { message: owned_string("unexpected end of token stream"), index: n };
                    return (out, end);
                }
            },
            Err(e) => {
                return (out, e);
            },
        }
    }
}

/// What scanning `input` with recording on records, once the stream's
/// end is reached: the trivia, the source-bearing tokens and the
/// comments, each within the input; or the first scanning error.
pub fn scan_records(input: &str) -> (r: Result<(Vec<Trivia>, Vec<RecordedToken>, Vec<ScannedComment>), ScanError>)
    requires
        input.spec_bytes().len() <= isize::MAX,
    ensures
        r matches Ok((tr, rt, cm)) ==> {
            &&& forall|i: int| 0 <= i < tr@.len() ==> #[trigger] tr@[i].start <= tr@[i].end <= input.spec_bytes().len()
            &&& forall|i: int| 0 <= i < rt@.len() ==> #[trigger] rt@[i].start <= rt@[i].end <= input.spec_bytes().len()
            &&& forall|i: int| 0 <= i < cm@.len() ==> #[trigger] cm@[i].start <= cm@[i].end <= input.spec_bytes().len()
        },
        r matches Err(e) ==> e.index <= input.spec_bytes().len(),
{
    let mut sc = Scanner::new(input);
    sc.enable_recording();
    loop
        invariant
            sc.wf(),
            sc.text() == input.spec_bytes(),
        decreases sc.budget(),
    {
        proof {
            sc.lemma_budget_floor();
        }
        let t = sc.next_token()?;
        match t.kind {
            TokenKind::StreamEnd => {
                break;
            },
            _ => {},
        }
    }
    let tr = sc.take_trivia();
    let rt = sc.take_recorded_tokens();
    let cm = sc.take_comments();
    Ok((tr, rt, cm))
}

impl<'a> Scanner<'a> {
    /// The budget is never negative.
    pub proof fn lemma_budget_floor(&self)
        requires
            self.wf(),
        ensures
            self.budget() >= 0,
            self.handed_out() + self.budget() <= 4 * self.text().len() + 2,
    {
        self.lemma_facts();
    }

}

} // verus!
