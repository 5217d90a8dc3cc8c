//! The YAML 1.2 event parser: turns the scanner's token stream into
//! parsing events (document and collection starts and ends, scalars,
//! aliases), one per call.
//!
//! The parser is a state machine over the token stream. The states of
//! the collections still open form a stack; the law it keeps is that
//! the events it returns are well nested: every end closes the most
//! recent open collection of its kind, and document and stream markers
//! come only outside every collection.
use vstd::prelude::*;

use crate::parser::token::{ScalarStyle, ScanError, Span, Token, TokenKind};
use crate::text::{debug_text, owned_string, push_str, str_debug};

verus! {

/// A parsing event. Scalars own their text.
#[derive(Debug)]
pub enum Event {
    StreamStart,
    StreamEnd,
    DocumentStart,
    DocumentEnd,
    Alias { anchor: String, span: Span },
    Scalar {
        value: String,
        style: ScalarStyle,
        anchor: Option<String>,
        tag: Option<(String, String)>,
        span: Span,
    },
    SequenceStart { anchor: Option<String>, tag: Option<(String, String)>, span: Span },
    SequenceEnd { span: Span },
    MappingStart { anchor: Option<String>, tag: Option<(String, String)>, span: Span },
    MappingEnd { span: Span },
}

/// What the parser expects next.
#[derive(Debug, Clone, Copy, PartialEq, Eq, Structural)]
pub enum State {
    StreamStart,
    ImplicitDocumentStart,
    DocumentStart,
    DocumentContent,
    DocumentEnd,
    BlockNode,
    BlockSequenceFirstEntry,
    BlockSequenceEntry,
    IndentlessSequenceEntry,
    BlockMappingFirstKey,
    BlockMappingKey,
    BlockMappingValue,
    FlowSequenceFirstEntry,
    FlowSequenceEntry,
    FlowSequenceEntryMappingKey,
    FlowSequenceEntryMappingValue,
    FlowSequenceEntryMappingEnd,
    FlowMappingFirstKey,
    FlowMappingKey,
    FlowMappingValue,
    FlowMappingEmptyValue,
    End,
}

/// A state inside a sequence.
pub open spec fn seq_state(s: State) -> bool {
    s == State::BlockSequenceFirstEntry || s == State::BlockSequenceEntry || s
        == State::IndentlessSequenceEntry || s == State::FlowSequenceFirstEntry || s
        == State::FlowSequenceEntry
}

/// A state inside a mapping (the single-pair mappings written inside a
/// flow sequence included).
pub open spec fn map_state(s: State) -> bool {
    s == State::BlockMappingFirstKey || s == State::BlockMappingKey || s == State::BlockMappingValue
        || s == State::FlowSequenceEntryMappingKey || s == State::FlowSequenceEntryMappingValue
        || s == State::FlowSequenceEntryMappingEnd || s == State::FlowMappingFirstKey || s
        == State::FlowMappingKey || s == State::FlowMappingValue || s
        == State::FlowMappingEmptyValue
}

/// A state inside a collection.
pub open spec fn collection_state(s: State) -> bool {
    seq_state(s) || map_state(s)
}

/// A state a collection returns to after a nested node: any state
/// inside a collection but the one before a flow sequence's first entry.
pub open spec fn return_state(s: State) -> bool {
    collection_state(s) && s != State::FlowSequenceFirstEntry
}

/// A stack of return states inside a document: the document's end at
/// the bottom, then one state per enclosing collection.
pub open spec fn frames_ok(states: Seq<State>) -> bool {
    &&& states.len() >= 1
    &&& states[0] == State::DocumentEnd
    &&& forall|i: int| 1 <= i < states.len() ==> return_state(#[trigger] states[i])
}

/// The shape of the parser's stack for its current state: empty
/// between documents, just the document's end while its root node is
/// awaited, one return state per enclosing collection inside one.
pub open spec fn stack_ok(states: Seq<State>, state: State) -> bool {
    if state == State::BlockNode {
        states == seq![State::DocumentEnd]
    } else if collection_state(state) {
        frames_ok(states)
    } else {
        states.len() == 0
    }
}

/// The collections open in a parser state, outermost first: `true`
/// for a mapping, `false` for a sequence.
pub open spec fn open_collections(states: Seq<State>, state: State) -> Seq<bool> {
    if collection_state(state) {
        states.skip(1).map_values(|s: State| map_state(s)).push(map_state(state))
    } else {
        seq![]
    }
}

/// The open collections after `ev`, when `ev` is well placed: a start
/// opens one, an end closes the innermost if it is of the same kind,
/// document and stream markers need none open. `None` for an event
/// out of place.
pub open spec fn after_event(open: Seq<bool>, ev: Event) -> Option<Seq<bool>> {
    match ev {
        Event::SequenceStart { .. } => Some(open.push(false)),
        Event::MappingStart { .. } => Some(open.push(true)),
        Event::SequenceEnd { .. } => if open.len() > 0 && !open.last() {
            Some(open.drop_last())
        } else {
            None
        },
        Event::MappingEnd { .. } => if open.len() > 0 && open.last() {
            Some(open.drop_last())
        } else {
            None
        },
        Event::Scalar { .. } | Event::Alias { .. } => Some(open),
        _ => if open.len() == 0 {
            Some(open)
        } else {
            None
        },
    }
}

/// What a node leaves behind, for a node parsed with `states` on the
/// stack (the return state on top): a scalar or an alias pops the return
/// state, a collection start keeps the stack and enters a state of its
/// own kind.
pub open spec fn node_step(states: Seq<State>, new_states: Seq<State>, new_state: State, ev: Event) -> bool {
    match ev {
        Event::Scalar { .. } | Event::Alias { .. } => new_states == states.drop_last()
            && new_state == states.last(),
        Event::SequenceStart { .. } => new_states == states && seq_state(new_state),
        Event::MappingStart { .. } => new_states == states && map_state(new_state),
        _ => false,
    }
}

proof fn lemma_skip_push(s: Seq<State>, r: State)
    requires
        s.len() >= 1,
    ensures
        s.push(r).skip(1).map_values(|x: State| map_state(x)) == s.skip(1).map_values(
            |x: State| map_state(x),
        ).push(map_state(r)),
{
    assert(s.push(r).skip(1).map_values(|x: State| map_state(x)) =~= s.skip(1).map_values(
        |x: State| map_state(x),
    ).push(map_state(r)));
}

/// A node parsed as the root of a document, with only the document's end
/// on the stack, leaves the stack in shape and is well placed at the top
/// level.
proof fn lemma_root_node(new_states: Seq<State>, new_state: State, r: Result<Event, ScanError>)
    requires
        r matches Ok(ev) ==> node_step(seq![State::DocumentEnd], new_states, new_state, ev),
    ensures
        r matches Ok(ev) ==> stack_ok(new_states, new_state) && after_event(
            Seq::<bool>::empty(),
            ev,
        ) == Some(open_collections(new_states, new_state)),
{
    let s = seq![State::DocumentEnd];
    if let Ok(ev) = r {
        assert(s.drop_last() =~= Seq::<State>::empty());
        assert(s.skip(1) =~= Seq::<State>::empty());
        assert(s.skip(1).map_values(|x: State| map_state(x)) =~= Seq::<bool>::empty());
        match ev {
            Event::SequenceStart { .. } | Event::MappingStart { .. } => {
                assert(open_collections(new_states, new_state) =~= seq![map_state(new_state)]);
            },
            _ => {},
        }
    }
}

/// A node parsed inside a collection in state `c`, with a return state
/// `r` of the same kind pushed on `s`, leaves the stack in shape and is
/// well placed.
proof fn lemma_inner_node(
    s: Seq<State>,
    c: State,
    rs: State,
    new_states: Seq<State>,
    new_state: State,
    r: Result<Event, ScanError>,
)
    requires
        frames_ok(s),
        collection_state(c),
        return_state(rs),
        map_state(c) == map_state(rs),
        r matches Ok(ev) ==> node_step(s.push(rs), new_states, new_state, ev),
    ensures
        r matches Ok(ev) ==> stack_ok(new_states, new_state) && after_event(
            open_collections(s, c),
            ev,
        ) == Some(open_collections(new_states, new_state)),
{
    if let Ok(ev) = r {
        assert(s.push(rs).drop_last() =~= s);
        assert forall|i: int| 1 <= i < s.push(rs).len() implies return_state(
            #[trigger] s.push(rs)[i],
        ) by {
            if i < s.len() {
                assert(s.push(rs)[i] == s[i]);
            }
        }
        lemma_skip_push(s, rs);
    }
}

/// Closing the innermost collection pops its return state.
proof fn lemma_close(s: Seq<State>, c: State)
    requires
        frames_ok(s),
        collection_state(c),
    ensures
        stack_ok(s.drop_last(), s.last()),
        open_collections(s.drop_last(), s.last()) == open_collections(s, c).drop_last(),
{
    if s.len() == 1 {
        assert(s.drop_last() =~= Seq::<State>::empty());
        assert(s.skip(1) =~= Seq::<State>::empty());
        assert(open_collections(s, c).drop_last() =~= Seq::<bool>::empty());
    } else {
        let t = s.drop_last();
        assert(t.push(s.last()) =~= s);
        lemma_skip_push(t, s.last());
        assert forall|i: int| 1 <= i < t.len() implies return_state(#[trigger] t[i]) by {
            assert(t[i] == s[i]);
        }
        assert(s[s.len() - 1] == s.last());
    }
}

/// The kind of a token, without its text.
#[derive(Debug, Clone, Copy, PartialEq, Eq, Structural)]
pub enum TokenTag {
    StreamStart,
    StreamEnd,
    DocumentStart,
    DocumentEnd,
    BlockSequenceStart,
    BlockMappingStart,
    BlockEnd,
    FlowSequenceStart,
    FlowSequenceEnd,
    FlowMappingStart,
    FlowMappingEnd,
    BlockEntry,
    FlowEntry,
    Key,
    Value,
    Anchor,
    Alias,
    Tag,
    Scalar,
}

/// The tag of a token kind.
pub open spec fn tag_of(k: TokenKind) -> TokenTag {
    match k {
        TokenKind::StreamStart => TokenTag::StreamStart,
        TokenKind::StreamEnd => TokenTag::StreamEnd,
        TokenKind::DocumentStart => TokenTag::DocumentStart,
        TokenKind::DocumentEnd => TokenTag::DocumentEnd,
        TokenKind::BlockSequenceStart => TokenTag::BlockSequenceStart,
        TokenKind::BlockMappingStart => TokenTag::BlockMappingStart,
        TokenKind::BlockEnd => TokenTag::BlockEnd,
        TokenKind::FlowSequenceStart => TokenTag::FlowSequenceStart,
        TokenKind::FlowSequenceEnd => TokenTag::FlowSequenceEnd,
        TokenKind::FlowMappingStart => TokenTag::FlowMappingStart,
        TokenKind::FlowMappingEnd => TokenTag::FlowMappingEnd,
        TokenKind::BlockEntry => TokenTag::BlockEntry,
        TokenKind::FlowEntry => TokenTag::FlowEntry,
        TokenKind::Key => TokenTag::Key,
        TokenKind::Value => TokenTag::Value,
        TokenKind::Anchor(_) => TokenTag::Anchor,
        TokenKind::Alias(_) => TokenTag::Alias,
        TokenKind::Tag(_, _) => TokenTag::Tag,
        TokenKind::Scalar(_, _) => TokenTag::Scalar,
    }
}

/// The tag of a token kind.
fn tag(k: &TokenKind) -> (t: TokenTag)
    ensures
        t == tag_of(*k),
{
    match k {
        TokenKind::StreamStart => TokenTag::StreamStart,
        TokenKind::StreamEnd => TokenTag::StreamEnd,
        TokenKind::DocumentStart => TokenTag::DocumentStart,
        TokenKind::DocumentEnd => TokenTag::DocumentEnd,
        TokenKind::BlockSequenceStart => TokenTag::BlockSequenceStart,
        TokenKind::BlockMappingStart => TokenTag::BlockMappingStart,
        TokenKind::BlockEnd => TokenTag::BlockEnd,
        TokenKind::FlowSequenceStart => TokenTag::FlowSequenceStart,
        TokenKind::FlowSequenceEnd => TokenTag::FlowSequenceEnd,
        TokenKind::FlowMappingStart => TokenTag::FlowMappingStart,
        TokenKind::FlowMappingEnd => TokenTag::FlowMappingEnd,
        TokenKind::BlockEntry => TokenTag::BlockEntry,
        TokenKind::FlowEntry => TokenTag::FlowEntry,
        TokenKind::Key => TokenTag::Key,
        TokenKind::Value => TokenTag::Value,
        TokenKind::Anchor(_) => TokenTag::Anchor,
        TokenKind::Alias(_) => TokenTag::Alias,
        TokenKind::Tag(_, _) => TokenTag::Tag,
        TokenKind::Scalar(_, _) => TokenTag::Scalar,
    }
}

/// The name of a scalar style, as its `Debug` text shows it.
pub open spec fn style_name(st: ScalarStyle) -> Seq<char> {
    match st {
        ScalarStyle::Plain => "Plain"@,
        ScalarStyle::SingleQuoted => "SingleQuoted"@,
        ScalarStyle::DoubleQuoted => "DoubleQuoted"@,
        ScalarStyle::Literal => "Literal"@,
        ScalarStyle::Folded => "Folded"@,
    }
}

/// The `Debug` text of a token kind: the variant's name, followed by
/// its fields in round brackets where it has some (strings quoted and
/// escaped as `Debug` shows them).
pub open spec fn kind_debug(k: TokenKind) -> Seq<char> {
    match k {
        TokenKind::StreamStart => "StreamStart"@,
        TokenKind::StreamEnd => "StreamEnd"@,
        TokenKind::DocumentStart => "DocumentStart"@,
        TokenKind::DocumentEnd => "DocumentEnd"@,
        TokenKind::BlockSequenceStart => "BlockSequenceStart"@,
        TokenKind::BlockMappingStart => "BlockMappingStart"@,
        TokenKind::BlockEnd => "BlockEnd"@,
        TokenKind::FlowSequenceStart => "FlowSequenceStart"@,
        TokenKind::FlowSequenceEnd => "FlowSequenceEnd"@,
        TokenKind::FlowMappingStart => "FlowMappingStart"@,
        TokenKind::FlowMappingEnd => "FlowMappingEnd"@,
        TokenKind::BlockEntry => "BlockEntry"@,
        TokenKind::FlowEntry => "FlowEntry"@,
        TokenKind::Key => "Key"@,
        TokenKind::Value => "Value"@,
        TokenKind::Anchor(a) => "Anchor("@ + debug_text(a@) + ")"@,
        TokenKind::Alias(a) => "Alias("@ + debug_text(a@) + ")"@,
        TokenKind::Tag(h, t) => "Tag("@ + debug_text(h@) + ", "@ + debug_text(t@) + ")"@,
        TokenKind::Scalar(st, v) => "Scalar("@ + style_name(st) + ", "@ + debug_text(v@) + ")"@,
    }
}

/// The name of a scalar style.
fn style_text(st: ScalarStyle) -> (r: String)
    ensures
        r@ == style_name(st),
{
    match st {
        ScalarStyle::Plain => owned_string("Plain"),
        ScalarStyle::SingleQuoted => owned_string("SingleQuoted"),
        ScalarStyle::DoubleQuoted => owned_string("DoubleQuoted"),
        ScalarStyle::Literal => owned_string("Literal"),
        ScalarStyle::Folded => owned_string("Folded"),
    }
}

/// `head` followed by the `Debug` text of `a`, then `)`.
fn wrap_debug(head: &str, a: &str) -> (r: String)
    ensures
        r@ == head@ + debug_text(a@) + ")"@,
{
    let mut r = owned_string(head);
    let d = str_debug(a);
    push_str(&mut r, d.as_str());
    push_str(&mut r, ")");
    r
}

/// `Debug` text of a token kind, for error messages.
fn kind_debug_text(k: &TokenKind) -> (r: String)
    ensures
        r@ == kind_debug(*k),
{
    match k {
        TokenKind::StreamStart => owned_string("StreamStart"),
        TokenKind::StreamEnd => owned_string("StreamEnd"),
        TokenKind::DocumentStart => owned_string("DocumentStart"),
        TokenKind::DocumentEnd => owned_string("DocumentEnd"),
        TokenKind::BlockSequenceStart => owned_string("BlockSequenceStart"),
        TokenKind::BlockMappingStart => owned_string("BlockMappingStart"),
        TokenKind::BlockEnd => owned_string("BlockEnd"),
        TokenKind::FlowSequenceStart => owned_string("FlowSequenceStart"),
        TokenKind::FlowSequenceEnd => owned_string("FlowSequenceEnd"),
        TokenKind::FlowMappingStart => owned_string("FlowMappingStart"),
        TokenKind::FlowMappingEnd => owned_string("FlowMappingEnd"),
        TokenKind::BlockEntry => owned_string("BlockEntry"),
        TokenKind::FlowEntry => owned_string("FlowEntry"),
        TokenKind::Key => owned_string("Key"),
        TokenKind::Value => owned_string("Value"),
        TokenKind::Anchor(a) => wrap_debug("Anchor(", a.as_str()),
        TokenKind::Alias(a) => wrap_debug("Alias(", a.as_str()),
        TokenKind::Tag(h, t) => {
            let mut r = owned_string("Tag(");
            let dh = str_debug(h.as_str());
            push_str(&mut r, dh.as_str());
            push_str(&mut r, ", ");
            let dt = str_debug(t.as_str());
            push_str(&mut r, dt.as_str());
            push_str(&mut r, ")");
            r
        },
        TokenKind::Scalar(st, v) => {
            let mut r = owned_string("Scalar(");
            let sn = style_text(*st);
            push_str(&mut r, sn.as_str());
            push_str(&mut r, ", ");
            let dv = str_debug(v.as_str());
            push_str(&mut r, dv.as_str());
            push_str(&mut r, ")");
            r
        },
    }
}

/// How many steps a state can take on the next token `t` without
/// consuming it (before the next step that does), not counting the
/// collections it may close on the way.
pub open spec fn rank(s: State, t: Option<TokenTag>) -> nat {
    let is = |x: TokenTag| t == Some(x);
    match s {
        State::ImplicitDocumentStart => 4,
        State::DocumentStart => if is(TokenTag::DocumentStart) || is(TokenTag::StreamEnd) || is(
            TokenTag::DocumentEnd,
        ) {
            0
        } else {
            1
        },
        State::DocumentEnd => if is(TokenTag::DocumentEnd) {
            0
        } else if is(TokenTag::DocumentStart) || is(TokenTag::StreamEnd) {
            1
        } else {
            2
        },
        State::DocumentContent => if is(TokenTag::DocumentStart) || is(TokenTag::StreamEnd) {
            2
        } else if is(TokenTag::DocumentEnd) {
            1
        } else {
            0
        },
        State::BlockMappingFirstKey | State::BlockMappingKey => if is(TokenTag::Value) {
            1
        } else {
            0
        },
        State::BlockMappingValue => if is(TokenTag::Value) {
            0
        } else {
            1
        },
        State::FlowSequenceFirstEntry => if is(TokenTag::Value) {
            4
        } else {
            0
        },
        State::FlowSequenceEntryMappingKey => if is(TokenTag::Value) {
            1
        } else if is(TokenTag::FlowEntry) || is(TokenTag::FlowSequenceEnd) {
            2
        } else {
            0
        },
        State::FlowSequenceEntryMappingValue => if is(TokenTag::Value) {
            0
        } else {
            1
        },
        State::FlowMappingFirstKey => if is(TokenTag::Value) {
            1
        } else {
            0
        },
        State::FlowMappingValue => if is(TokenTag::Value) {
            0
        } else {
            1
        },
        State::FlowMappingEmptyValue => 1,
        _ => 0,
    }
}

/// Tokens that can begin a node: its anchor or tag, an alias, a scalar, or
/// the start of a collection (block collections where `block` admits them).
pub open spec fn starts_node(t: TokenTag, block: bool) -> bool {
    ||| t == TokenTag::Anchor
    ||| t == TokenTag::Tag
    ||| t == TokenTag::Alias
    ||| t == TokenTag::Scalar
    ||| t == TokenTag::FlowSequenceStart
    ||| t == TokenTag::FlowMappingStart
    ||| block && (t == TokenTag::BlockSequenceStart || t == TokenTag::BlockMappingStart)
}

/// The tokens that a state refuses as the first one it reads.
pub open spec fn rejects(s: State, t: TokenTag) -> bool {
    match s {
        State::BlockSequenceFirstEntry | State::BlockSequenceEntry => t != TokenTag::BlockEntry
            && t != TokenTag::BlockEnd,
        State::BlockMappingFirstKey | State::BlockMappingKey => t != TokenTag::Key && t
            != TokenTag::BlockEnd && t != TokenTag::Value && t != TokenTag::BlockSequenceStart && t
            != TokenTag::BlockEntry && t != TokenTag::BlockMappingStart,
        State::FlowSequenceEntry => t != TokenTag::FlowEntry && t != TokenTag::FlowSequenceEnd,
        State::FlowMappingKey => t != TokenTag::FlowEntry && t != TokenTag::FlowMappingEnd,
        _ => false,
    }
}

/// The anchor a token kind names, if it is an anchor.
pub open spec fn anchor_name(k: TokenKind) -> Option<String> {
    match k {
        TokenKind::Anchor(n) => Some(n),
        _ => None,
    }
}

/// The handle and suffix a token kind holds, if it is a tag.
pub open spec fn tag_parts(k: TokenKind) -> Option<(String, String)> {
    match k {
        TokenKind::Tag(h, t) => Some((h, t)),
        _ => None,
    }
}

/// Where the anchor and tag written before the node at `p` end: an
/// anchor and a tag, in either order, each at most once.
pub open spec fn decor_end(toks: Seq<Token>, p: int) -> int {
    let k = toks[p].kind;
    if k is Anchor {
        if p + 1 < toks.len() && toks[p + 1].kind is Tag { p + 2 } else { p + 1 }
    } else if k is Tag {
        if p + 1 < toks.len() && toks[p + 1].kind is Anchor { p + 2 } else { p + 1 }
    } else {
        p
    }
}

/// The anchor written before the node at `p`, if any.
pub open spec fn decor_anchor(toks: Seq<Token>, p: int) -> Option<String> {
    if toks[p].kind is Anchor {
        anchor_name(toks[p].kind)
    } else if toks[p].kind is Tag && p + 1 < toks.len() && toks[p + 1].kind is Anchor {
        anchor_name(toks[p + 1].kind)
    } else {
        None
    }
}

/// The tag written before the node at `p`, if any.
pub open spec fn decor_tag(toks: Seq<Token>, p: int) -> Option<(String, String)> {
    if toks[p].kind is Tag {
        tag_parts(toks[p].kind)
    } else if toks[p].kind is Anchor && p + 1 < toks.len() && toks[p + 1].kind is Tag {
        tag_parts(toks[p + 1].kind)
    } else {
        None
    }
}

/// The parser's next state `ns` and stack `nss` once the top of the
/// stack `s` is taken back (the end state where the stack is empty).
pub open spec fn popped(s: Seq<State>, ns: State, nss: Seq<State>) -> bool {
    if s.len() > 0 {
        ns == s.last() && nss == s.drop_last()
    } else {
        ns == State::End && nss == s
    }
}

/// The parser goes on in state `x` with the stack `s` unchanged.
pub open spec fn goes_to(s: Seq<State>, x: State, ns: State, nss: Seq<State>) -> bool {
    ns == x && nss == s
}

/// `ev` is the event that the node at `p` of `toks` gives, and `e` the
/// position after what it consumes: an alias; a scalar, or the start of
/// a flow collection (or, where `block`, of a block collection), with
/// the anchor and tag written before it; a sequence of `-` entries
/// standing at the mapping's indentation (where `indentless` or
/// decorated); otherwise, where decorated or `indentless`, an empty
/// plain scalar at the node's first token. A complete node returns to
/// the state on top of the stack `s`; a collection's start goes on in
/// the state that reads its first entry.
pub open spec fn node_result(
    toks: Seq<Token>,
    p: int,
    block: bool,
    indentless: bool,
    ev: Event,
    e: int,
    s: Seq<State>,
    ns: State,
    nss: Seq<State>,
) -> bool {
    let q = decor_end(toks, p);
    let a = decor_anchor(toks, p);
    let t = decor_tag(toks, p);
    let decorated = a is Some || t is Some;
    &&& 0 <= p < toks.len()
    &&& q < toks.len()
    &&& {
        let k = toks[q].kind;
        let sp = toks[q].span;
        if k is Alias {
            ev == Event::Alias { anchor: k->Alias_0, span: sp } && e == q + 1 && popped(s, ns, nss)
        } else if k is Scalar {
            ev == Event::Scalar {
                value: k->Scalar_1,
                style: k->Scalar_0,
                anchor: a,
                tag: t,
                span: sp,
            } && e == q + 1 && popped(s, ns, nss)
        } else if k is FlowSequenceStart {
            ev == Event::SequenceStart { anchor: a, tag: t, span: sp } && e == q + 1 && goes_to(
                s,
                State::FlowSequenceFirstEntry,
                ns,
                nss,
            )
        } else if block && k is BlockSequenceStart {
            ev == Event::SequenceStart { anchor: a, tag: t, span: sp } && e == q + 1 && goes_to(
                s,
                State::BlockSequenceFirstEntry,
                ns,
                nss,
            )
        } else if k is FlowMappingStart {
            ev == Event::MappingStart { anchor: a, tag: t, span: sp } && e == q + 1 && goes_to(
                s,
                State::FlowMappingFirstKey,
                ns,
                nss,
            )
        } else if block && k is BlockMappingStart {
            ev == Event::MappingStart { anchor: a, tag: t, span: sp } && e == q + 1 && goes_to(
                s,
                State::BlockMappingFirstKey,
                ns,
                nss,
            )
        } else if k is BlockEntry && (indentless || decorated) {
            ev == Event::SequenceStart { anchor: a, tag: t, span: sp } && e == q && goes_to(
                s,
                State::IndentlessSequenceEntry,
                ns,
                nss,
            )
        } else if decorated || indentless {
            &&& ev matches Event::Scalar { value, style, anchor, tag, span }
            &&& value@ == Seq::<char>::empty()
            &&& style == ScalarStyle::Plain
            &&& anchor == a
            &&& tag == t
            &&& span == toks[p].span
            &&& e == q
            &&& popped(s, ns, nss)
        } else {
            false
        }
    }
}

/// `ev` is an empty plain scalar, with no anchor or tag, at `sp`.
pub open spec fn empty_at(ev: Event, sp: Span) -> bool {
    &&& ev matches Event::Scalar { value, style, anchor, tag, span }
    &&& value@ == Seq::<char>::empty()
    &&& style == ScalarStyle::Plain
    &&& anchor is None
    &&& tag is None
    &&& span == sp
}

/// The first position from `p` that is not a document end marker.
pub open spec fn past_doc_ends(toks: Seq<Token>, p: int) -> int
    decreases toks.len() - p,
{
    if 0 <= p < toks.len() && toks[p].kind is DocumentEnd {
        past_doc_ends(toks, p + 1)
    } else {
        p
    }
}

/// The event a document start gives: the stream's end where it comes
/// after the document end markers (the parser then ends), else a
/// document start, explicit (`---`, whose content comes next) or, where
/// `implicit`, not (its root node comes next, a document end after it).
pub open spec fn doc_start_event(
    toks: Seq<Token>,
    p: int,
    implicit: bool,
    ev: Event,
    e: int,
    s: Seq<State>,
    ns: State,
    nss: Seq<State>,
) -> bool {
    let q = past_doc_ends(toks, p);
    q < toks.len() && if toks[q].kind is StreamEnd {
        ev is StreamEnd && e == q + 1 && goes_to(s, State::End, ns, nss)
    } else if toks[q].kind is DocumentStart {
        ev is DocumentStart && e == q + 1 && goes_to(s, State::DocumentContent, ns, nss)
    } else if !implicit {
        ev is DocumentStart && e == q && goes_to(s, State::DocumentContent, ns, nss)
    } else {
        ev is DocumentStart && e == q && ns == State::BlockNode && nss == s.push(State::DocumentEnd)
    }
}

/// A block sequence entry or its end.
pub open spec fn block_seq_event(
    toks: Seq<Token>,
    p: int,
    ev: Event,
    e: int,
    s: Seq<State>,
    ns: State,
    nss: Seq<State>,
) -> bool {
    0 <= p < toks.len() && if toks[p].kind is BlockEntry {
        p + 1 < toks.len() && if toks[p + 1].kind is BlockEntry || toks[p + 1].kind is BlockEnd {
            empty_at(ev, toks[p].span) && e == p + 1 && goes_to(s, State::BlockSequenceEntry, ns, nss)
        } else {
            node_result(toks, p + 1, true, false, ev, e, s.push(State::BlockSequenceEntry), ns, nss)
        }
    } else {
        toks[p].kind is BlockEnd && ev == Event::SequenceEnd { span: toks[p].span } && e == p + 1 && popped(
            s,
            ns,
            nss,
        )
    }
}

/// An entry of a sequence whose `-` stand at the mapping's indentation,
/// or its end.
pub open spec fn indentless_event(
    toks: Seq<Token>,
    p: int,
    ev: Event,
    e: int,
    s: Seq<State>,
    ns: State,
    nss: Seq<State>,
) -> bool {
    0 <= p < toks.len() && if toks[p].kind is BlockEntry {
        p + 1 < toks.len() && {
            let n = toks[p + 1].kind;
            if n is BlockEntry || n is Key || n is Value || n is BlockEnd {
                empty_at(ev, toks[p].span) && e == p + 1 && goes_to(s, State::IndentlessSequenceEntry, ns, nss)
            } else {
                node_result(
                    toks,
                    p + 1,
                    true,
                    false,
                    ev,
                    e,
                    s.push(State::IndentlessSequenceEntry),
                    ns,
                    nss,
                )
            }
        }
    } else {
        ev == Event::SequenceEnd { span: toks[p].span } && e == p && popped(s, ns, nss)
    }
}

/// A block mapping key or the mapping's end.
pub open spec fn block_key_event(
    toks: Seq<Token>,
    p: int,
    ev: Event,
    e: int,
    s: Seq<State>,
    ns: State,
    nss: Seq<State>,
) -> bool {
    0 <= p < toks.len() && {
        let k = toks[p].kind;
        if k is Key {
            p + 1 < toks.len() && {
                let n = toks[p + 1].kind;
                if n is Key || n is Value || n is BlockEnd {
                    empty_at(ev, toks[p].span) && e == p + 1 && goes_to(s, State::BlockMappingValue, ns, nss)
                } else {
                    node_result(toks, p + 1, true, true, ev, e, s.push(State::BlockMappingValue), ns, nss)
                }
            }
        } else if k is Value {
            empty_at(ev, toks[p].span) && e == p && goes_to(s, State::BlockMappingValue, ns, nss)
        } else {
            (k is BlockEnd || k is BlockSequenceStart || k is BlockEntry || k is BlockMappingStart)
                && ev == Event::MappingEnd { span: toks[p].span } && e == (if k is BlockEnd {
                p + 1
            } else {
                p
            }) && popped(s, ns, nss)
        }
    }
}

/// A block mapping value, empty where none is written.
pub open spec fn block_value_event(
    toks: Seq<Token>,
    p: int,
    ev: Event,
    e: int,
    s: Seq<State>,
    ns: State,
    nss: Seq<State>,
) -> bool {
    0 <= p < toks.len() && if toks[p].kind is Value {
        p + 1 < toks.len() && {
            let n = toks[p + 1].kind;
            if n is Key || n is Value || n is BlockEnd {
                empty_at(ev, toks[p].span) && e == p + 1 && goes_to(s, State::BlockMappingKey, ns, nss)
            } else {
                node_result(toks, p + 1, true, true, ev, e, s.push(State::BlockMappingKey), ns, nss)
            }
        }
    } else {
        empty_at(ev, toks[p].span) && e == p && goes_to(s, State::BlockMappingKey, ns, nss)
    }
}

/// A flow sequence entry or its end, from `p` (past any `,`); a key or
/// `:` there opens a mapping of one pair.
pub open spec fn flow_seq_event(
    toks: Seq<Token>,
    p: int,
    ev: Event,
    e: int,
    s: Seq<State>,
    ns: State,
    nss: Seq<State>,
) -> bool {
    0 <= p < toks.len() && {
        let k = toks[p].kind;
        if k is FlowSequenceEnd {
            ev == Event::SequenceEnd { span: toks[p].span } && e == p + 1 && popped(s, ns, nss)
        } else if k is Key {
            ev == Event::MappingStart { anchor: None, tag: None, span: toks[p].span } && e == p + 1
                && ns == State::FlowSequenceEntryMappingKey && nss == s.push(State::FlowSequenceEntry)
        } else if k is Value {
            ev == Event::MappingStart { anchor: None, tag: None, span: toks[p].span } && e == p
                && ns == State::FlowSequenceEntryMappingValue && nss == s.push(State::FlowSequenceEntry)
        } else {
            node_result(toks, p, false, false, ev, e, s.push(State::FlowSequenceEntry), ns, nss)
        }
    }
}

/// Where an entry of a flow collection begins: past the `,` that must
/// come before every entry but the first.
pub open spec fn past_comma(toks: Seq<Token>, p: int, first: bool) -> int {
    if !first && 0 <= p < toks.len() && toks[p].kind is FlowEntry {
        p + 1
    } else {
        p
    }
}

/// A flow mapping key or the mapping's end, from `p` (past any `,`).
pub open spec fn flow_key_event(
    toks: Seq<Token>,
    p: int,
    ev: Event,
    e: int,
    s: Seq<State>,
    ns: State,
    nss: Seq<State>,
) -> bool {
    0 <= p < toks.len() && {
        let k = toks[p].kind;
        if k is FlowMappingEnd {
            ev == Event::MappingEnd { span: toks[p].span } && e == p + 1 && popped(s, ns, nss)
        } else if k is Key {
            p + 1 < toks.len() && {
                let n = toks[p + 1].kind;
                if n is Value || n is FlowEntry || n is FlowMappingEnd {
                    empty_at(ev, toks[p + 1].span) && e == p + 1 && goes_to(s, State::FlowMappingValue, ns, nss)
                } else {
                    node_result(toks, p + 1, false, false, ev, e, s.push(State::FlowMappingValue), ns, nss)
                }
            }
        } else if k is Value {
            empty_at(ev, toks[p].span) && e == p && goes_to(s, State::FlowMappingValue, ns, nss)
        } else {
            node_result(toks, p, false, false, ev, e, s.push(State::FlowMappingEmptyValue), ns, nss)
        }
    }
}

/// The value after a `:` in flow context, empty where none is written
/// (`map_end` tells that a `}`, not a `]`, closes the collection); then
/// the parser goes on in `next`.
pub open spec fn flow_value_event(
    toks: Seq<Token>,
    p: int,
    ev: Event,
    e: int,
    map_end: bool,
    next: State,
    s: Seq<State>,
    ns: State,
    nss: Seq<State>,
) -> bool {
    0 <= p < toks.len() && if toks[p].kind is Value && p + 1 < toks.len() && !(toks[p
        + 1].kind is FlowEntry) && !(if map_end {
        toks[p + 1].kind is FlowMappingEnd
    } else {
        toks[p + 1].kind is FlowSequenceEnd
    }) {
        node_result(toks, p + 1, false, false, ev, e, s.push(next), ns, nss)
    } else {
        (toks[p].kind is Value ==> p + 1 < toks.len()) && empty_at(ev, toks[p].span) && e == (if toks[p].kind is Value {
            p + 1
        } else {
            p
        }) && goes_to(
            s,
            next,
            ns,
            nss,
        )
    }
}

/// The key of a one-pair mapping inside a flow sequence.
pub open spec fn flow_pair_key_event(
    toks: Seq<Token>,
    p: int,
    ev: Event,
    e: int,
    s: Seq<State>,
    ns: State,
    nss: Seq<State>,
) -> bool {
    0 <= p < toks.len() && {
        let k = toks[p].kind;
        if k is Value || k is FlowEntry || k is FlowSequenceEnd {
            empty_at(ev, toks[p].span) && e == p && goes_to(s, State::FlowSequenceEntryMappingValue, ns, nss)
        } else {
            node_result(
                toks,
                p,
                false,
                false,
                ev,
                e,
                s.push(State::FlowSequenceEntryMappingValue),
                ns,
                nss,
            )
        }
    }
}

/// The content of an explicit document: its root node, or an empty
/// scalar where it holds none; a document end comes after it.
pub open spec fn doc_content_event(
    toks: Seq<Token>,
    p: int,
    ev: Event,
    e: int,
    s: Seq<State>,
    ns: State,
    nss: Seq<State>,
) -> bool {
    0 <= p < toks.len() && {
        let k = toks[p].kind;
        if k is DocumentEnd || k is DocumentStart || k is StreamEnd {
            empty_at(ev, toks[p].span) && e == p && goes_to(s, State::DocumentEnd, ns, nss)
        } else {
            node_result(toks, p, true, false, ev, e, s.push(State::DocumentEnd), ns, nss)
        }
    }
}

/// The event parser over a scanned token stream. `end` is what the
/// scanner reports past its last token: the error that stopped it, or
/// the end of the token stream.
pub struct Parser {
    tokens: Vec<Token>,
    end: ScanError,
    pos: usize,
    states: Vec<State>,
    state: State,
}

impl Parser {
    /// The stack is in the shape its state needs.
    pub closed spec fn wf(&self) -> bool {
        stack_ok(self.states@, self.state) && self.pos <= self.tokens@.len()
    }

    /// The collections open after the events returned so far.
    pub closed spec fn open(&self) -> Seq<bool> {
        open_collections(self.states@, self.state)
    }

    /// The token stream being parsed.
    pub closed spec fn input(&self) -> Seq<Token> {
        self.tokens@
    }

    /// What the scanner reported past the last token.
    pub closed spec fn end_report(&self) -> ScanError {
        self.end
    }

    /// The states to return to, innermost last.
    pub closed spec fn stack(&self) -> Seq<State> {
        self.states@
    }

    /// The state the parser is in.
    pub closed spec fn phase(&self) -> State {
        self.state
    }

    /// How many tokens have been consumed.
    pub closed spec fn consumed(&self) -> nat {
        self.pos as nat
    }

    /// How many tokens are left.
    pub closed spec fn remaining(&self) -> nat {
        if self.pos <= self.tokens@.len() {
            (self.tokens@.len() - self.pos) as nat
        } else {
            0
        }
    }

    /// The tag of the next token, if any is left.
    pub closed spec fn next_tag(&self) -> Option<TokenTag> {
        if self.pos < self.tokens@.len() {
            Some(tag_of(self.tokens@[self.pos as int].kind))
        } else {
            None
        }
    }

    /// A bound on the steps before the next token is consumed: three per
    /// open collection, and the state's [`rank`].
    pub closed spec fn potential(&self) -> nat {
        3 * self.states@.len() + rank(self.state, self.next_tag())
    }

    /// A successful step from a well-formed parser consumes a token, or
    /// consumes none and lowers the potential.
    pub open spec fn progressed(old: Parser, new: Parser, r: Result<Event, ScanError>) -> bool {
        old.wf() && r is Ok ==> new.remaining() < old.remaining() || (new.remaining()
            == old.remaining() && new.potential() < old.potential())
    }

    /// `ev` is the event that a step from `old` returns, `new` the parser
    /// after it: what the state `old` is in reads from the tokens at
    /// its position, and the state and stack it goes on with.
    pub open spec fn event_step(old: Parser, ev: Event, new: Parser) -> bool {
        let t = old.input();
        let p = old.consumed() as int;
        let e = new.consumed() as int;
        let s = old.stack();
        let ns = new.phase();
        let nss = new.stack();
        match old.phase() {
            State::StreamStart => ev is StreamStart && e == p + 1 && goes_to(
                s,
                State::ImplicitDocumentStart,
                ns,
                nss,
            ),
            State::ImplicitDocumentStart => doc_start_event(t, p, true, ev, e, s, ns, nss),
            State::DocumentStart => doc_start_event(t, p, false, ev, e, s, ns, nss),
            State::DocumentContent => doc_content_event(t, p, ev, e, s, ns, nss),
            State::DocumentEnd => ev is DocumentEnd && 0 <= p < t.len() && e == (if t[p].kind is DocumentEnd {
                p + 1
            } else {
                p
            }) && goes_to(s, State::DocumentStart, ns, nss),
            State::BlockNode => node_result(t, p, true, false, ev, e, s, ns, nss),
            State::BlockSequenceFirstEntry | State::BlockSequenceEntry => block_seq_event(
                t,
                p,
                ev,
                e,
                s,
                ns,
                nss,
            ),
            State::IndentlessSequenceEntry => indentless_event(t, p, ev, e, s, ns, nss),
            State::BlockMappingFirstKey | State::BlockMappingKey => block_key_event(
                t,
                p,
                ev,
                e,
                s,
                ns,
                nss,
            ),
            State::BlockMappingValue => block_value_event(t, p, ev, e, s, ns, nss),
            State::FlowSequenceFirstEntry => flow_seq_event(t, past_comma(t, p, true), ev, e, s, ns, nss),
            State::FlowSequenceEntry => flow_seq_event(t, past_comma(t, p, false), ev, e, s, ns, nss),
            State::FlowSequenceEntryMappingKey => flow_pair_key_event(t, p, ev, e, s, ns, nss),
            State::FlowSequenceEntryMappingValue => flow_value_event(
                t,
                p,
                ev,
                e,
                false,
                State::FlowSequenceEntryMappingEnd,
                s,
                ns,
                nss,
            ),
            State::FlowSequenceEntryMappingEnd => 0 <= p < t.len() && ev == (Event::MappingEnd {
                span: t[p].span,
            }) && e == p && popped(s, ns, nss),
            State::FlowMappingFirstKey => flow_key_event(t, past_comma(t, p, true), ev, e, s, ns, nss),
            State::FlowMappingKey => flow_key_event(t, past_comma(t, p, false), ev, e, s, ns, nss),
            State::FlowMappingValue => flow_value_event(t, p, ev, e, true, State::FlowMappingKey, s, ns, nss),
            State::FlowMappingEmptyValue => 0 <= p < t.len() && empty_at(ev, t[p].span) && e == p && goes_to(
                s,
                State::FlowMappingKey,
                ns,
                nss,
            ),
            State::End => false,
        }
    }

    /// A successful step keeps the stack in shape and returns a well
    /// placed event.
    pub open spec fn stepped(old: Parser, new: Parser, r: Result<Event, ScanError>) -> bool {
        old.wf() ==> (r matches Ok(ev) ==> new.wf() && after_event(old.open(), ev) == Some(
            new.open(),
        ))
    }

    closed spec fn same_input(old: Parser, new: Parser) -> bool {
        &&& new.tokens == old.tokens
        &&& new.end == old.end
        &&& new.pos >= old.pos
        &&& old.pos <= old.tokens@.len() ==> new.pos <= new.tokens@.len()
    }

    /// A parser at the start of the stream of `tokens`; `end` is what the
    /// scanner reports past them.
    pub fn new(tokens: Vec<Token>, end: ScanError) -> (p: Self)
        ensures
            p.wf(),
            p.open() == Seq::<bool>::empty(),
            p.consumed() == 0,
            p.input() == tokens@,
            p.end_report() == end,
            p.phase() == State::StreamStart,
            p.stack() == Seq::<State>::empty(),
    {
        Parser { tokens, end, pos: 0, states: Vec::new(), state: State::StreamStart }
    }

    /// The tag and span of the next token, or what the scanner reports
    /// past the last one.
    fn peek(&self) -> (r: Result<(TokenTag, Span), ScanError>)
        ensures
            match r {
                Ok((t, sp)) => self.pos < self.tokens@.len() && t == tag_of(
                    self.tokens@[self.pos as int].kind,
                ) && sp == self.tokens@[self.pos as int].span,
                Err(_) => self.pos >= self.tokens@.len(),
            },
    {
        if self.pos < self.tokens.len() {
            let t = &self.tokens[self.pos];
            Ok((tag(&t.kind), t.span))
        } else {
            Err(self.end.clone())
        }
    }

    /// Consume the next token.
    fn take(&mut self) -> (r: Result<Token, ScanError>)
        ensures
            final(self).states == old(self).states,
            final(self).state == old(self).state,
            Self::same_input(*old(self), *final(self)),
            match r {
                Ok(t) => old(self).pos < old(self).tokens@.len() && t == old(self).tokens@[old(
                    self,
                ).pos as int] && final(self).pos == old(self).pos + 1,
                Err(e) => old(self).pos >= old(self).tokens@.len() && e == old(self).end
                    && final(self).pos == old(self).pos,
            },
    {
        if self.pos < self.tokens.len() {
            let t = self.tokens[self.pos].clone();
            self.pos = self.pos + 1;
            Ok(t)
        } else {
            Err(self.end.clone())
        }
    }

    /// Consume the next token, discarding it.
    fn skip(&mut self) -> (r: Result<(), ScanError>)
        ensures
            final(self).states == old(self).states,
            final(self).state == old(self).state,
            Self::same_input(*old(self), *final(self)),
            r is Ok ==> final(self).pos == old(self).pos + 1,
            r is Ok <==> old(self).pos < old(self).tokens@.len(),
            r is Err ==> final(self).pos == old(self).pos,
    {
        let _ = self.take()?;
        Ok(())
    }

    /// The state on top of the stack, removed; the end state when the
    /// stack is empty.
    fn pop_state(&mut self) -> (s: State)
        ensures
            old(self).states@.len() > 0 ==> s == old(self).states@.last() && final(self).states@
                == old(self).states@.drop_last(),
            old(self).states@.len() == 0 ==> s == State::End && final(self).states@ == old(
                self,
            ).states@,
            final(self).state == old(self).state,
            Self::same_input(*old(self), *final(self)),
            final(self).pos == old(self).pos,
    {
        match self.states.pop() {
            Some(s) => s,
            None => State::End,
        }
    }

    /// An empty plain scalar at `span`.
    fn empty_scalar(span: Span) -> (e: Event)
        ensures
            e is Scalar,
            e matches Event::Scalar { value, style, anchor, tag, span: sp } && value@ == Seq::<
                char,
            >::empty() && style == ScalarStyle::Plain && anchor is None && tag is None && sp == span,
    {
        Event::Scalar {
            value: String::new(),
            style: ScalarStyle::Plain,
            anchor: None,
            tag: None,
            span,
        }
    }

    /// A parse error at `index`.
    fn error(message: &str, index: usize) -> (e: ScanError)
        ensures
            e.message@ == message@,
            e.index == index,
    {
        ScanError { message: owned_string(message), index }
    }

    /// A node: an alias, a scalar, or the start of a collection, with the
    /// anchor and tag written before it. `block` admits block collections,
    /// `indentless` an empty node and a sequence whose entries stand at
    /// the indentation of the enclosing mapping.
    #[verifier::rlimit(80)]
    fn parse_node(&mut self, block: bool, indentless: bool) -> (r: Result<Event, ScanError>)
        ensures
            Self::same_input(*old(self), *final(self)),
            r is Ok && !indentless ==> final(self).pos > old(self).pos,
            old(self).states@.len() > 0 ==> (r matches Ok(ev) ==> node_step(
                old(self).states@,
                final(self).states@,
                final(self).state,
                ev,
            )),
            r is Err ==> final(self).next_tag() is None || (!indentless && final(self).pos == old(self).pos
                && (final(self).next_tag() matches Some(t) && !starts_node(t, block))),
            r matches Ok(ev) ==> node_result(
                old(self).tokens@,
                old(self).pos as int,
                block,
                indentless,
                ev,
                final(self).pos as int,
                old(self).states@,
                final(self).state,
                final(self).states@,
            ),
            r matches Err(e) ==> (final(self).next_tag() is Some ==> e.message@
                == "expected a node but found "@ + kind_debug(final(self).tokens@[final(self).pos as int].kind)
                && e.index == final(self).tokens@[final(self).pos as int].span.start),
    {
        let ghost toks = self.tokens@;
        let ghost p0 = self.pos as int;
        let (_, span) = self.peek()?;
        let mut anchor: Option<String> = None;
        let mut tag: Option<(String, String)> = None;
        let (first, _) = self.peek()?;
        if first == TokenTag::Anchor {
            let tok = self.take()?;
            if let TokenKind::Anchor(name) = tok.kind {
                anchor = Some(name);
            }
            let (next, _) = self.peek()?;
            if next == TokenTag::Tag {
                let tok = self.take()?;
                if let TokenKind::Tag(h, s) = tok.kind {
                    tag = Some((h, s));
                }
            }
        } else if first == TokenTag::Tag {
            let tok = self.take()?;
            if let TokenKind::Tag(h, s) = tok.kind {
                tag = Some((h, s));
            }
            let (next, _) = self.peek()?;
            if next == TokenTag::Anchor {
                let tok = self.take()?;
                if let TokenKind::Anchor(name) = tok.kind {
                    anchor = Some(name);
                }
            }
        }
        assert(self.tokens@ == toks);
        assert(self.pos == decor_end(toks, p0));
        assert(anchor == decor_anchor(toks, p0));
        assert(tag == decor_tag(toks, p0));
        assert(span == toks[p0].span);
        let (t, _) = self.peek()?;
        if t == TokenTag::Alias {
            let tok = self.take()?;
            assert(tok == toks[decor_end(toks, p0)]);
            if let TokenKind::Alias(name) = tok.kind {
                let s = self.pop_state();
                self.state = s;
                return Ok(Event::Alias { anchor: name, span: tok.span });
            }
        }
        let (t, tok_span) = self.peek()?;
        let decorated = anchor.is_some() || tag.is_some();
        match t {
            TokenTag::Scalar => {
                let tok = self.take()?;
                match tok.kind {
                    TokenKind::Scalar(style, value) => {
                        let s = self.pop_state();
                        self.state = s;
                        Ok(Event::Scalar { value, style, anchor, tag, span: tok.span })
                    },
                    _ => Err(Self::error("expected a scalar token", tok.span.start)),
                }
            },
            TokenTag::FlowSequenceStart => {
                self.skip()?;
                self.state = State::FlowSequenceFirstEntry;
                Ok(Event::SequenceStart { anchor, tag, span: tok_span })
            },
            TokenTag::FlowMappingStart => {
                self.skip()?;
                self.state = State::FlowMappingFirstKey;
                Ok(Event::MappingStart { anchor, tag, span: tok_span })
            },
            TokenTag::BlockSequenceStart if block => {
                self.skip()?;
                self.state = State::BlockSequenceFirstEntry;
                Ok(Event::SequenceStart { anchor, tag, span: tok_span })
            },
            TokenTag::BlockMappingStart if block => {
                self.skip()?;
                self.state = State::BlockMappingFirstKey;
                Ok(Event::MappingStart { anchor, tag, span: tok_span })
            },
            TokenTag::BlockEntry if indentless || decorated => {
                self.state = State::IndentlessSequenceEntry;
                Ok(Event::SequenceStart { anchor, tag, span: tok_span })
            },
            _ => {
                if decorated {
                    let s = self.pop_state();
                    self.state = s;
                    Ok(
                        Event::Scalar {
                            value: String::new(),
                            style: ScalarStyle::Plain,
                            anchor,
                            tag,
                            span,
                        },
                    )
                } else if indentless {
                    let s = self.pop_state();
                    self.state = s;
                    Ok(Self::empty_scalar(span))
                } else {
                    let mut message = owned_string("expected a node but found ");
                    let found = kind_debug_text(&self.tokens[self.pos].kind);
                    push_str(&mut message, found.as_str());
                    Err(ScanError { message, index: span.start })
                }
            },
        }
    }

    fn parse_stream_start(&mut self) -> (r: Result<Event, ScanError>)
        requires
            old(self).state == State::StreamStart,
        ensures
            Self::stepped(*old(self), *final(self), r),
            Self::progressed(*old(self), *final(self), r),
            Self::same_input(*old(self), *final(self)),
            r is Ok <==> old(self).pos < old(self).tokens@.len(),
            r matches Ok(ev) ==> ev is StreamStart && final(self).pos == old(self).pos + 1 && goes_to(old(self).states@, State::ImplicitDocumentStart, final(self).state, final(self).states@),
    {
        self.skip()?;
        self.state = State::ImplicitDocumentStart;
        Ok(Event::StreamStart)
    }

    /// The start of a document, explicit (`---`) or, where `implicit`,
    /// not; or the end of the stream. Document end markers before it are
    /// skipped.
    fn parse_document_start(&mut self, implicit: bool) -> (r: Result<Event, ScanError>)
        requires
            old(self).state == State::ImplicitDocumentStart || old(self).state
                == State::DocumentStart,
            implicit == (old(self).state == State::ImplicitDocumentStart),
        ensures
            Self::stepped(*old(self), *final(self), r),
            Self::progressed(*old(self), *final(self), r),
            Self::same_input(*old(self), *final(self)),
            r is Err ==> final(self).next_tag() is None,
            r matches Ok(ev) ==> doc_start_event(old(self).tokens@, old(self).pos as int, implicit, ev, final(self).pos as int, old(self).states@, final(self).state, final(self).states@),
    {
        loop
            invariant
                Self::same_input(*old(self), *self),
                self.states == old(self).states,
                self.state == old(self).state,
                past_doc_ends(self.tokens@, self.pos as int) == past_doc_ends(old(self).tokens@, old(self).pos as int),
            ensures
                Self::same_input(*old(self), *self),
                self.states == old(self).states,
                self.state == old(self).state,
                past_doc_ends(self.tokens@, self.pos as int) == past_doc_ends(old(self).tokens@, old(self).pos as int),
                self.pos < self.tokens@.len(),
                tag_of(self.tokens@[self.pos as int].kind) != TokenTag::DocumentEnd,
            decreases self.tokens@.len() - self.pos,
        {
            let (t, _) = self.peek()?;
            if t != TokenTag::DocumentEnd {
                break;
            }
            self.skip()?;
        }
        let (t, _) = self.peek()?;
        if t == TokenTag::StreamEnd {
            self.skip()?;
            self.state = State::End;
            return Ok(Event::StreamEnd);
        }
        if t == TokenTag::DocumentStart {
            self.skip()?;
            self.state = State::DocumentContent;
            return Ok(Event::DocumentStart);
        }
        if implicit {
            self.state = State::BlockNode;
            self.states.push(State::DocumentEnd);
            proof {
                if old(self).wf() {
                    assert(self.states@ =~= seq![State::DocumentEnd]);
                }
            }
        } else {
            self.state = State::DocumentContent;
        }
        Ok(Event::DocumentStart)
    }

    /// The root node of an explicit document, or an empty scalar where the
    /// document holds none.
    fn parse_document_content(&mut self) -> (r: Result<Event, ScanError>)
        requires
            old(self).state == State::DocumentContent,
        ensures
            Self::stepped(*old(self), *final(self), r),
            Self::progressed(*old(self), *final(self), r),
            Self::same_input(*old(self), *final(self)),
            r is Err ==> final(self).next_tag() is None || (final(self).pos == old(self).pos && (final(self).next_tag() matches Some(t) && !starts_node(t, true))),
            r matches Ok(ev) ==> doc_content_event(old(self).tokens@, old(self).pos as int, ev, final(self).pos as int, old(self).states@, final(self).state, final(self).states@),
    {
        let (t, span) = self.peek()?;
        if t == TokenTag::DocumentEnd || t == TokenTag::DocumentStart || t == TokenTag::StreamEnd {
            self.state = State::DocumentEnd;
            Ok(Self::empty_scalar(span))
        } else {
            let ghost was_wf = self.wf();
            self.states.push(State::DocumentEnd);
            let ghost pushed = self.states@;
            let r = self.parse_node(true, false);
            proof {
                if was_wf {
                    assert(pushed =~= seq![State::DocumentEnd]);
                    lemma_root_node(self.states@, self.state, r);
                }
            }
            r
        }
    }

    /// The end of a document, skipping its `...` marker.
    fn parse_document_end(&mut self) -> (r: Result<Event, ScanError>)
        requires
            old(self).state == State::DocumentEnd,
        ensures
            Self::stepped(*old(self), *final(self), r),
            Self::progressed(*old(self), *final(self), r),
            Self::same_input(*old(self), *final(self)),
            r is Ok <==> old(self).pos < old(self).tokens@.len(),
            r matches Ok(ev) ==> ev is DocumentEnd && old(self).pos < old(self).tokens@.len() && final(self).pos == (if old(self).tokens@[old(self).pos as int].kind is DocumentEnd {
                old(self).pos + 1
            } else {
                old(self).pos as int
            }) && goes_to(old(self).states@, State::DocumentStart, final(self).state, final(self).states@),
    {
        let (t, _) = self.peek()?;
        if t == TokenTag::DocumentEnd {
            self.skip()?;
        }
        self.state = State::DocumentStart;
        Ok(Event::DocumentEnd)
    }

    /// An entry of a block sequence, or its end.
    fn parse_block_sequence_entry(&mut self, _first: bool) -> (r: Result<Event, ScanError>)
        requires
            old(self).state == State::BlockSequenceFirstEntry || old(self).state
                == State::BlockSequenceEntry,
        ensures
            Self::stepped(*old(self), *final(self), r),
            Self::progressed(*old(self), *final(self), r),
            Self::same_input(*old(self), *final(self)),
            r is Err ==> final(self).next_tag() is None || (final(self).pos == old(self).pos && (final(self).next_tag() matches Some(t) && rejects(old(self).state, t)))
                || (final(self).pos == old(self).pos + 1 && (final(self).next_tag() matches Some(t) && !starts_node(t, true))),
            r matches Ok(ev) ==> block_seq_event(old(self).tokens@, old(self).pos as int, ev, final(self).pos as int, old(self).states@, final(self).state, final(self).states@),
    {
        let ghost s = self.states@;
        let ghost c = self.state;
        let (t, span) = self.peek()?;
        if t == TokenTag::BlockEntry {
            self.skip()?;
            let (next, _) = self.peek()?;
            if next == TokenTag::BlockEntry || next == TokenTag::BlockEnd {
                self.state = State::BlockSequenceEntry;
                Ok(Self::empty_scalar(span))
            } else {
                self.states.push(State::BlockSequenceEntry);
                let r = self.parse_node(true, false);
                proof {
                    if stack_ok(s, c) {
                        lemma_inner_node(s, c, State::BlockSequenceEntry, self.states@, self.state, r);
                    }
                }
                r
            }
        } else if t == TokenTag::BlockEnd {
            self.skip()?;
            proof {
                if stack_ok(s, c) {
                    lemma_close(s, c);
                }
            }
            let p = self.pop_state();
            self.state = p;
            Ok(Event::SequenceEnd { span })
        } else {
            Err(Self::error("expected block sequence entry or end", span.start))
        }
    }

    /// An entry of a sequence whose `-` stand at the indentation of the
    /// enclosing mapping, or its end.
    fn parse_indentless_sequence_entry(&mut self) -> (r: Result<Event, ScanError>)
        requires
            old(self).state == State::IndentlessSequenceEntry,
        ensures
            Self::stepped(*old(self), *final(self), r),
            Self::progressed(*old(self), *final(self), r),
            Self::same_input(*old(self), *final(self)),
            r is Err ==> final(self).next_tag() is None || (final(self).pos == old(self).pos + 1 && (final(self).next_tag() matches Some(t) && !starts_node(t, true))),
            r matches Ok(ev) ==> indentless_event(old(self).tokens@, old(self).pos as int, ev, final(self).pos as int, old(self).states@, final(self).state, final(self).states@),
    {
        let ghost s = self.states@;
        let ghost c = self.state;
        let (t, span) = self.peek()?;
        if t == TokenTag::BlockEntry {
            self.skip()?;
            let (next, _) = self.peek()?;
            if next == TokenTag::BlockEntry || next == TokenTag::Key || next == TokenTag::Value
                || next == TokenTag::BlockEnd {
                Ok(Self::empty_scalar(span))
            } else {
                self.states.push(State::IndentlessSequenceEntry);
                let r = self.parse_node(true, false);
                proof {
                    if stack_ok(s, c) {
                        lemma_inner_node(s, c, State::IndentlessSequenceEntry, self.states@, self.state, r);
                    }
                }
                r
            }
        } else {
            proof {
                if stack_ok(s, c) {
                    lemma_close(s, c);
                }
            }
            let p = self.pop_state();
            self.state = p;
            Ok(Event::SequenceEnd { span })
        }
    }

    /// A key of a block mapping, or its end.
    fn parse_block_mapping_key(&mut self, _first: bool) -> (r: Result<Event, ScanError>)
        requires
            old(self).state == State::BlockMappingFirstKey || old(self).state
                == State::BlockMappingKey,
        ensures
            Self::stepped(*old(self), *final(self), r),
            Self::progressed(*old(self), *final(self), r),
            Self::same_input(*old(self), *final(self)),
            r is Err ==> final(self).next_tag() is None || (final(self).pos == old(self).pos && (final(self).next_tag() matches Some(t) && rejects(old(self).state, t))),
            r matches Ok(ev) ==> block_key_event(old(self).tokens@, old(self).pos as int, ev, final(self).pos as int, old(self).states@, final(self).state, final(self).states@),
    {
        let ghost s = self.states@;
        let ghost c = self.state;
        let (t, span) = self.peek()?;
        if t == TokenTag::Key {
            self.skip()?;
            let (next, _) = self.peek()?;
            if next == TokenTag::Key || next == TokenTag::Value || next == TokenTag::BlockEnd {
                self.state = State::BlockMappingValue;
                Ok(Self::empty_scalar(span))
            } else {
                self.states.push(State::BlockMappingValue);
                let r = self.parse_node(true, true);
                proof {
                    if stack_ok(s, c) {
                        lemma_inner_node(s, c, State::BlockMappingValue, self.states@, self.state, r);
                    }
                }
                r
            }
        } else if t == TokenTag::BlockEnd {
            self.skip()?;
            proof {
                if stack_ok(s, c) {
                    lemma_close(s, c);
                }
            }
            let p = self.pop_state();
            self.state = p;
            Ok(Event::MappingEnd { span })
        } else if t == TokenTag::Value {
            self.state = State::BlockMappingValue;
            Ok(Self::empty_scalar(span))
        } else if t == TokenTag::BlockSequenceStart || t == TokenTag::BlockEntry || t
            == TokenTag::BlockMappingStart {
            proof {
                if stack_ok(s, c) {
                    lemma_close(s, c);
                }
            }
            let p = self.pop_state();
            self.state = p;
            Ok(Event::MappingEnd { span })
        } else {
            Err(Self::error("expected block mapping key or end", span.start))
        }
    }

    /// The value of a block mapping entry, empty where none is written.
    fn parse_block_mapping_value(&mut self) -> (r: Result<Event, ScanError>)
        requires
            old(self).state == State::BlockMappingValue,
        ensures
            Self::stepped(*old(self), *final(self), r),
            Self::progressed(*old(self), *final(self), r),
            Self::same_input(*old(self), *final(self)),
            r is Err ==> final(self).next_tag() is None,
            r matches Ok(ev) ==> block_value_event(old(self).tokens@, old(self).pos as int, ev, final(self).pos as int, old(self).states@, final(self).state, final(self).states@),
    {
        let ghost s = self.states@;
        let ghost c = self.state;
        let (t, span) = self.peek()?;
        if t == TokenTag::Value {
            self.skip()?;
            let (next, _) = self.peek()?;
            if next == TokenTag::Key || next == TokenTag::Value || next == TokenTag::BlockEnd {
                self.state = State::BlockMappingKey;
                Ok(Self::empty_scalar(span))
            } else {
                self.states.push(State::BlockMappingKey);
                let r = self.parse_node(true, true);
                proof {
                    if stack_ok(s, c) {
                        lemma_inner_node(s, c, State::BlockMappingKey, self.states@, self.state, r);
                    }
                }
                r
            }
        } else {
            self.state = State::BlockMappingKey;
            Ok(Self::empty_scalar(span))
        }
    }

    /// An entry of a flow sequence, or its end. After the first entry a
    /// `,` must come before the next one.
    fn parse_flow_sequence_entry(&mut self, first: bool) -> (r: Result<Event, ScanError>)
        requires
            old(self).state == State::FlowSequenceFirstEntry || old(self).state
                == State::FlowSequenceEntry,
            first == (old(self).state == State::FlowSequenceFirstEntry),
        ensures
            Self::stepped(*old(self), *final(self), r),
            Self::progressed(*old(self), *final(self), r),
            Self::same_input(*old(self), *final(self)),
            r is Err ==> final(self).next_tag() is None || (final(self).pos == old(self).pos && (final(self).next_tag() matches Some(t) && rejects(old(self).state, t)))
                || (final(self).pos <= old(self).pos + 1 && (final(self).next_tag() matches Some(t) && !starts_node(t, false))),
            r matches Ok(ev) ==> flow_seq_event(old(self).tokens@, past_comma(old(self).tokens@, old(self).pos as int, first), ev, final(self).pos as int, old(self).states@, final(self).state, final(self).states@),
    {
        let ghost s = self.states@;
        let ghost c = self.state;
        if !first {
            let (t, span) = self.peek()?;
            if t == TokenTag::FlowEntry {
                self.skip()?;
            } else if t != TokenTag::FlowSequenceEnd {
                return Err(Self::error("expected ',' or ']' in flow sequence", span.start));
            }
        }
        let (t, span) = self.peek()?;
        if t == TokenTag::FlowSequenceEnd {
            self.skip()?;
            proof {
                if stack_ok(s, c) {
                    lemma_close(s, c);
                }
            }
            let p = self.pop_state();
            self.state = p;
            return Ok(Event::SequenceEnd { span });
        }
        if t == TokenTag::Key || t == TokenTag::Value {
            if t == TokenTag::Key {
                self.skip()?;
                self.state = State::FlowSequenceEntryMappingKey;
            } else {
                self.state = State::FlowSequenceEntryMappingValue;
            }
            self.states.push(State::FlowSequenceEntry);
            let r = Ok(Event::MappingStart { anchor: None, tag: None, span });
            proof {
                if stack_ok(s, c) {
                    lemma_inner_node(s, c, State::FlowSequenceEntry, self.states@, self.state, r);
                }
            }
            return r;
        }
        self.states.push(State::FlowSequenceEntry);
        let r = self.parse_node(false, false);
        proof {
            if stack_ok(s, c) {
                lemma_inner_node(s, c, State::FlowSequenceEntry, self.states@, self.state, r);
            }
        }
        r
    }

    /// The key of a single-pair mapping written inside a flow sequence.
    fn parse_flow_sequence_entry_mapping_key(&mut self) -> (r: Result<Event, ScanError>)
        requires
            old(self).state == State::FlowSequenceEntryMappingKey,
        ensures
            Self::stepped(*old(self), *final(self), r),
            Self::progressed(*old(self), *final(self), r),
            Self::same_input(*old(self), *final(self)),
            r is Err ==> final(self).next_tag() is None || (final(self).pos == old(self).pos && (final(self).next_tag() matches Some(t) && !starts_node(t, false))),
            r matches Ok(ev) ==> flow_pair_key_event(old(self).tokens@, old(self).pos as int, ev, final(self).pos as int, old(self).states@, final(self).state, final(self).states@),
    {
        let ghost s = self.states@;
        let ghost c = self.state;
        let (t, span) = self.peek()?;
        if t == TokenTag::Value || t == TokenTag::FlowEntry || t == TokenTag::FlowSequenceEnd {
            self.state = State::FlowSequenceEntryMappingValue;
            Ok(Self::empty_scalar(span))
        } else {
            self.states.push(State::FlowSequenceEntryMappingValue);
            let r = self.parse_node(false, false);
            proof {
                if stack_ok(s, c) {
                    lemma_inner_node(s, c, State::FlowSequenceEntryMappingValue, self.states@, self.state, r);
                }
            }
            r
        }
    }

    /// The value of a single-pair mapping written inside a flow sequence.
    fn parse_flow_sequence_entry_mapping_value(&mut self) -> (r: Result<Event, ScanError>)
        requires
            old(self).state == State::FlowSequenceEntryMappingValue,
        ensures
            Self::stepped(*old(self), *final(self), r),
            Self::progressed(*old(self), *final(self), r),
            Self::same_input(*old(self), *final(self)),
            r is Err ==> final(self).next_tag() is None || (final(self).pos == old(self).pos + 1 && (final(self).next_tag() matches Some(t) && !starts_node(t, false))),
            r matches Ok(ev) ==> flow_value_event(old(self).tokens@, old(self).pos as int, ev, final(self).pos as int, false, State::FlowSequenceEntryMappingEnd, old(self).states@, final(self).state, final(self).states@),
    {
        let ghost s = self.states@;
        let ghost c = self.state;
        let (t, span) = self.peek()?;
        if t == TokenTag::Value {
            self.skip()?;
            let (next, _) = self.peek()?;
            if next != TokenTag::FlowEntry && next != TokenTag::FlowSequenceEnd {
                self.states.push(State::FlowSequenceEntryMappingEnd);
                let r = self.parse_node(false, false);
                proof {
                    if stack_ok(s, c) {
                        lemma_inner_node(s, c, State::FlowSequenceEntryMappingEnd, self.states@, self.state, r);
                    }
                }
                return r;
            }
        }
        self.state = State::FlowSequenceEntryMappingEnd;
        Ok(Self::empty_scalar(span))
    }

    /// The end of a single-pair mapping written inside a flow sequence.
    fn parse_flow_sequence_entry_mapping_end(&mut self) -> (r: Result<Event, ScanError>)
        requires
            old(self).state == State::FlowSequenceEntryMappingEnd,
        ensures
            Self::stepped(*old(self), *final(self), r),
            Self::progressed(*old(self), *final(self), r),
            Self::same_input(*old(self), *final(self)),
            r is Ok <==> old(self).pos < old(self).tokens@.len(),
            r matches Ok(ev) ==> old(self).pos < old(self).tokens@.len() && ev == (Event::MappingEnd { span: old(self).tokens@[old(self).pos as int].span }) && final(self).pos == old(self).pos && popped(old(self).states@, final(self).state, final(self).states@),
    {
        let ghost s = self.states@;
        let ghost c = self.state;
        let (_, span) = self.peek()?;
        proof {
            if stack_ok(s, c) {
                lemma_close(s, c);
            }
        }
        let p = self.pop_state();
        self.state = p;
        Ok(Event::MappingEnd { span })
    }

    /// A key of a flow mapping, or its end. After the first entry a `,`
    /// must come before the next one.
    fn parse_flow_mapping_key(&mut self, first: bool) -> (r: Result<Event, ScanError>)
        requires
            old(self).state == State::FlowMappingFirstKey || old(self).state
                == State::FlowMappingKey,
            first == (old(self).state == State::FlowMappingFirstKey),
        ensures
            Self::stepped(*old(self), *final(self), r),
            Self::progressed(*old(self), *final(self), r),
            Self::same_input(*old(self), *final(self)),
            r is Err ==> final(self).next_tag() is None || (final(self).pos == old(self).pos && (final(self).next_tag() matches Some(t) && rejects(old(self).state, t)))
                || (final(self).pos <= old(self).pos + 2 && (final(self).next_tag() matches Some(t) && !starts_node(t, false))),
            r matches Ok(ev) ==> flow_key_event(old(self).tokens@, past_comma(old(self).tokens@, old(self).pos as int, first), ev, final(self).pos as int, old(self).states@, final(self).state, final(self).states@),
    {
        let ghost s = self.states@;
        let ghost c = self.state;
        if !first {
            let (t, span) = self.peek()?;
            if t == TokenTag::FlowEntry {
                self.skip()?;
            } else if t != TokenTag::FlowMappingEnd {
                return Err(Self::error("expected ',' or '}' in flow mapping", span.start));
            }
        }
        let (t, span) = self.peek()?;
        if t == TokenTag::FlowMappingEnd {
            self.skip()?;
            proof {
                if stack_ok(s, c) {
                    lemma_close(s, c);
                }
            }
            let p = self.pop_state();
            self.state = p;
            return Ok(Event::MappingEnd { span });
        }
        if t == TokenTag::Key {
            self.skip()?;
            let (next, next_span) = self.peek()?;
            if next != TokenTag::Value && next != TokenTag::FlowEntry && next
                != TokenTag::FlowMappingEnd {
                self.states.push(State::FlowMappingValue);
                let r = self.parse_node(false, false);
                proof {
                    if stack_ok(s, c) {
                        lemma_inner_node(s, c, State::FlowMappingValue, self.states@, self.state, r);
                    }
                }
                return r;
            }
            self.state = State::FlowMappingValue;
            return Ok(Self::empty_scalar(next_span));
        }
        if t == TokenTag::Value {
            self.state = State::FlowMappingValue;
            return Ok(Self::empty_scalar(span));
        }
        self.states.push(State::FlowMappingEmptyValue);
        let r = self.parse_node(false, false);
        proof {
            if stack_ok(s, c) {
                lemma_inner_node(s, c, State::FlowMappingEmptyValue, self.states@, self.state, r);
            }
        }
        r
    }

    /// The value of a flow mapping entry; an empty one where `empty` (the
    /// key stood alone) or none is written.
    fn parse_flow_mapping_value(&mut self, empty: bool) -> (r: Result<Event, ScanError>)
        requires
            old(self).state == State::FlowMappingValue || old(self).state
                == State::FlowMappingEmptyValue,
            empty == (old(self).state == State::FlowMappingEmptyValue),
        ensures
            Self::stepped(*old(self), *final(self), r),
            Self::progressed(*old(self), *final(self), r),
            Self::same_input(*old(self), *final(self)),
            r is Err ==> final(self).next_tag() is None || (!empty && final(self).pos == old(self).pos + 1 && (final(self).next_tag() matches Some(t) && !starts_node(t, false))),
            r matches Ok(ev) ==> if empty {
                old(self).pos < old(self).tokens@.len() && empty_at(ev, old(self).tokens@[old(self).pos as int].span)
                    && final(self).pos == old(self).pos && goes_to(old(self).states@, State::FlowMappingKey, final(self).state, final(self).states@)
            } else {
                flow_value_event(old(self).tokens@, old(self).pos as int, ev, final(self).pos as int, true, State::FlowMappingKey, old(self).states@, final(self).state, final(self).states@)
            },
    {
        let ghost s = self.states@;
        let ghost c = self.state;
        let (t, span) = self.peek()?;
        if empty {
            self.state = State::FlowMappingKey;
            return Ok(Self::empty_scalar(span));
        }
        if t == TokenTag::Value {
            self.skip()?;
            let (next, _) = self.peek()?;
            if next != TokenTag::FlowEntry && next != TokenTag::FlowMappingEnd {
                self.states.push(State::FlowMappingKey);
                let r = self.parse_node(false, false);
                proof {
                    if stack_ok(s, c) {
                        lemma_inner_node(s, c, State::FlowMappingKey, self.states@, self.state, r);
                    }
                }
                return r;
            }
        }
        self.state = State::FlowMappingKey;
        Ok(Self::empty_scalar(span))
    }

    /// The next event.
    pub fn next_event(&mut self) -> (r: Result<Event, ScanError>)
        ensures
            Self::stepped(*old(self), *final(self), r),
            Self::progressed(*old(self), *final(self), r),
            final(self).consumed() >= old(self).consumed(),
            r matches Ok(ev) ==> Self::event_step(*old(self), ev, *final(self)),
            r is Err ==> old(self).phase() == State::End || final(self).next_tag() is None || (final(self).consumed()
                == old(self).consumed() && (final(self).next_tag() matches Some(t) && rejects(
                old(self).phase(),
                t,
            ))) || (final(self).next_tag() matches Some(t) && !starts_node(t, false)),
    {
        match self.state {
            State::StreamStart => self.parse_stream_start(),
            State::ImplicitDocumentStart => self.parse_document_start(true),
            State::DocumentStart => self.parse_document_start(false),
            State::DocumentContent => self.parse_document_content(),
            State::DocumentEnd => self.parse_document_end(),
            State::BlockNode => {
                let ghost was_wf = self.wf();
                let r = self.parse_node(true, false);
                proof {
                    if was_wf {
                        lemma_root_node(self.states@, self.state, r);
                    }
                }
                r
            },
            State::BlockSequenceFirstEntry => self.parse_block_sequence_entry(true),
            State::BlockSequenceEntry => self.parse_block_sequence_entry(false),
            State::IndentlessSequenceEntry => self.parse_indentless_sequence_entry(),
            State::BlockMappingFirstKey => self.parse_block_mapping_key(true),
            State::BlockMappingKey => self.parse_block_mapping_key(false),
            State::BlockMappingValue => self.parse_block_mapping_value(),
            State::FlowSequenceFirstEntry => self.parse_flow_sequence_entry(true),
            State::FlowSequenceEntry => self.parse_flow_sequence_entry(false),
            State::FlowSequenceEntryMappingKey => self.parse_flow_sequence_entry_mapping_key(),
            State::FlowSequenceEntryMappingValue => self.parse_flow_sequence_entry_mapping_value(),
            State::FlowSequenceEntryMappingEnd => self.parse_flow_sequence_entry_mapping_end(),
            State::FlowMappingFirstKey => self.parse_flow_mapping_key(true),
            State::FlowMappingKey => self.parse_flow_mapping_key(false),
            State::FlowMappingValue => self.parse_flow_mapping_value(false),
            State::FlowMappingEmptyValue => self.parse_flow_mapping_value(true),
            State::End => Err(Self::error("parser has already finished", 0)),
        }
    }
}

} // verus!
