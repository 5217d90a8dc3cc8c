//! A parsed document that keeps its source byte for byte: the green
//! tree of the source, the value of its first document and the byte
//! ranges of that value's nodes, re-parsed after every edit.
use vstd::prelude::*;
use vstd::string::StringSliceAdditionalSpecFns;

use crate::borrowed::{scanned, BorrowedValue};
use crate::config::{default_config, ParserConfig};
use crate::cst::builder::{build_green_tree, merged_leaves, RecordedToken, ScannedComment, Trivia};
use crate::cst::edit::{
    insert_after, path_message, push_back, remove, replace_span, span_at,
    path_segments, spec_insert_after, spec_push_back, spec_replace_span, spec_span_at,
};
use crate::cst::green::{seq_leaves, GreenNode};
use crate::cst::locate::{range_of, spans_fit, spec_entry_line_span, NodeSpans};
use crate::cst::syntax::SyntaxKind;
use crate::error::Error;
use crate::parser::loader::{load, loaded_from_tokens};
use crate::parser::token::{ScanError, Token};
use crate::text::owned_string;

verus! {

/// `green` is a document node whose leaves are the trivia, tokens and
/// comments that scanning a source of `len` bytes records.
pub open spec fn green_of(green: GreenNode, len: int) -> bool {
    &&& green.spec_kind() == SyntaxKind::Document
    &&& exists|tr: Seq<Trivia>, tk: Seq<RecordedToken>, cm: Seq<ScannedComment>|
        seq_leaves(green.spec_children()) == merged_leaves(tr, tk, cm) && (forall|i: int|
            0 <= i < tk.len() ==> #[trigger] tk[i].start <= tk[i].end <= len)
}

/// `(value, spans)` is what the first document of `src` loads to under
/// the default limits; an empty stream is null at `0..0`.
pub open spec fn first_loaded(src: Seq<u8>, value: BorrowedValue, spans: NodeSpans) -> bool {
    exists|toks: Seq<Token>, end: ScanError, docs: Seq<(BorrowedValue, NodeSpans)>|
        scanned(src, toks, end) && loaded_from_tokens(toks, end, src, default_config(), docs) && if docs.len()
            == 0 {
            value == BorrowedValue::Null && spans == NodeSpans::Leaf(0, 0)
        } else {
            (value, spans) == docs[0]
        }
}

/// Whether every range of `t` lies within `len` bytes, each key before
/// the end of its value.
fn spans_within(t: &NodeSpans, len: usize) -> (r: bool)
    ensures
        r == spans_fit(*t, len as int),
    decreases *t,
{
    let (s, e) = match t {
        NodeSpans::Leaf(s, e) => (*s, *e),
        NodeSpans::Sequence { start, end, .. } => (*start, *end),
        NodeSpans::Mapping { start, end, .. } => (*start, *end),
    };
    assert((s as int, e as int) == range_of(*t));
    if !(s <= e && e <= len) {
        return false;
    }
    match t {
        NodeSpans::Leaf(..) => true,
        NodeSpans::Sequence { items, .. } => {
            let mut i: usize = 0;
            while i < items.len()
                invariant
                    *t is Sequence,
                    t->items == *items,
                    0 <= range_of(*t).0 <= range_of(*t).1 <= len,
                    0 <= i <= items@.len(),
                    forall|j: int| 0 <= j < i ==> spans_fit(#[trigger] items@[j], len as int),
                decreases items@.len() - i,
            {
                if !spans_within(&items[i], len) {
                    assert(!spans_fit(items@[i as int], len as int));
                    return false;
                }
                i = i + 1;
            }
            true
        },
        NodeSpans::Mapping { entries, .. } => {
            let mut i: usize = 0;
            while i < entries.len()
                invariant
                    *t is Mapping,
                    t->entries == *entries,
                    0 <= range_of(*t).0 <= range_of(*t).1 <= len,
                    0 <= i <= entries@.len(),
                    forall|j: int|
                        0 <= j < i ==> {
                            &&& (#[trigger] entries@[j]).key_span.0 <= range_of(entries@[j].value).1
                            &&& spans_fit(entries@[j].value, len as int)
                        },
                decreases entries@.len() - i,
            {
                let en = &entries[i];
                if !spans_within(&en.value, len) {
                    assert(!spans_fit(entries@[i as int].value, len as int));
                    return false;
                }
                let ve = match &en.value {
                    NodeSpans::Leaf(_, e) => *e,
                    NodeSpans::Sequence { end, .. } => *end,
                    NodeSpans::Mapping { end, .. } => *end,
                };
                assert(ve as int == range_of(en.value).1);
                if en.key_span.0 > ve {
                    assert(!(entries@[i as int].key_span.0 <= range_of(entries@[i as int].value).1));
                    return false;
                }
                i = i + 1;
            }
            true
        },
    }
}

/// A YAML document with its source kept byte for byte.
pub struct Document {
    source: String,
    green: GreenNode,
    value: BorrowedValue,
    spans: NodeSpans,
}

impl Document {
    /// The source text.
    pub closed spec fn spec_text(&self) -> Seq<char> {
        self.source@
    }

    /// The source bytes.
    pub open spec fn spec_bytes(&self) -> Seq<u8> {
        vstd::utf8::encode_utf8(self.spec_text())
    }

    /// The green tree of the source.
    pub closed spec fn spec_green(&self) -> GreenNode {
        self.green
    }

    /// The value of the document.
    pub closed spec fn spec_value(&self) -> BorrowedValue {
        self.value
    }

    /// The byte ranges of the value's nodes.
    pub closed spec fn spec_spans(&self) -> NodeSpans {
        self.spans
    }

    /// The tree, value and ranges are those of the source.
    pub open spec fn wf(&self) -> bool {
        &&& green_of(self.spec_green(), self.spec_bytes().len() as int)
        &&& first_loaded(self.spec_bytes(), self.spec_value(), self.spec_spans())
        &&& spans_fit(self.spec_spans(), self.spec_bytes().len() as int)
    }

    /// The root of the green tree.
    pub fn syntax(&self) -> (r: &GreenNode)
        ensures
            *r == self.spec_green(),
    {
        &self.green
    }

    /// The value of the document.
    pub fn as_value(&self) -> (r: &BorrowedValue)
        ensures
            *r == self.spec_value(),
    {
        &self.value
    }

    /// The source, as it was parsed or last edited.
    pub fn source(&self) -> (r: &str)
        ensures
            r@ == self.spec_text(),
    {
        self.source.as_str()
    }

    /// The source again, byte for byte.
    pub fn to_string(&self) -> (r: String)
        ensures
            r@ == self.spec_text(),
    {
        owned_string(self.source.as_str())
    }

    /// The byte range of the value at `path`, trailing blanks dropped
    /// (see [`span_at`]).
    pub fn span_at(&self, path: &str) -> (r: Option<(usize, usize)>)
        requires
            self.wf(),
        ensures
            match spec_span_at(self.spec_spans(), self.spec_bytes(), path@) {
                Some((s, e)) => r == Some((s as usize, e as usize)),
                None => r is None,
            },
    {
        span_at(&self.spans, self.source.as_str(), path)
    }

    /// Take `edit`, the outcome of an edit of this document's source:
    /// a new source is parsed again and replaces the document; a
    /// refusal, or a new source that does not parse, leaves it as it
    /// was.
    fn adopt(&mut self, edit: Result<String, Error>) -> (r: Result<(), Error>)
        ensures
            edit matches Err(e) ==> r == Err::<(), Error>(e),
            r is Err ==> *final(self) == *old(self),
            r is Ok ==> final(self).wf(),
            r is Ok ==> (edit matches Ok(t) && final(self).spec_text() == t@),
    {
        match edit {
            Ok(t) => match parse_document(t.as_str()) {
                Ok(d) => {
                    *self = d;
                    Ok(())
                },
                Err(e) => Err(e),
            },
            Err(e) => Err(e),
        }
    }

    /// Replace the bytes `[start, end)` of the source with
    /// `replacement` and parse again (see [`replace_span`]); a refused
    /// edit leaves the document as it was.
    pub fn replace_span(&mut self, start: usize, end: usize, replacement: &str) -> (r: Result<(), Error>)
        requires
            old(self).wf(),
        ensures
            edit_taken(r, spec_replace_span(old(self).source_str(), start, end, replacement@), *old(self), *final(self)),
    {
        let src = self.source.as_str();
        proof {
            self.lemma_source_str(src);
            assert(self.spec_bytes() == src.spec_bytes());
        }
        let t = replace_span(src, start, end, replacement);
        proof {
            assert(spec_replace_span(self.source_str(), start, end, replacement@)
                == spec_replace_span(src, start, end, replacement@));
        }
        self.adopt(t)
    }

    /// The source as a string slice, for the edits' statements.
    pub closed spec fn source_str(&self) -> &str {
        choose|s: &str| #![trigger s@] s@ == self.source@
    }

    proof fn lemma_source_str(&self, s: &str)
        requires
            s@ == self.source@,
        ensures
            self.source_str()@ == s@,
            self.source_str().spec_bytes() == s.spec_bytes(),
    {
    }

    /// Put `fragment` in place of the value at `path` (see [`set`]).
    pub fn set(&mut self, path: &str, fragment: &str) -> (r: Result<(), Error>)
        requires
            old(self).wf(),
        ensures
            edit_taken(
                r,
                match spec_span_at(old(self).spec_spans(), old(self).spec_bytes(), path@) {
                    Some((s, e)) => spec_replace_span(old(self).source_str(), s as usize, e as usize, fragment@),
                    None => Err(path_message(path@)),
                },
                *old(self),
                *final(self),
            ),
    {
        let src = self.source.as_str();
        proof {
            self.lemma_source_str(src);
            assert(self.spec_bytes() == src.spec_bytes());
        }
        let t = crate::cst::edit::set(&self.spans, src, path, fragment);
        let ghost planned = match spec_span_at(self.spec_spans(), self.spec_bytes(), path@) {
            Some((s, e)) => spec_replace_span(self.source_str(), s as usize, e as usize, fragment@),
            None => Err(path_message(path@)),
        };
        proof {
            match spec_span_at(self.spec_spans(), self.spec_bytes(), path@) {
                Some((s, e)) => {
                    assert(spec_replace_span(self.source_str(), s as usize, e as usize, fragment@)
                        == spec_replace_span(src, s as usize, e as usize, fragment@));
                },
                None => {},
            }
            assert(crate::cst::edit::checked_edit(t, planned));
        }
        self.adopt(t)
    }

    /// Remove the whole entry at `path` (see [`remove`]).
    pub fn remove(&mut self, path: &str) -> (r: Result<(), Error>)
        requires
            old(self).wf(),
        ensures
            edit_taken(
                r,
                match spec_entry_line_span(old(self).spec_spans(), old(self).spec_bytes(), path_segments(path@)) {
                    Ok((s, e)) => spec_replace_span(old(self).source_str(), s as usize, e as usize, Seq::empty()),
                    Err(m) => Err(m),
                },
                *old(self),
                *final(self),
            ),
    {
        let src = self.source.as_str();
        proof {
            self.lemma_source_str(src);
            assert(self.spec_bytes() == src.spec_bytes());
        }
        let t = remove(&self.spans, src, path);
        proof {
            match spec_entry_line_span(self.spec_spans(), self.spec_bytes(), path_segments(path@)) {
                Ok((s, e)) => {
                    assert(spec_replace_span(self.source_str(), s as usize, e as usize, Seq::empty())
                        == spec_replace_span(src, s as usize, e as usize, Seq::empty()));
                },
                Err(_) => {},
            }
            assert(crate::cst::edit::checked_edit(t, match spec_entry_line_span(self.spec_spans(), self.spec_bytes(), path_segments(path@)) {
                Ok((s, e)) => spec_replace_span(self.source_str(), s as usize, e as usize, Seq::empty()),
                Err(m) => Err(m),
            }));
        }
        self.adopt(t)
    }

    /// Append `fragment` as the last item of the block sequence at
    /// `path` (see [`push_back`]).
    pub fn push_back(&mut self, path: &str, fragment: &str) -> (r: Result<(), Error>)
        requires
            old(self).wf(),
        ensures
            edit_taken(
                r,
                spec_push_back(old(self).spec_spans(), old(self).source_str(), path@, fragment@),
                *old(self),
                *final(self),
            ),
    {
        let src = self.source.as_str();
        proof {
            self.lemma_source_str(src);
            assert(self.spec_bytes() == src.spec_bytes());
        }
        let t = push_back(&self.spans, src, path, fragment);
        proof {
            assert(spec_push_back(self.spec_spans(), self.source_str(), path@, fragment@)
                == spec_push_back(self.spans, src, path@, fragment@));
        }
        self.adopt(t)
    }

    /// Insert `fragment` as a new item after the item at `item_path`
    /// (see [`insert_after`]).
    pub fn insert_after(&mut self, item_path: &str, fragment: &str) -> (r: Result<(), Error>)
        requires
            old(self).wf(),
        ensures
            edit_taken(
                r,
                spec_insert_after(old(self).spec_spans(), old(self).source_str(), item_path@, fragment@),
                *old(self),
                *final(self),
            ),
    {
        let src = self.source.as_str();
        proof {
            self.lemma_source_str(src);
            assert(self.spec_bytes() == src.spec_bytes());
        }
        let t = insert_after(&self.spans, src, item_path, fragment);
        proof {
            assert(spec_insert_after(self.spec_spans(), self.source_str(), item_path@, fragment@)
                == spec_insert_after(self.spans, src, item_path@, fragment@));
        }
        self.adopt(t)
    }
}

/// An edit of a document agrees with the splice it planned: a refused
/// splice is returned with its message and leaves the document as it
/// was; where the splice goes through, the document either becomes the
/// spliced source, parsed again, or (where that does not parse) stays
/// as it was.
pub open spec fn edit_taken(
    r: Result<(), Error>,
    planned: Result<Seq<u8>, Seq<char>>,
    before: Document,
    after: Document,
) -> bool {
    &&& r is Err ==> after == before
    &&& match planned {
        Ok(b) => r is Ok ==> after.wf() && after.spec_bytes() == b,
        Err(m) => match r {
            Err(Error::Parse(mm)) => mm@ == m,
            Err(_) => m.len() == 0,
            Ok(_) => false,
        },
    }
}

/// Law: a document holds its input byte for byte, so that its text
/// (see [`Document::to_string`]) is the input parsed (see
/// [`parse_document`]).
pub proof fn lemma_lossless(d: Document, input: &str)
    requires
        d.spec_text() == input@,
    ensures
        d.spec_bytes() == input.spec_bytes(),
{
}

/// Law: an edit that goes through was planned as a splice, and leaves
/// the document holding exactly the spliced bytes, parsed again; one
/// that is refused leaves the document as it was.
pub proof fn lemma_edit_outcome(
    r: Result<(), Error>,
    planned: Result<Seq<u8>, Seq<char>>,
    before: Document,
    after: Document,
)
    requires
        edit_taken(r, planned, before, after),
    ensures
        r is Ok ==> (planned matches Ok(b) && after.wf() && after.spec_bytes() == b),
        r is Err ==> after == before,
{
}

/// Parse `input` into a document that keeps it byte for byte: its first
/// document is loaded under the default limits (see [`load`]) and its
/// green tree built (see [`build_green_tree`]); the errors of either are
/// returned.
pub fn parse_document(input: &str) -> (r: Result<Document, Error>)
    ensures
        r matches Ok(d) ==> d.wf() && d.spec_text() == input@,
{
    if input.as_bytes().len() > 67108864 {
        return Err(too_long());
    }
    let config = ParserConfig::new();
    let (value, spans) = load(input, &config)?;
    let green = build_green_tree(input)?;
    if !spans_within(&spans, input.as_bytes().len()) {
        return Err(Error::Parse(owned_string("document ranges exceed the source")));
    }
    Ok(Document { source: owned_string(input), green, value, spans })
}

fn too_long() -> (e: Error) {
    let mut m = owned_string("document exceeds maximum length of ");
    crate::text::push_decimal(&mut m, 67108864);
    crate::text::push_str(&mut m, " bytes");
    Error::Parse(m)
}

} // verus!
