//! Path-targeted edits of a document's source: each edit resolves its
//! target through the spans of the parsed document, then splices new
//! text over one byte range and leaves every other byte as it was.
use vstd::prelude::*;
use vstd::string::StringSliceAdditionalSpecFns;

use crate::cst::document::{
    column_of_preceding_dash, end_of_line, line_start, preceding_dash, spec_end_of_line,
    trim_trailing_blank, trimmed_end,
};
use crate::cst::locate::{
    entry_line_span, find_key, lemma_key_index_range, range_of, resolve_span, spans_fit,
    spec_entry_line_span, spec_resolve_span, EntrySpans, NodeSpans,
};
use crate::borrowed::{scanned, too_long_message};
use crate::config::{default_config, ParserConfig};
use crate::error::Error;
use crate::parser::loader::{load_all, refused_from_tokens};
use crate::parser::token::{ScanError, Token};
use crate::path::{parse_query_path, query_segments, segment_views, QuerySegment, SegmentView};
use crate::text::{
    decimal, lemma_encode_utf8_concat, lemma_ends_are_boundaries, on_boundary, owned_string,
    push_decimal, push_spaces, push_str, spaces, str_range,
};

verus! {

/// Byte `i` of `s` starts a character, or ends `s`.
pub fn is_char_boundary(s: &str, i: usize) -> (r: bool)
    requires
        i <= s.spec_bytes().len(),
    ensures
        r == on_boundary(s, i as int),
{
    let b = s.as_bytes();
    proof {
        lemma_ends_are_boundaries(s);
        vstd::utf8::encode_utf8_valid_utf8(s@);
    }
    if i == b.len() {
        return true;
    }
    proof {
        vstd::utf8::is_char_boundary_iff_not_is_continuation_byte(b@, i as int);
    }
    !(0x80 <= b[i] && b[i] <= 0xbf)
}

/// The message for a range past the source's end, or reversed.
pub open spec fn range_message(start: nat, end: nat, len: nat) -> Seq<char> {
    "replace_span range "@ + decimal(start) + ".."@ + decimal(end) + " out of bounds (source length "@
        + decimal(len) + ")"@
}

/// The message for a range that cuts a character.
pub open spec fn boundary_message(start: nat, end: nat) -> Seq<char> {
    "replace_span range "@ + decimal(start) + ".."@ + decimal(end) + " is not a character boundary"@
}

/// The source bytes with `[start, end)` replaced by `replacement`.
pub open spec fn spliced_bytes(b: Seq<u8>, start: int, end: int, replacement: Seq<u8>) -> Seq<u8> {
    b.subrange(0, start) + replacement + b.subrange(end, b.len() as int)
}

/// What [`replace_span`] gives: the new source bytes, or the message of
/// its refusal.
pub open spec fn spec_replace_span(source: &str, start: usize, end: usize, replacement: Seq<char>) -> Result<
    Seq<u8>,
    Seq<char>,
> {
    let b = source.spec_bytes();
    if start > end || end > b.len() {
        Err(range_message(start as nat, end as nat, b.len()))
    } else if !on_boundary(source, start as int) || !on_boundary(source, end as int) {
        Err(boundary_message(start as nat, end as nat))
    } else {
        Ok(spliced_bytes(b, start as int, end as int, vstd::utf8::encode_utf8(replacement)))
    }
}

/// An edit's result agrees with the splice it planned: a refusal of the
/// splice is returned as it is; where the splice goes through, a result
/// is the spliced source (and an error is the re-parse refusing it).
pub open spec fn checked_edit(r: Result<String, Error>, planned: Result<Seq<u8>, Seq<char>>) -> bool {
    match planned {
        Ok(b) => r matches Ok(t) ==> vstd::utf8::encode_utf8(t@) == b,
        Err(m) => edited(r) == Err::<Seq<u8>, Seq<char>>(m),
    }
}

/// An edit's result as a plain value: the new source bytes, or the text
/// of the parse error.
pub open spec fn edited(r: Result<String, Error>) -> Result<Seq<u8>, Seq<char>> {
    match r {
        Ok(t) => Ok(vstd::utf8::encode_utf8(t@)),
        Err(Error::Parse(m)) => Err(m@),
        Err(_) => Err(Seq::empty()),
    }
}

/// Loading `b` again under the default limits stops on the loader
/// refusing its tokens with `e` (see [`refused_from_tokens`]).
pub open spec fn reload_refused(b: Seq<u8>, e: Error) -> bool {
    exists|toks: Seq<Token>, past: ScanError|
        scanned(b, toks, past) && refused_from_tokens(toks, past, b, default_config(), e)
}

/// The source with the bytes `[start, end)` replaced by `replacement`;
/// refused where the range is reversed, runs past the end, or cuts a
/// character, and where the result does not load: the edited source is
/// loaded again under the default limits, and the loader's error
/// returned (a located parse error as a plain parse error). Every byte outside the range is
/// kept.
pub fn replace_span(source: &str, start: usize, end: usize, replacement: &str) -> (r: Result<String, Error>)
    ensures
        checked_edit(r, spec_replace_span(source, start, end, replacement@)),
        spec_replace_span(source, start, end, replacement@) matches Ok(b) ==> (b.len()
            > default_config().max_document_length ==> (r matches Err(Error::Parse(m)) && m@
            == too_long_message(default_config().max_document_length))),
        spec_replace_span(source, start, end, replacement@) matches Ok(b) ==> (r matches Err(e) ==> (e is Parse
            || reload_refused(b, e))),
{
    let len = source.as_bytes().len();
    if start > end || end > len {
        let mut m = owned_string("replace_span range ");
        push_decimal(&mut m, start);
        push_str(&mut m, "..");
        push_decimal(&mut m, end);
        push_str(&mut m, " out of bounds (source length ");
        push_decimal(&mut m, len);
        push_str(&mut m, ")");
        return Err(Error::Parse(m));
    }
    if !is_char_boundary(source, start) || !is_char_boundary(source, end) {
        let mut m = owned_string("replace_span range ");
        push_decimal(&mut m, start);
        push_str(&mut m, "..");
        push_decimal(&mut m, end);
        push_str(&mut m, " is not a character boundary");
        return Err(Error::Parse(m));
    }
    proof {
        lemma_ends_are_boundaries(source);
    }
    let head = str_range(source, 0, start);
    let tail = str_range(source, end, len);
    let mut out = owned_string(head);
    push_str(&mut out, replacement);
    push_str(&mut out, tail);
    proof {
        lemma_encode_utf8_concat(head@, replacement@);
        lemma_encode_utf8_concat(head@ + replacement@, tail@);
        assert(out@ == head@ + replacement@ + tail@);
    }
    let n = out.as_str().as_bytes().len();
    if n > 67108864 {
        let mut m = owned_string("document exceeds maximum length of ");
        push_decimal(&mut m, 67108864);
        push_str(&mut m, " bytes");
        return Err(Error::Parse(m));
    }
    let config = ParserConfig::new();
    let text = out.as_str();
    proof {
        assert(text.spec_bytes() == vstd::utf8::encode_utf8(out@));
        assert(spec_replace_span(source, start, end, replacement@) == Ok::<Seq<u8>, Seq<char>>(
            text.spec_bytes(),
        ));
    }
    match load_all(text, &config) {
        Ok(_) => Ok(out),
        Err(Error::ParseWithLocation { message, .. }) => Err(Error::Parse(message)),
        Err(e) => {
            proof {
                if !(e is Parse) {
                    let (toks, past) = choose|toks: Seq<Token>, past: ScanError|
                        scanned(text.spec_bytes(), toks, past) && refused_from_tokens(
                            toks,
                            past,
                            text.spec_bytes(),
                            default_config(),
                            e,
                        );
                    assert(scanned(text.spec_bytes(), toks, past));
                    assert(reload_refused(text.spec_bytes(), e));
                }
            }
            Err(e)
        },
    }
}


/// The node that `segs` addresses from `t` by keys and indices.
pub open spec fn spec_node_at(t: NodeSpans, segs: Seq<SegmentView>) -> Option<NodeSpans>
    decreases segs.len(),
{
    if segs.len() == 0 {
        Some(t)
    } else {
        match (segs[0], t) {
            (SegmentView::Key(k), NodeSpans::Mapping { entries, .. }) => match crate::cst::locate::key_index(
                entries@,
                k,
            ) {
                Some(i) => spec_node_at(entries@[i].value, segs.drop_first()),
                None => None,
            },
            (SegmentView::Index(i), NodeSpans::Sequence { items, .. }) => if i < items@.len() {
                spec_node_at(items@[i as int], segs.drop_first())
            } else {
                None
            },
            _ => None,
        }
    }
}

/// The node that `segments` from `depth` on address from `tree`.
fn node_from<'a>(tree: &'a NodeSpans, segments: &[QuerySegment], depth: usize) -> (r: Option<
    &'a NodeSpans,
>)
    requires
        depth <= segments@.len(),
    ensures
        match spec_node_at(*tree, segment_views(segments@).skip(depth as int)) {
            Some(n) => r matches Some(x) && *x == n,
            None => r is None,
        },
    decreases segments@.len() - depth,
{
    let ghost segs = segment_views(segments@).skip(depth as int);
    if depth >= segments.len() {
        return Some(tree);
    }
    proof {
        assert(segs[0] == segments@[depth as int]@);
        assert(segs.drop_first() =~= segment_views(segments@).skip(depth + 1));
    }
    match (&segments[depth], tree) {
        (QuerySegment::Key(k), NodeSpans::Mapping { entries, .. }) => {
            match find_key(entries, k) {
                Some(i) => {
                    proof {
                        lemma_key_index_range(entries@, k@);
                    }
                    node_from(&entries[i].value, segments, depth + 1)
                },
                None => None,
            }
        },
        (QuerySegment::Index(i), NodeSpans::Sequence { items, .. }) => {
            if *i < items.len() {
                node_from(&items[*i], segments, depth + 1)
            } else {
                None
            }
        },
        _ => None,
    }
}

/// The path's segments.
pub open spec fn path_segments(path: Seq<char>) -> Seq<SegmentView> {
    query_segments(path, Seq::empty())
}

/// The content range of the value at `path`: its node's range with
/// trailing blanks dropped.
pub open spec fn spec_span_at(t: NodeSpans, b: Seq<u8>, path: Seq<char>) -> Option<(int, int)> {
    match spec_resolve_span(t, path_segments(path)) {
        Some((s, e)) => Some((s, trimmed_end(b, s, e))),
        None => None,
    }
}

proof fn lemma_trimmed_end_bounds(b: Seq<u8>, start: int, end: int)
    requires
        start <= end,
    ensures
        start <= trimmed_end(b, start, end) <= end,
        trimmed_end(b, start, end) < end ==> crate::cst::document::is_blank_byte(
            b[trimmed_end(b, start, end)],
        ),
        trimmed_end(b, start, end) > start ==> !crate::cst::document::is_blank_byte(
            b[trimmed_end(b, start, end) - 1],
        ),
    decreases end - start,
{
    if end > start && crate::cst::document::is_blank_byte(b[end - 1]) {
        lemma_trimmed_end_bounds(b, start, end - 1);
    }
}

/// A dash found before `v` lies before it.
proof fn lemma_preceding_dash_range(b: Seq<u8>, v: int)
    ensures
        preceding_dash(b, v) matches Some(d) ==> 0 <= d < v,
    decreases v,
{
    if v > 0 && (b[v - 1] == 32 || b[v - 1] == 9) {
        lemma_preceding_dash_range(b, v - 1);
    }
}

/// A resolved range lies within the tree's ranges.
proof fn lemma_resolved_fits(t: NodeSpans, segs: Seq<SegmentView>, len: int)
    requires
        spans_fit(t, len),
    ensures
        spec_resolve_span(t, segs) matches Some((s, e)) ==> 0 <= s <= e <= len,
        spec_node_at(t, segs) matches Some(n) ==> spans_fit(n, len),
        spec_node_at(t, segs) matches Some(n) ==> spec_resolve_span(t, segs) == Some(range_of(n)),
    decreases segs.len(),
{
    if segs.len() > 0 {
        match (segs[0], t) {
            (SegmentView::Key(k), NodeSpans::Mapping { entries, .. }) => {
                match crate::cst::locate::key_index(entries@, k) {
                    Some(i) => {
                        lemma_key_index_in(entries@, k);
                        lemma_resolved_fits(entries@[i].value, segs.drop_first(), len);
                    },
                    None => {},
                }
            },
            (SegmentView::Index(i), NodeSpans::Sequence { items, .. }) => {
                if i < items@.len() {
                    lemma_resolved_fits(items@[i as int], segs.drop_first(), len);
                }
            },
            _ => {},
        }
    }
}

proof fn lemma_key_index_in(es: Seq<EntrySpans>, k: Seq<char>)
    ensures
        crate::cst::locate::key_index(es, k) matches Some(i) ==> 0 <= i < es.len(),
    decreases es.len(),
{
    if es.len() > 0 && es[0].key@ != k {
        lemma_key_index_in(es.drop_first(), k);
    }
}

/// The byte range of the value at `path`, trailing blanks dropped; none
/// where the path leads nowhere.
pub fn span_at(tree: &NodeSpans, source: &str, path: &str) -> (r: Option<(usize, usize)>)
    requires
        spans_fit(*tree, source.spec_bytes().len() as int),
    ensures
        match spec_span_at(*tree, source.spec_bytes(), path@) {
            Some((s, e)) => r == Some((s as usize, e as usize)),
            None => r is None,
        },
{
    let segments = parse_query_path(path);
    proof {
        lemma_resolved_fits(*tree, segment_views(segments@), source.spec_bytes().len() as int);
    }
    match resolve_span(tree, segments.as_slice()) {
        Some((s, e)) => Some(trim_trailing_blank(source, s, e)),
        None => None,
    }
}

/// Law: a content range lies within the source, and is empty or ends
/// on a byte that is not a space, tab or line break.
pub proof fn lemma_span_at_bounds(t: NodeSpans, source: &str, path: Seq<char>)
    requires
        spans_fit(t, source.spec_bytes().len() as int),
    ensures
        spec_span_at(t, source.spec_bytes(), path) matches Some((s, e)) ==> 0 <= s <= e
            <= source.spec_bytes().len(),
        spec_span_at(t, source.spec_bytes(), path) matches Some((s, e)) ==> s == e
            || !crate::cst::document::is_blank_byte(source.spec_bytes()[e - 1]),
{
    lemma_resolved_fits(t, path_segments(path), source.spec_bytes().len() as int);
    if let Some((s, e)) = spec_resolve_span(t, path_segments(path)) {
        lemma_trimmed_end_bounds(source.spec_bytes(), s, e);
    }
}

/// The source text of the value at `path`.
pub fn get<'s>(tree: &NodeSpans, source: &'s str, path: &str) -> (r: Option<&'s str>)
    requires
        spans_fit(*tree, source.spec_bytes().len() as int),
        spec_resolve_span(*tree, path_segments(path@)) matches Some((s, e)) ==> on_boundary(source, s)
            && on_boundary(source, e),
    ensures
        match spec_span_at(*tree, source.spec_bytes(), path@) {
            Some((s, e)) => r matches Some(t) && t.spec_bytes() == source.spec_bytes().subrange(s, e),
            None => r is None,
        },
{
    let ghost b = source.spec_bytes();
    let segments = parse_query_path(path);
    proof {
        lemma_resolved_fits(*tree, segment_views(segments@), b.len() as int);
    }
    match resolve_span(tree, segments.as_slice()) {
        Some((s, e0)) => {
            let (_, e) = trim_trailing_blank(source, s, e0);
            proof {
                lemma_trimmed_end_bounds(b, s as int, e0 as int);
                if e < e0 {
                    crate::text::lemma_ascii_boundary(source, e as int);
                }
            }
            Some(str_range(source, s, e))
        },
        None => None,
    }
}

/// The message for a path that leads nowhere.
pub open spec fn path_message(path: Seq<char>) -> Seq<char> {
    "path not found: "@ + path
}

fn path_not_found(path: &str) -> (e: Error)
    ensures
        e matches Error::Parse(m) && m@ == path_message(path@),
{
    let mut m = owned_string("path not found: ");
    push_str(&mut m, path);
    Error::Parse(m)
}

/// The new source after putting `fragment` in place of the value at
/// `path`; refused, as [`replace_span`] refuses, where it does not parse.
pub fn set(tree: &NodeSpans, source: &str, path: &str, fragment: &str) -> (r: Result<String, Error>)
    requires
        spans_fit(*tree, source.spec_bytes().len() as int),
    ensures
        checked_edit(r, match spec_span_at(*tree, source.spec_bytes(), path@) {
            Some((s, e)) => spec_replace_span(source, s as usize, e as usize, fragment@),
            None => Err(path_message(path@)),
        }),
{
    match span_at(tree, source, path) {
        Some((s, e)) => replace_span(source, s, e, fragment),
        None => Err(path_not_found(path)),
    }
}

/// The new source after removing the whole entry at `path` (see
/// [`entry_line_span`]); refused, as [`replace_span`] refuses, where it
/// does not parse.
pub fn remove(tree: &NodeSpans, source: &str, path: &str) -> (r: Result<String, Error>)
    requires
        spans_fit(*tree, source.spec_bytes().len() as int),
    ensures
        checked_edit(r, match spec_entry_line_span(*tree, source.spec_bytes(), path_segments(path@)) {
            Ok((s, e)) => spec_replace_span(source, s as usize, e as usize, Seq::empty()),
            Err(m) => Err(m),
        }),
{
    let segments = parse_query_path(path);
    match entry_line_span(tree, source, segments.as_slice()) {
        Ok((s, e)) => {
            proof {
                reveal_strlit("");
            }
            replace_span(source, s, e, "")
        },
        Err(e) => Err(e),
    }
}

/// The line that a new sequence item gets: the dash at `dash_col`, then
/// the fragment.
pub open spec fn item_line(dash_col: nat, fragment: Seq<char>) -> Seq<char> {
    spaces(dash_col) + "- "@ + fragment + "\n"@
}

fn item_line_text(dash_col: usize, fragment: &str) -> (s: String)
    ensures
        s@ == item_line(dash_col as nat, fragment@),
{
    let mut s = String::new();
    push_spaces(&mut s, dash_col);
    push_str(&mut s, "- ");
    push_str(&mut s, fragment);
    push_str(&mut s, "\n");
    s
}

/// What [`push_back`] does: the new item's line goes after the line
/// that ends the sequence's last item, its dash in the column of that
/// item's dash; or why it cannot.
pub open spec fn spec_push_back(t: NodeSpans, source: &str, path: Seq<char>, fragment: Seq<char>) -> Result<
    Seq<u8>,
    Seq<char>,
> {
    let b = source.spec_bytes();
    match spec_node_at(t, path_segments(path)) {
        None => Err(path_message(path)),
        Some(NodeSpans::Sequence { items, .. }) => if items@.len() == 0 {
            Err(
                "push_back: empty sequence has no anchor for indentation — use `set` with a fragment instead"@,
            )
        } else {
            let (ls, le) = range_of(items@.last());
            let le2 = trimmed_end(b, ls, le);
            match preceding_dash(b, ls) {
                None => Err(
                    "push_back: only block sequences are supported (no `-` anchor before last item)"@,
                ),
                Some(d) => {
                    let at = spec_end_of_line(b, le2);
                    spec_replace_span(
                        source,
                        at as usize,
                        at as usize,
                        item_line((d - line_start(b, d)) as nat, fragment),
                    )
                },
            }
        },
        Some(_) => Err("push_back: target path is not a sequence"@),
    }
}

/// The new source after appending `fragment` as a new last item of the
/// block sequence at `path`, indented like the items before it; refused,
/// as [`replace_span`] refuses, where it does not parse.
pub fn push_back(tree: &NodeSpans, source: &str, path: &str, fragment: &str) -> (r: Result<String, Error>)
    requires
        spans_fit(*tree, source.spec_bytes().len() as int),
    ensures
        checked_edit(r, spec_push_back(*tree, source, path@, fragment@)),
{
    let ghost b = source.spec_bytes();
    let segments = parse_query_path(path);
    proof {
        assert(segment_views(segments@).skip(0) =~= segment_views(segments@));
        lemma_resolved_fits(*tree, segment_views(segments@), b.len() as int);
    }
    let target = match node_from(tree, segments.as_slice(), 0) {
        Some(t) => t,
        None => {
            return Err(path_not_found(path));
        },
    };
    let items = match target {
        NodeSpans::Sequence { items, .. } => items,
        _ => {
            return Err(Error::Parse(owned_string("push_back: target path is not a sequence")));
        },
    };
    if items.len() == 0 {
        return Err(
            Error::Parse(
                owned_string(
                    "push_back: empty sequence has no anchor for indentation — use `set` with a fragment instead",
                ),
            ),
        );
    }
    let last = &items[items.len() - 1];
    proof {
        assert(spans_fit(items@[items@.len() - 1], b.len() as int));
    }
    let (raw_start, raw_end) = match last {
        NodeSpans::Leaf(s, e) => (*s, *e),
        NodeSpans::Sequence { start, end, .. } => (*start, *end),
        NodeSpans::Mapping { start, end, .. } => (*start, *end),
    };
    let (last_start, last_end) = trim_trailing_blank(source, raw_start, raw_end);
    proof {
        lemma_trimmed_end_bounds(b, raw_start as int, raw_end as int);
    }
    let dash_col = match column_of_preceding_dash(source, last_start) {
        Some(c) => c,
        None => {
            return Err(
                Error::Parse(
                    owned_string(
                        "push_back: only block sequences are supported (no `-` anchor before last item)",
                    ),
                ),
            );
        },
    };
    proof {
        lemma_preceding_dash_range(b, last_start as int);
        let d = preceding_dash(b, last_start as int)->0;
        crate::cst::document::lemma_line_start_le(b, d);
    }
    let at = end_of_line(source, last_end);
    let line = item_line_text(dash_col, fragment);
    replace_span(source, at, at, line.as_str())
}

/// What [`insert_after`] does: a path ending in an index, resolving to an
/// item of a block sequence, gets a new item on the line after it, its
/// dash in the same column; or why it cannot.
pub open spec fn spec_insert_after(t: NodeSpans, source: &str, item_path: Seq<char>, fragment: Seq<char>) -> Result<
    Seq<u8>,
    Seq<char>,
> {
    let b = source.spec_bytes();
    let segs = path_segments(item_path);
    if !(segs.len() > 0 && segs.last() is Index) {
        Err("insert_after: path must end with a sequence index, e.g. `items[2]`"@)
    } else {
        match spec_span_at(t, b, item_path) {
            None => Err(path_message(item_path)),
            Some((s, e)) => match preceding_dash(b, s) {
                None => Err(
                    "insert_after: only block sequences are supported (no `-` anchor before item)"@,
                ),
                Some(d) => {
                    let at = spec_end_of_line(b, e);
                    spec_replace_span(
                        source,
                        at as usize,
                        at as usize,
                        item_line((d - line_start(b, d)) as nat, fragment),
                    )
                },
            },
        }
    }
}

/// The new source after inserting `fragment` as a new sequence item on
/// the line after the item at `item_path`, its dash in the same column;
/// refused, as [`replace_span`] refuses, where it does not parse.
pub fn insert_after(tree: &NodeSpans, source: &str, item_path: &str, fragment: &str) -> (r: Result<
    String,
    Error,
>)
    requires
        spans_fit(*tree, source.spec_bytes().len() as int),
    ensures
        checked_edit(r, spec_insert_after(*tree, source, item_path@, fragment@)),
{
    let ghost b = source.spec_bytes();
    let _len = source.as_bytes().len();
    let segments = parse_query_path(item_path);
    let n = segments.len();
    let ends_in_index = n > 0 && match &segments[n - 1] {
        QuerySegment::Index(_) => true,
        _ => false,
    };
    proof {
        if n > 0 {
            assert(segment_views(segments@).last() == segments@[n - 1]@);
        }
    }
    if !ends_in_index {
        return Err(
            Error::Parse(
                owned_string("insert_after: path must end with a sequence index, e.g. `items[2]`"),
            ),
        );
    }
    let (item_start, item_end) = match span_at(tree, source, item_path) {
        Some(sp) => sp,
        None => {
            return Err(path_not_found(item_path));
        },
    };
    proof {
        lemma_resolved_fits(*tree, path_segments(item_path@), b.len() as int);
        let (s0, e0) = spec_resolve_span(*tree, path_segments(item_path@))->0;
        lemma_trimmed_end_bounds(b, s0, e0);
        assert(item_start as int == s0);
        assert(item_end as int == trimmed_end(b, s0, e0));
    }
    let dash_col = match column_of_preceding_dash(source, item_start) {
        Some(c) => c,
        None => {
            return Err(
                Error::Parse(
                    owned_string(
                        "insert_after: only block sequences are supported (no `-` anchor before item)",
                    ),
                ),
            );
        },
    };
    proof {
        lemma_preceding_dash_range(b, item_start as int);
        let d = preceding_dash(b, item_start as int)->0;
        crate::cst::document::lemma_line_start_le(b, d);
    }
    let at = end_of_line(source, item_end);
    let line = item_line_text(dash_col, fragment);
    replace_span(source, at, at, line.as_str())
}

} // verus!
