//! Locating the node, or the whole entry line, that a query path
//! addresses in a parsed document, from the byte ranges its nodes
//! occupy in the source.
use vstd::prelude::*;
use vstd::string::StringSliceAdditionalSpecFns;

use crate::cst::document::{
    line_extent, line_start, locate_preceding_dash, multi_line_message, preceding_dash,
    require_single_line, spec_end_of_line, trim_trailing_blank, trimmed_end,
};
use crate::error::Error;
use crate::path::{segment_views, QuerySegment, SegmentView};
use crate::text::{debug_text, decimal, owned_string, push_decimal, push_str, same_text, str_debug};

verus! {

/// Where each node of a parsed document lies in its source: a scalar's
/// byte range, or a collection's range with its items', or entries'.
/// A mapping entry carries its key as the document parsed it, in the
/// document's order.
#[derive(Debug)]
pub enum NodeSpans {
    Leaf(usize, usize),
    Sequence { start: usize, end: usize, items: Vec<NodeSpans> },
    Mapping { start: usize, end: usize, entries: Vec<EntrySpans> },
}

/// A mapping entry: its key, the byte range of the key, and its value.
#[derive(Debug)]
pub struct EntrySpans {
    pub key: String,
    pub key_span: (usize, usize),
    pub value: NodeSpans,
}

/// The byte range a node occupies.
pub open spec fn range_of(t: NodeSpans) -> (int, int) {
    match t {
        NodeSpans::Leaf(s, e) => (s as int, e as int),
        NodeSpans::Sequence { start, end, .. } => (start as int, end as int),
        NodeSpans::Mapping { start, end, .. } => (start as int, end as int),
    }
}

/// Every range in `t` is ordered and lies within `len` bytes, and each
/// key starts no later than its value ends.
pub open spec fn spans_fit(t: NodeSpans, len: int) -> bool
    decreases t,
{
    &&& 0 <= range_of(t).0 <= range_of(t).1 <= len
    &&& match t {
        NodeSpans::Leaf(..) => true,
        NodeSpans::Sequence { items, .. } => forall|i: int|
            0 <= i < items@.len() ==> spans_fit(#[trigger] items@[i], len),
        NodeSpans::Mapping { entries, .. } => forall|i: int|
            0 <= i < entries@.len() ==> {
                &&& (#[trigger] entries@[i]).key_span.0 <= range_of(entries@[i].value).1
                &&& spans_fit(entries@[i].value, len)
            },
    }
}

/// The entries and items of a fitting tree fit too.
proof fn lemma_child_fits(t: NodeSpans, len: int, i: int)
    requires
        spans_fit(t, len),
    ensures
        t matches NodeSpans::Mapping { entries, .. } ==> (0 <= i < entries@.len() ==> spans_fit(
            entries@[i].value,
            len,
        ) && entries@[i].key_span.0 <= range_of(entries@[i].value).1),
        t matches NodeSpans::Sequence { items, .. } ==> (0 <= i < items@.len() ==> spans_fit(
            items@[i],
            len,
        )),
{
}

/// Index of the first entry whose key is `k`.
pub open spec fn key_index(es: Seq<EntrySpans>, k: Seq<char>) -> Option<int>
    decreases es.len(),
{
    if es.len() == 0 {
        None
    } else if es[0].key@ == k {
        Some(0)
    } else {
        match key_index(es.drop_first(), k) {
            Some(i) => Some(i + 1),
            None => None,
        }
    }
}

pub(crate) proof fn lemma_key_index_range(es: Seq<EntrySpans>, k: Seq<char>)
    ensures
        key_index(es, k) matches Some(i) ==> 0 <= i < es.len() && es[i].key@ == k,
    decreases es.len(),
{
    if es.len() > 0 && es[0].key@ != k {
        lemma_key_index_range(es.drop_first(), k);
    }
}

/// The range of the node that `segs` addresses from `t`: keys and
/// indices only, each step into a mapping or a sequence.
pub open spec fn spec_resolve_span(t: NodeSpans, segs: Seq<SegmentView>) -> Option<(int, int)>
    decreases segs.len(),
{
    if segs.len() == 0 {
        Some(range_of(t))
    } else {
        match (segs[0], t) {
            (SegmentView::Key(k), NodeSpans::Mapping { entries, .. }) => match key_index(
                entries@,
                k,
            ) {
                Some(i) => spec_resolve_span(entries@[i].value, segs.drop_first()),
                None => None,
            },
            (SegmentView::Index(i), NodeSpans::Sequence { items, .. }) => if i < items@.len() {
                spec_resolve_span(items@[i as int], segs.drop_first())
            } else {
                None
            },
            _ => None,
        }
    }
}

/// Index of the first entry keyed `k`.
pub(crate) fn find_key(entries: &Vec<EntrySpans>, k: &String) -> (r: Option<usize>)
    ensures
        r matches Some(i) ==> key_index(entries@, k@) == Some(i as int),
        r is None ==> key_index(entries@, k@) is None,
{
    let mut i: usize = 0;
    assert(entries@.skip(0) =~= entries@);
    while i < entries.len()
        invariant
            i <= entries@.len(),
            key_index(entries@, k@) == match key_index(entries@.skip(i as int), k@) {
                Some(j) => Some(j + i),
                None => None,
            },
        decreases entries@.len() - i,
    {
        proof {
            assert(entries@.skip(i as int)[0] == entries@[i as int]);
            assert(entries@.skip(i as int).drop_first() =~= entries@.skip(i + 1));
        }
        if same_text(entries[i].key.as_str(), k.as_str()) {
            return Some(i);
        }
        i += 1;
    }
    proof {
        assert(entries@.skip(i as int) =~= Seq::<EntrySpans>::empty());
    }
    None
}

/// The byte range of a node.
fn node_range(t: &NodeSpans) -> (r: (usize, usize))
    ensures
        (r.0 as int, r.1 as int) == range_of(*t),
{
    match t {
        NodeSpans::Leaf(s, e) => (*s, *e),
        NodeSpans::Sequence { start, end, .. } => (*start, *end),
        NodeSpans::Mapping { start, end, .. } => (*start, *end),
    }
}

/// The byte range of the node that `segments` addresses from `tree`;
/// `None` where a key or an index is missing, or a segment is a
/// wildcard or a recursive descent (they address no single node).
pub fn resolve_span(tree: &NodeSpans, segments: &[QuerySegment]) -> (r: Option<(usize, usize)>)
    ensures
        r matches Some((s, e)) ==> spec_resolve_span(*tree, segment_views(segments@)) == Some(
            (s as int, e as int),
        ),
        r is None ==> spec_resolve_span(*tree, segment_views(segments@)) is None,
{
    assert(segment_views(segments@).skip(0) =~= segment_views(segments@));
    resolve_from(tree, segments, 0)
}

fn resolve_from(tree: &NodeSpans, segments: &[QuerySegment], depth: usize) -> (r: Option<
    (usize, usize),
>)
    requires
        depth <= segments@.len(),
    ensures
        r matches Some((s, e)) ==> spec_resolve_span(
            *tree,
            segment_views(segments@).skip(depth as int),
        ) == Some((s as int, e as int)),
        r is None ==> spec_resolve_span(*tree, segment_views(segments@).skip(depth as int)) is None,
    decreases segments@.len() - depth,
{
    let ghost segs = segment_views(segments@).skip(depth as int);
    if depth >= segments.len() {
        return Some(node_range(tree));
    }
    proof {
        assert(segs[0] == segments@[depth as int]@);
        assert(segs.drop_first() =~= segment_views(segments@).skip(depth + 1));
    }
    match (&segments[depth], tree) {
        (QuerySegment::Key(k), NodeSpans::Mapping { entries, .. }) => {
            match find_key(entries, k) {
                Some(i) => {
                    proof {
                        lemma_key_index_range(entries@, k@);
                    }
                    resolve_from(&entries[i].value, segments, depth + 1)
                },
                None => None,
            }
        },
        (QuerySegment::Index(i), NodeSpans::Sequence { items, .. }) => {
            if *i < items.len() {
                resolve_from(&items[*i], segments, depth + 1)
            } else {
                None
            }
        },
        _ => None,
    }
}

/// The message for removing the document root.
pub open spec fn root_message() -> Seq<char> {
    "remove requires a non-empty path (cannot remove the document root)"@
}

/// The message for a path that leads nowhere.
pub open spec fn not_found_message() -> Seq<char> {
    "path not found"@
}

/// The message for a missing key.
pub open spec fn missing_key_message(k: Seq<char>) -> Seq<char> {
    "path not found: missing key "@ + debug_text(k)
}

/// The message for an index past the end of a sequence.
pub open spec fn index_message(i: nat) -> Seq<char> {
    "path not found: index "@ + decimal(i) + " out of bounds"@
}

/// The message for removing a mapping's only entry.
pub open spec fn only_entry_message(mapping: bool) -> Seq<char> {
    if mapping {
        "remove cannot delete the only entry of a mapping"@
    } else {
        "remove cannot delete the only entry of a sequence"@
    }
}

/// The message for an entry of a flow collection, which this phase does
/// not remove.
pub open spec fn flow_entry_message() -> Seq<char> {
    "remove: entries of a flow collection cannot be removed yet"@
}

/// The collection whose range starts at `p` is written in flow style: it
/// opens with `{` or `[`.
pub open spec fn opens_flow(b: Seq<u8>, p: int) -> bool {
    0 <= p < b.len() && (b[p] == 0x7b || b[p] == 0x5b)
}

/// The message for a sequence entry whose `-` cannot be found.
pub open spec fn dash_message() -> Seq<char> {
    "remove: could not locate '-' indicator preceding sequence item"@
}

/// Whole lines from `start` through the end of the entry's value,
/// refused where they cross a line break.
pub open spec fn entry_lines(b: Seq<u8>, start: int, value_end: int) -> Result<
    (int, int),
    Seq<char>,
> {
    let e = trimmed_end(b, start, value_end);
    if forall|k: int| start <= k < e ==> b[k] != 10 {
        Ok((line_start(b, start), spec_end_of_line(b, e)))
    } else {
        Err(multi_line_message())
    }
}

/// The byte range of the whole entry that `segs` addresses from `t` in
/// the source bytes `b` — its key or `-`, the indentation before it and
/// the line break after its value — or why there is none (entries of a
/// flow collection are refused).
pub open spec fn spec_entry_line_span(t: NodeSpans, b: Seq<u8>, segs: Seq<SegmentView>) -> Result<
    (int, int),
    Seq<char>,
>
    decreases segs.len(),
{
    if segs.len() == 0 {
        Err(root_message())
    } else if segs.len() > 1 {
        match (segs[0], t) {
            (SegmentView::Key(k), NodeSpans::Mapping { entries, .. }) => match key_index(
                entries@,
                k,
            ) {
                Some(i) => spec_entry_line_span(entries@[i].value, b, segs.drop_first()),
                None => Err(missing_key_message(k)),
            },
            (SegmentView::Index(i), NodeSpans::Sequence { items, .. }) => if i < items@.len() {
                spec_entry_line_span(items@[i as int], b, segs.drop_first())
            } else {
                Err(index_message(i as nat))
            },
            _ => Err(not_found_message()),
        }
    } else {
        match (segs[0], t) {
            (SegmentView::Key(k), NodeSpans::Mapping { start, entries, .. }) => if opens_flow(
                b,
                start as int,
            ) {
                Err(flow_entry_message())
            } else if entries@.len() <= 1 {
                Err(only_entry_message(true))
            } else {
                match key_index(entries@, k) {
                    Some(i) => entry_lines(
                        b,
                        entries@[i].key_span.0 as int,
                        range_of(entries@[i].value).1,
                    ),
                    None => Err(missing_key_message(k)),
                }
            },
            (SegmentView::Index(i), NodeSpans::Sequence { start, items, .. }) => if opens_flow(
                b,
                start as int,
            ) {
                Err(flow_entry_message())
            } else if items@.len() <= 1 {
                Err(only_entry_message(false))
            } else if i >= items@.len() {
                Err(index_message(i as nat))
            } else {
                let (vs, ve) = range_of(items@[i as int]);
                match preceding_dash(b, vs) {
                    Some(d) => entry_lines(b, d, ve),
                    None => Err(dash_message()),
                }
            },
            _ => Err(not_found_message()),
        }
    }
}

/// The result of [`entry_line_span`] as a plain value: the range, or the
/// text of the error.
pub open spec fn located(r: Result<(usize, usize), Error>) -> Result<(int, int), Seq<char>> {
    match r {
        Ok((s, e)) => Ok((s as int, e as int)),
        Err(Error::Parse(m)) => Err(m@),
        Err(_) => Err(Seq::empty()),
    }
}

fn parse_error(message: &str) -> (e: Error)
    ensures
        e matches Error::Parse(m) && m@ == message@,
{
    Error::Parse(owned_string(message))
}

fn missing_key(k: &String) -> (e: Error)
    ensures
        e matches Error::Parse(m) && m@ == missing_key_message(k@),
{
    let mut m = owned_string("path not found: missing key ");
    let d = str_debug(k.as_str());
    push_str(&mut m, d.as_str());
    Error::Parse(m)
}

fn index_out_of_bounds(i: usize) -> (e: Error)
    ensures
        e matches Error::Parse(m) && m@ == index_message(i as nat),
{
    let mut m = owned_string("path not found: index ");
    push_decimal(&mut m, i);
    push_str(&mut m, " out of bounds");
    Error::Parse(m)
}

/// Whole lines from `start` through `value_end` once trailing blanks
/// are dropped; an error where they cross a line break.
fn lines_of_entry(source: &str, start: usize, value_end: usize) -> (r: Result<(usize, usize), Error>)
    requires
        start <= value_end <= source.spec_bytes().len(),
    ensures
        located(r) == entry_lines(source.spec_bytes(), start as int, value_end as int),
        r matches Err(e) ==> e is Parse,
{
    let (_, end) = trim_trailing_blank(source, start, value_end);
    proof {
        lemma_trimmed_end_bounds(source.spec_bytes(), start as int, value_end as int);
    }
    match require_single_line(source, start, end) {
        Ok(()) => Ok(line_extent(source, start, end)),
        Err(e) => Err(e),
    }
}

proof fn lemma_trimmed_end_bounds(b: Seq<u8>, start: int, end: int)
    requires
        start <= end,
    ensures
        start <= trimmed_end(b, start, end) <= end,
    decreases end - start,
{
    if end > start && crate::cst::document::is_blank_byte(b[end - 1]) {
        lemma_trimmed_end_bounds(b, start, end - 1);
    }
}

/// Whether the collection whose range starts at `p` opens with `{` or `[`.
fn starts_flow(source: &str, p: usize) -> (r: bool)
    ensures
        r == opens_flow(source.spec_bytes(), p as int),
{
    let b = source.as_bytes();
    p < b.len() && (b[p] == 0x7b || b[p] == 0x5b)
}

/// The byte range of the whole entry that `segments` addresses — the
/// key or `-` indicator, the indentation before it and the line break
/// after its value — so that splicing in the empty string deletes it.
/// Refused for the root, a missing key or index, an entry of a flow
/// collection (one whose range opens with `{` or `[`), a mapping's or a
/// sequence's only entry, and an entry spanning several lines.
pub fn entry_line_span(tree: &NodeSpans, source: &str, segments: &[QuerySegment]) -> (r: Result<
    (usize, usize),
    Error,
>)
    requires
        spans_fit(*tree, source.spec_bytes().len() as int),
    ensures
        located(r) == spec_entry_line_span(*tree, source.spec_bytes(), segment_views(segments@)),
        r matches Err(e) ==> e is Parse,
{
    assert(segment_views(segments@).skip(0) =~= segment_views(segments@));
    entry_line_span_from(tree, source, segments, 0)
}

fn entry_line_span_from(tree: &NodeSpans, source: &str, segments: &[QuerySegment], depth: usize) -> (r:
    Result<(usize, usize), Error>)
    requires
        depth <= segments@.len(),
        spans_fit(*tree, source.spec_bytes().len() as int),
    ensures
        located(r) == spec_entry_line_span(
            *tree,
            source.spec_bytes(),
            segment_views(segments@).skip(depth as int),
        ),
        r matches Err(e) ==> e is Parse,
    decreases segments@.len() - depth,
{
    let ghost b = source.spec_bytes();
    let ghost segs = segment_views(segments@).skip(depth as int);
    if depth >= segments.len() {
        return Err(parse_error(
            "remove requires a non-empty path (cannot remove the document root)",
        ));
    }
    proof {
        assert(segs[0] == segments@[depth as int]@);
        assert(segs.drop_first() =~= segment_views(segments@).skip(depth + 1));
        assert(spans_fit(*tree, b.len() as int));
    }
    if depth + 1 < segments.len() {
        match (&segments[depth], tree) {
            (QuerySegment::Key(k), NodeSpans::Mapping { entries, .. }) => {
                match find_key(entries, k) {
                    Some(i) => {
                        proof {
                            lemma_key_index_range(entries@, k@);
                            lemma_child_fits(*tree, b.len() as int, i as int);
                        }
                        entry_line_span_from(&entries[i].value, source, segments, depth + 1)
                    },
                    None => Err(missing_key(k)),
                }
            },
            (QuerySegment::Index(i), NodeSpans::Sequence { items, .. }) => {
                if *i < items.len() {
                    proof {
                        lemma_child_fits(*tree, b.len() as int, *i as int);
                    }
                    entry_line_span_from(&items[*i], source, segments, depth + 1)
                } else {
                    Err(index_out_of_bounds(*i))
                }
            },
            _ => Err(parse_error("path not found")),
        }
    } else {
        match (&segments[depth], tree) {
            (QuerySegment::Key(k), NodeSpans::Mapping { start, entries, .. }) => {
                if starts_flow(source, *start) {
                    return Err(parse_error("remove: entries of a flow collection cannot be removed yet"));
                }
                if entries.len() <= 1 {
                    return Err(parse_error("remove cannot delete the only entry of a mapping"));
                }
                match find_key(entries, k) {
                    Some(i) => {
                        proof {
                            lemma_key_index_range(entries@, k@);
                            lemma_child_fits(*tree, b.len() as int, i as int);
                        }
                        let key_start = entries[i].key_span.0;
                        let (_, value_end) = node_range(&entries[i].value);
                        lines_of_entry(source, key_start, value_end)
                    },
                    None => Err(missing_key(k)),
                }
            },
            (QuerySegment::Index(i), NodeSpans::Sequence { start, items, .. }) => {
                if starts_flow(source, *start) {
                    return Err(parse_error("remove: entries of a flow collection cannot be removed yet"));
                }
                if items.len() <= 1 {
                    return Err(parse_error("remove cannot delete the only entry of a sequence"));
                }
                if *i >= items.len() {
                    return Err(index_out_of_bounds(*i));
                }
                proof {
                    lemma_child_fits(*tree, b.len() as int, *i as int);
                }
                let (value_start, value_end) = node_range(&items[*i]);
                match locate_preceding_dash(source, value_start) {
                    Some(dash) => lines_of_entry(source, dash, value_end),
                    None => Err(parse_error(
                        "remove: could not locate '-' indicator preceding sequence item",
                    )),
                }
            },
            _ => Err(parse_error("path not found")),
        }
    }
}

} // verus!
