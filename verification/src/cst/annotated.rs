//! The comments that decorate a node: the run of comment lines just
//! above it and the comment trailing it on its own line.
//!
//! A comment line above the node joins the run, a blank line neither
//! joins nor breaks it, and the first line holding other content ends
//! it. Only a node that fits on one line has a trailing comment.
use vstd::prelude::*;
use vstd::string::StringSliceAdditionalSpecFns;

use crate::cst::document::{indent_end, lemma_line_start_le, line_start, next_line_feed};

verus! {

/// A `#` comment: its text after the `#`, and the byte range of the
/// whole comment in the source.
#[derive(Debug)]
pub struct Comment {
    pub text: String,
    pub start: usize,
    pub end: usize,
}

impl Clone for Comment {
    fn clone(&self) -> (r: Self)
        ensures
            r == *self,
    {
        Comment { text: self.text.clone(), start: self.start, end: self.end }
    }
}

/// Comments that decorate a single node, by their place relative to it.
#[derive(Debug, Clone)]
pub struct CommentBundle {
    /// The run of comment lines just above the node, in source order.
    pub before: Vec<Comment>,
    /// The comment after the node's content on its own line.
    pub inline: Option<Comment>,
}

impl Default for CommentBundle {
    fn default() -> (b: Self)
        ensures
            b.before@.len() == 0,
            b.inline is None,
    {
        CommentBundle { before: Vec::new(), inline: None }
    }
}

impl CommentBundle {
    /// Neither a leading nor an inline comment.
    pub fn is_empty(&self) -> (r: bool)
        ensures
            r == (self.before@.len() == 0 && self.inline is None),
    {
        self.before.len() == 0 && self.inline.is_none()
    }
}

/// The first comment of `cs` that starts in `[lo, hi)`.
pub open spec fn first_starting_in(cs: Seq<Comment>, lo: int, hi: int) -> Option<Comment>
    decreases cs.len(),
{
    if cs.len() == 0 {
        None
    } else if lo <= cs[0].start < hi {
        Some(cs[0])
    } else {
        first_starting_in(cs.drop_first(), lo, hi)
    }
}

/// `p` moved into `[0, len]`.
pub open spec fn clamp(p: int, len: int) -> int {
    if p < 0 {
        0
    } else if p > len {
        len
    } else {
        p
    }
}

/// The last index of an input of `len` bytes, or 0 when it is empty.
pub open spec fn last_index(len: int) -> int {
    if len > 0 {
        len - 1
    } else {
        0
    }
}

/// Start of the line above the one that starts at `cursor`.
pub open spec fn line_above(b: Seq<u8>, cursor: int) -> int {
    line_start(b, clamp(cursor - 2, b.len() as int))
}

/// The leading comments found walking up from the line that starts at
/// `cursor`, in source order: each comment-only line above gives the
/// first comment starting on it, blank lines are passed over, and the
/// first line with other content ends the walk.
pub open spec fn leading_comments(b: Seq<u8>, cursor: int, cs: Seq<Comment>) -> Seq<Comment>
    decreases cursor,
{
    if cursor <= 0 {
        seq![]
    } else {
        let end = cursor - 1;
        let start = line_above(b, cursor);
        let first = indent_end(b, start);
        proof {
            lemma_line_start_le(b, clamp(cursor - 2, b.len() as int));
        }
        if first >= end {
            leading_comments(b, start, cs)
        } else if b[first] == 35 {
            leading_comments(b, start, cs) + match first_starting_in(cs, start, end) {
                Some(c) => seq![c],
                None => seq![],
            }
        } else {
            seq![]
        }
    }
}

/// `b[start..end]` holds no line feed.
pub open spec fn single_line(b: Seq<u8>, start: int, end: int) -> bool {
    forall|k: int| start <= k < end ==> b[k] != 10
}

/// The comments of the node at `span` of `source`, given the comments
/// scanned from it in source order; an empty bundle where no node was
/// found.
pub open spec fn spec_comments_at(
    b: Seq<u8>,
    span: Option<(usize, usize)>,
    cs: Seq<Comment>,
) -> (Seq<Comment>, Option<Comment>) {
    match span {
        None => (seq![], None),
        Some((start, end)) => {
            let last = if end > start { end - 1 } else { start as int };
            let line_end = next_line_feed(b, clamp(last, last_index(b.len() as int)));
            (
                leading_comments(b, line_start(b, start as int), cs),
                if single_line(b, start as int, end as int) {
                    first_starting_in(cs, end as int, line_end + 1)
                } else {
                    None
                },
            )
        },
    }
}

/// The first comment of `cs` that starts in `[lo, last]`.
fn find_starting_in(cs: &[Comment], lo: usize, last: usize) -> (r: Option<Comment>)
    ensures
        r == first_starting_in(cs@, lo as int, last + 1),
{
    let mut k: usize = 0;
    assert(cs@.skip(0) =~= cs@);
    while k < cs.len()
        invariant
            k <= cs@.len(),
            first_starting_in(cs@, lo as int, last + 1) == first_starting_in(
                cs@.skip(k as int),
                lo as int,
                last + 1,
            ),
        decreases cs@.len() - k,
    {
        proof {
            assert(cs@.skip(k as int)[0] == cs@[k as int]);
            assert(cs@.skip(k as int).drop_first() =~= cs@.skip(k + 1));
        }
        if lo <= cs[k].start && cs[k].start <= last {
            return Some(cs[k].clone());
        }
        k += 1;
    }
    proof {
        assert(cs@.skip(k as int) =~= Seq::<Comment>::empty());
    }
    None
}

/// Start of the line holding `byte` (clamped to the input).
fn start_of_line(b: &[u8], byte: usize) -> (r: usize)
    ensures
        r == line_start(b@, clamp(byte as int, b@.len() as int)),
        r <= b@.len(),
{
    let mut i = if byte < b.len() { byte } else { b.len() };
    proof {
        lemma_line_start_le(b@, i as int);
    }
    while i > 0 && b[i - 1] != 10
        invariant
            i <= b@.len(),
            line_start(b@, clamp(byte as int, b@.len() as int)) == line_start(b@, i as int),
        decreases i,
    {
        i -= 1;
    }
    i
}

/// The first line feed at or after `byte` (clamped to the last byte),
/// or the input's end.
fn line_end(b: &[u8], byte: usize) -> (r: usize)
    ensures
        r == next_line_feed(b@, clamp(byte as int, last_index(b@.len() as int))),
        r <= b@.len(),
{
    let last = if b.len() > 0 { b.len() - 1 } else { 0 };
    let mut i = if byte < last { byte } else { last };
    while i < b.len() && b[i] != 10
        invariant
            i <= b@.len(),
            next_line_feed(b@, clamp(byte as int, last_index(b@.len() as int))) == next_line_feed(
                b@,
                i as int,
            ),
        decreases b@.len() - i,
    {
        i += 1;
    }
    i
}

/// The first byte at or after `p` that is not a space or tab.
fn skip_indent(b: &[u8], p: usize) -> (r: usize)
    requires
        p <= b@.len(),
    ensures
        r == indent_end(b@, p as int),
        p <= r <= b@.len(),
{
    let mut i = p;
    while i < b.len() && (b[i] == 32 || b[i] == 9)
        invariant
            p <= i <= b@.len(),
            indent_end(b@, p as int) == indent_end(b@, i as int),
        decreases b@.len() - i,
    {
        i += 1;
    }
    i
}

/// The comments of the node spanning `span` in `source` (none where no
/// node was found), given the comments scanned from `source` in source
/// order: the run of comment lines just above the node, and, for a node
/// on one line, the first comment after it on that line.
pub fn comments_at(source: &str, span: Option<(usize, usize)>, comments: &[Comment]) -> (r:
    CommentBundle)
    requires
        span matches Some((s, e)) ==> s <= e <= source.spec_bytes().len(),
    ensures
        (r.before@, r.inline) == spec_comments_at(source.spec_bytes(), span, comments@),
{
    let (start, end) = match span {
        None => {
            let d = CommentBundle::default();
            assert(d.before@ =~= Seq::<Comment>::empty());
            return d;
        },
        Some(sp) => sp,
    };
    let b = source.as_bytes();
    let line_start_idx = start_of_line(b, start);
    let last = if end > start { end - 1 } else { start };
    let line_end_idx = line_end(b, last);
    let mut one_line = true;
    let mut k = start;
    while k < end
        invariant
            start <= k <= end <= b@.len(),
            one_line == single_line(b@, start as int, k as int),
        decreases end - k,
    {
        if b[k] == 10 {
            one_line = false;
        }
        k += 1;
    }
    let inline = if one_line {
        find_starting_in(comments, end, line_end_idx)
    } else {
        None
    };
    // Walk up, collecting the run bottom-up.
    let mut cursor = line_start_idx;
    let mut acc: Vec<Comment> = Vec::new();
    while cursor > 0
        invariant
            cursor <= b@.len(),
            leading_comments(b@, line_start_idx as int, comments@) == leading_comments(
                b@,
                cursor as int,
                comments@,
            ) + acc@.reverse(),
        ensures
            leading_comments(b@, line_start_idx as int, comments@) == acc@.reverse(),
        decreases cursor,
    {
        let prev_end = cursor - 1;
        let above = if prev_end > 0 { prev_end - 1 } else { 0 };
        let prev_start = start_of_line(b, above);
        proof {
            lemma_line_start_le(b@, clamp(cursor - 2, b@.len() as int));
        }
        let first = skip_indent(b, prev_start);
        if first >= prev_end {
            cursor = prev_start;
        } else if b[first] == 35 {
            let ghost before = acc@;
            match find_starting_in(comments, prev_start, prev_end - 1) {
                Some(c) => {
                    acc.push(c);
                },
                None => {},
            }
            proof {
                assert(acc@.reverse() =~= match first_starting_in(
                    comments@,
                    prev_start as int,
                    prev_end as int,
                ) {
                    Some(c) => seq![c],
                    None => seq![],
                } + before.reverse());
            }
            cursor = prev_start;
        } else {
            proof {
                assert(leading_comments(b@, cursor as int, comments@) =~= Seq::<Comment>::empty());
            }
            break;
        }
    }
    let mut before: Vec<Comment> = Vec::new();
    let ghost walked = acc@;
    while acc.len() > 0
        invariant
            before@ + acc@.reverse() == walked.reverse(),
        decreases acc@.len(),
    {
        let ghost prev = acc@;
        match acc.pop() {
            Some(c) => {
                proof {
                    assert(prev.reverse() =~= seq![c] + acc@.reverse());
                    assert(before@.push(c) + acc@.reverse() =~= before@ + prev.reverse());
                }
                before.push(c);
            },
            None => {},
        }
    }
    proof {
        assert(before@ =~= walked.reverse());
        assert(before@ == spec_comments_at(b@, span, comments@).0);
        assert(inline == spec_comments_at(b@, span, comments@).1);
    }
    CommentBundle { before, inline }
}

} // verus!
