//! The document-boundary pre-scan behind parallel multi-document
//! parsing: split a `---`-separated stream into per-document slices
//! in one pass, so each slice can be parsed on its own.
//!
//! A marker is `---` at the start of a line (after `\n` or `\r`, or
//! at offset 0), followed by a line break, a blank or the end of the
//! input.
use vstd::prelude::*;
use vstd::string::StringSliceAdditionalSpecFns;

use crate::text::{
    is_blank_text, is_white_space, lemma_ascii_boundary, lemma_ends_are_boundaries, on_boundary,
    str_range,
};

verus! {

/// Offset `i` starts a line: the input's start, or just after `\n`
/// or `\r`.
pub open spec fn at_line_start(b: Seq<u8>, i: int) -> bool {
    i == 0 || b[i - 1] == 10 || b[i - 1] == 13
}

/// A document marker starts at `i`: `---` at a line start, then a
/// line break, a blank, or the end.
pub open spec fn marker_at(b: Seq<u8>, i: int) -> bool {
    &&& 0 <= i && i + 3 <= b.len()
    &&& at_line_start(b, i)
    &&& b[i] == 45 && b[i + 1] == 45 && b[i + 2] == 45
    &&& (i + 3 >= b.len() || b[i + 3] == 10 || b[i + 3] == 13 || b[i + 3] == 32 || b[i + 3] == 9)
}

/// The markers found scanning from `i`, stepping past each one found.
pub open spec fn markers_from(b: Seq<u8>, i: int) -> Seq<usize>
    decreases b.len() - i,
{
    if 0 <= i && i + 3 <= b.len() {
        if marker_at(b, i) {
            seq![i as usize] + markers_from(b, i + 3)
        } else {
            markers_from(b, i + 1)
        }
    } else {
        seq![]
    }
}

/// Every character is white space.
pub open spec fn all_white(s: Seq<char>) -> bool {
    forall|i: int| 0 <= i < s.len() ==> is_white_space(#[trigger] s[i])
}

/// The byte ranges of the documents of `b`: with no marker, the whole
/// input (nothing for an empty one); otherwise the text before the
/// first marker unless it is blank, each marker up to the next, and
/// the last marker to the end unless that is blank.
pub open spec fn split_ranges(b: Seq<u8>) -> Seq<(int, int)> {
    let m = markers_from(b, 0);
    if m.len() == 0 {
        if b.len() == 0 {
            seq![]
        } else {
            seq![(0, b.len() as int)]
        }
    } else {
        let pre = if m[0] > 0 && !all_white(vstd::utf8::decode_utf8(b.subrange(0, m[0] as int))) {
            seq![(0int, m[0] as int)]
        } else {
            seq![]
        };
        let mids = Seq::new((m.len() - 1) as nat, |k: int| (m[k] as int, m[k + 1] as int));
        let last = m.last() as int;
        let post = if last < b.len() && !all_white(
            vstd::utf8::decode_utf8(b.subrange(last, b.len() as int)),
        ) {
            seq![(last, b.len() as int)]
        } else {
            seq![]
        };
        pre + mids + post
    }
}

/// What the scan finds from `i` are markers, in increasing order, at
/// or after `i`.
proof fn lemma_markers(b: Seq<u8>, i: int)
    requires
        0 <= i,
        b.len() <= usize::MAX,
    ensures
        forall|k: int|
            0 <= k < markers_from(b, i).len() ==> marker_at(b, #[trigger] markers_from(b, i)[k] as int)
                && i <= markers_from(b, i)[k],
        forall|k: int, l: int|
            0 <= k < l < markers_from(b, i).len() ==> #[trigger] markers_from(b, i)[k]
                < #[trigger] markers_from(b, i)[l],
    decreases b.len() - i,
{
    if 0 <= i && i + 3 <= b.len() {
        let s = markers_from(b, i);
        if marker_at(b, i) {
            lemma_markers(b, i + 3);
            let r = markers_from(b, i + 3);
            assert(s == seq![i as usize] + r);
            assert forall|k: int| 0 <= k < s.len() implies marker_at(b, #[trigger] s[k] as int) && i
                <= s[k] by {
                if k > 0 {
                    assert(s[k] == r[k - 1]);
                }
            }
            assert forall|k: int, l: int| 0 <= k < l < s.len() implies #[trigger] s[k]
                < #[trigger] s[l] by {
                if k > 0 {
                    assert(s[k] == r[k - 1]);
                }
                assert(s[l] == r[l - 1]);
            }
        } else {
            lemma_markers(b, i + 1);
            assert(s == markers_from(b, i + 1));
        }
    }
}

/// The text of `input` as `&str`s, one per document (see
/// [`split_ranges`]).
pub fn split(input: &str) -> (docs: Vec<&str>)
    ensures
        docs@.len() == split_ranges(input.spec_bytes()).len(),
        forall|k: int|
            0 <= k < docs@.len() ==> (#[trigger] docs@[k]).spec_bytes() == input.spec_bytes().subrange(
                split_ranges(input.spec_bytes())[k].0,
                split_ranges(input.spec_bytes())[k].1,
            ),
{
    let bytes = input.as_bytes();
    let ghost b = input.spec_bytes();
    let n = bytes.len();
    let mut markers: Vec<usize> = Vec::new();
    let mut i: usize = 0;
    proof {
        lemma_markers(b, 0);
    }
    while n >= 3 && i <= n - 3
        invariant
            bytes@ == b,
            n == b.len(),
            markers@ + markers_from(b, i as int) == markers_from(b, 0),
        decreases n - i,
    {
        let at_line_start = i == 0 || bytes[i - 1] == 10 || bytes[i - 1] == 13;
        if at_line_start && bytes[i] == 45 && bytes[i + 1] == 45 && bytes[i + 2] == 45 {
            let next_ok = i + 3 >= n || bytes[i + 3] == 10 || bytes[i + 3] == 13 || bytes[i + 3]
                == 32 || bytes[i + 3] == 9;
            if next_ok {
                proof {
                    assert(marker_at(b, i as int));
                    assert(markers@.push(i) + markers_from(b, i + 3) =~= markers@ + markers_from(
                        b,
                        i as int,
                    ));
                }
                markers.push(i);
                i += 3;
                continue ;
            }
        }
        i += 1;
    }
    proof {
        assert(markers_from(b, i as int) =~= Seq::<usize>::empty());
        assert(markers@ =~= markers_from(b, 0));
        lemma_ends_are_boundaries(input);
    }
    let ghost ranges = split_ranges(b);
    let ghost m = markers@;
    let mut docs: Vec<&str> = Vec::new();
    if markers.len() == 0 {
        if n == 0 {
            return docs;
        }
        docs.push(input);
        proof {
            assert(b.subrange(0, n as int) =~= b);
        }
        return docs;
    }
    let first = markers[0];
    proof {
        assert(marker_at(b, m[0] as int));
        lemma_ascii_boundary(input, first as int);
    }
    if first > 0 {
        let pre = str_range(input, 0, first);
        proof {
            vstd::utf8::encode_utf8_decode_utf8(pre@);
        }
        if !is_blank_text(pre) {
            docs.push(pre);
        }
    }
    let ghost pre_len = docs@.len();
    let count = markers.len();
    let mut k: usize = 0;
    while k + 1 < count
        invariant
            bytes@ == b,
            b == input.spec_bytes(),
            n == b.len(),
            m == markers@,
            m == markers_from(b, 0),
            count == m.len(),
            count >= 1,
            on_boundary(input, n as int),
            forall|x: int| 0 <= x < m.len() ==> marker_at(b, #[trigger] m[x] as int),
            forall|x: int, y: int| 0 <= x < y < m.len() ==> #[trigger] m[x] < #[trigger] m[y],
            k + 1 <= count,
            docs@.len() == pre_len + k,
            forall|x: int|
                0 <= x < docs@.len() ==> (#[trigger] docs@[x]).spec_bytes() == b.subrange(
                    ranges[x].0,
                    ranges[x].1,
                ),
            ranges == split_ranges(b),
            pre_len <= 1,
            pre_len == 1 <==> (m[0] > 0 && !all_white(vstd::utf8::decode_utf8(b.subrange(0, m[0] as int)))),
        decreases count - k,
    {
        let from = markers[k];
        let to = markers[k + 1];
        proof {
            assert(marker_at(b, m[k as int] as int));
            assert(marker_at(b, m[k + 1] as int));
            lemma_ascii_boundary(input, from as int);
            lemma_ascii_boundary(input, to as int);
        }
        docs.push(str_range(input, from, to));
        k += 1;
    }
    let last = markers[count - 1];
    if last < n {
        proof {
            assert(marker_at(b, m[count - 1] as int));
            lemma_ascii_boundary(input, last as int);
        }
        let trailing = str_range(input, last, n);
        proof {
            vstd::utf8::encode_utf8_decode_utf8(trailing@);
        }
        if !is_blank_text(trailing) {
            docs.push(trailing);
        }
    }
    docs
}

} // verus!
