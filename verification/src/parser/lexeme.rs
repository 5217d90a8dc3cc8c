//! Byte-level reading of the input: the classes of bytes the scanner
//! tests, character starts, and the pure scans of names and scalar
//! text, each from a position to where it ends.
use vstd::prelude::*;
use vstd::string::StringSliceAdditionalSpecFns;
use vstd::utf8::{is_char_boundary_iff_not_is_continuation_byte, is_continuation_byte, valid_utf8};

use crate::parser::token::ScanError;
use crate::text::{on_boundary, owned_string, push_char, push_decimal, push_str, str_range};

verus! {

pub const SP: u8 = 0x20;
pub const TAB: u8 = 0x09;
pub const LF: u8 = 0x0a;
pub const CR: u8 = 0x0d;
pub const HASH: u8 = 0x23;
pub const COLON: u8 = 0x3a;
pub const COMMA: u8 = 0x2c;
pub const LBRACKET: u8 = 0x5b;
pub const RBRACKET: u8 = 0x5d;
pub const LBRACE: u8 = 0x7b;
pub const RBRACE: u8 = 0x7d;
pub const DASH: u8 = 0x2d;
pub const DOT: u8 = 0x2e;

/// A space or a tab.
pub open spec fn is_blank(c: u8) -> bool {
    c == SP || c == TAB
}

/// A line feed or a carriage return.
pub open spec fn is_break(c: u8) -> bool {
    c == LF || c == CR
}

/// One of `,[]{}`.
pub open spec fn is_flow_indicator(c: u8) -> bool {
    c == COMMA || c == LBRACKET || c == RBRACKET || c == LBRACE || c == RBRACE
}

pub fn blank(c: u8) -> (r: bool)
    ensures
        r == is_blank(c),
{
    c == SP || c == TAB
}

pub fn line_break(c: u8) -> (r: bool)
    ensures
        r == is_break(c),
{
    c == LF || c == CR
}

pub fn blank_or_break(c: u8) -> (r: bool)
    ensures
        r == (is_blank(c) || is_break(c)),
{
    c == SP || c == TAB || c == LF || c == CR
}

pub fn flow_indicator(c: u8) -> (r: bool)
    ensures
        r == is_flow_indicator(c),
{
    c == COMMA || c == LBRACKET || c == RBRACKET || c == LBRACE || c == RBRACE
}

/// The byte at `i`, or 0 past either end.
pub open spec fn byte_at(b: Seq<u8>, i: int) -> u8 {
    if 0 <= i < b.len() {
        b[i]
    } else {
        0
    }
}

/// `i` starts a character of `b` or is its end.
pub open spec fn starts_char(b: Seq<u8>, i: int) -> bool {
    i == b.len() || (0 <= i < b.len() && !is_continuation_byte(b[i]))
}

/// In valid UTF-8 the byte after an ASCII byte starts a character.
pub proof fn lemma_after_ascii(b: Seq<u8>, j: int)
    requires
        valid_utf8(b),
        0 <= j < b.len(),
        b[j] < 0x80,
    ensures
        starts_char(b, j + 1),
{
    is_char_boundary_iff_not_is_continuation_byte(b, j);
    vstd::utf8::valid_utf8_split(b, j);
    let s = b.subrange(j, b.len() as int);
    assert(s[0] == b[j]);
    reveal_with_fuel(valid_utf8, 2);
    let t = vstd::utf8::pop_first_scalar(s);
    assert(t =~= b.subrange(j + 1, b.len() as int));
    if j + 1 < b.len() {
        assert(t[0] == b[j + 1]);
    }
}

/// In valid UTF-8, past a three-byte character starting at a character
/// start `p` (such as a byte-order mark) is again a character start.
pub proof fn lemma_after_lead3(b: Seq<u8>, p: int)
    requires
        valid_utf8(b),
        starts_char(b, p),
        p + 3 <= b.len(),
        0xe0 <= b[p] <= 0xef,
    ensures
        starts_char(b, p + 3),
{
    vstd::utf8::is_char_boundary_iff_not_is_continuation_byte(b, p);
    vstd::utf8::valid_utf8_split(b, p);
    let s = b.subrange(p, b.len() as int);
    assert(s[0] == b[p]);
    reveal_with_fuel(valid_utf8, 2);
    let t = vstd::utf8::pop_first_scalar(s);
    assert(t =~= b.subrange(p + 3, b.len() as int));
    if p + 3 < b.len() {
        assert(t[0] == b[p + 3]);
    }
}

/// `---` or `...` at `p` of `b`, followed by a blank, a break or the
/// end.
pub open spec fn is_marker(b: Seq<u8>, p: int) -> bool {
    let c = byte_at(b, p);
    &&& (c == DASH || c == DOT)
    &&& byte_at(b, p + 1) == c
    &&& byte_at(b, p + 2) == c
    &&& (p + 3 >= b.len() || is_blank(byte_at(b, p + 3)) || is_break(byte_at(b, p + 3)))
}

/// The input as text and as bytes, side by side.
pub struct Source<'a> {
    pub text: &'a str,
    pub bytes: &'a [u8],
}

impl<'a> Source<'a> {
    /// The two views agree and the input fits an `isize`.
    pub open spec fn wf(&self) -> bool {
        &&& self.bytes@ == self.text.spec_bytes()
        &&& self.bytes@.len() <= isize::MAX
    }

    pub open spec fn len(&self) -> int {
        self.bytes@.len() as int
    }

    /// The byte at `i`, or 0 past the end.
    pub fn at(&self, i: usize) -> (c: u8)
        ensures
            c == byte_at(self.bytes@, i as int),
    {
        if i < self.bytes.len() {
            self.bytes[i]
        } else {
            0
        }
    }

    pub proof fn lemma_valid(&self)
        requires
            self.wf(),
        ensures
            valid_utf8(self.bytes@),
    {
        vstd::utf8::encode_utf8_valid_utf8(self.text@);
    }

    /// A byte below 0x80 starts a character, and so does the byte after.
    pub proof fn lemma_ascii(&self, j: int)
        requires
            self.wf(),
            0 <= j < self.bytes@.len(),
            self.bytes@[j] < 0x80,
        ensures
            starts_char(self.bytes@, j),
            starts_char(self.bytes@, j + 1),
    {
        self.lemma_valid();
        lemma_after_ascii(self.bytes@, j);
    }

    /// The text from `start` to `end`.
    pub fn slice(&self, start: usize, end: usize) -> (r: &'a str)
        requires
            self.wf(),
            start <= end <= self.bytes@.len(),
            starts_char(self.bytes@, start as int),
            starts_char(self.bytes@, end as int),
        ensures
            r.spec_bytes() == self.bytes@.subrange(start as int, end as int),
    {
        proof {
            self.lemma_valid();
            if start == self.bytes@.len() {
                vstd::utf8::is_char_boundary_start_end_of_seq(self.bytes@);
            } else {
                is_char_boundary_iff_not_is_continuation_byte(self.bytes@, start as int);
            }
            if end == self.bytes@.len() {
                vstd::utf8::is_char_boundary_start_end_of_seq(self.bytes@);
            } else {
                is_char_boundary_iff_not_is_continuation_byte(self.bytes@, end as int);
            }
        }
        str_range(self.text, start, end)
    }

    /// Where the run of blanks at `from` ends.
    pub fn blanks_end(&self, from: usize) -> (e: usize)
        requires
            from <= self.bytes@.len(),
        ensures
            from <= e <= self.bytes@.len(),
            e == blanks_from(self.bytes@, from as int),
            !is_blank(byte_at(self.bytes@, e as int)),
            forall|i: int| from <= i < e ==> is_blank(#[trigger] self.bytes@[i]),
    {
        let n = self.bytes.len();
        let mut e = from;
        while e < n && blank(self.bytes[e])
            invariant
                from <= e <= n,
                n == self.bytes@.len(),
                blanks_from(self.bytes@, e as int) == blanks_from(self.bytes@, from as int),
                forall|i: int| from <= i < e ==> is_blank(#[trigger] self.bytes@[i]),
            decreases n - e,
        {
            e = e + 1;
        }
        e
    }

    /// Where the first line break at or after `from` lies, or the end.
    pub fn line_end(&self, from: usize) -> (e: usize)
        requires
            from <= self.bytes@.len(),
        ensures
            from <= e <= self.bytes@.len(),
            e < self.bytes@.len() ==> is_break(self.bytes@[e as int]),
            forall|i: int| from <= i < e ==> !is_break(#[trigger] self.bytes@[i]),
    {
        let n = self.bytes.len();
        let mut e = from;
        while e < n && !line_break(self.bytes[e])
            invariant
                from <= e <= n,
                n == self.bytes@.len(),
                forall|i: int| from <= i < e ==> !is_break(#[trigger] self.bytes@[i]),
            decreases n - e,
        {
            e = e + 1;
        }
        e
    }

    /// The byte `c` ends a name or tag run: `>` when `angle_stops`, else a
    /// blank, a break, or a flow indicator.
    pub open spec fn run_stops(c: u8, angle_stops: bool) -> bool {
        if angle_stops {
            c == 0x3e
        } else {
            is_blank(c) || is_break(c) || is_flow_indicator(c)
        }
    }

    /// Where the run at `from` ends (see [`Self::run_stops`]), stepping at
    /// most `limit` bytes past `from` before giving up one byte later;
    /// the flag tells whether it gave up.
    pub fn run_end(&self, from: usize, limit: usize, angle_stops: bool) -> (r: (usize, bool))
        requires
            from <= self.bytes@.len(),
        ensures
            from <= r.0 <= self.bytes@.len(),
            r.1 ==> r.0 < self.bytes@.len() && r.0 - from > limit && !Self::run_stops(
                self.bytes@[r.0 as int],
                angle_stops,
            ),
            !r.1 ==> r.0 - from <= limit + 1 && (r.0 == self.bytes@.len() || Self::run_stops(
                self.bytes@[r.0 as int],
                angle_stops,
            )),
            !r.1 ==> r.0 == self.bytes@.len() || self.bytes@[r.0 as int] < 0x80,
            forall|i: int| from <= i < r.0 ==> !Self::run_stops(#[trigger] self.bytes@[i], angle_stops),
            r.1 ==> r.0 - from == limit + 1,
    {
        let n = self.bytes.len();
        let mut e = from;
        let mut over = false;
        while e < n
            invariant_except_break
                !over,
                e - from <= limit + 1,
            invariant
                from <= e <= n,
                n == self.bytes@.len(),
                forall|i: int| from <= i < e ==> !Self::run_stops(#[trigger] self.bytes@[i], angle_stops),
            ensures
                from <= e <= n,
                forall|i: int| from <= i < e ==> !Self::run_stops(#[trigger] self.bytes@[i], angle_stops),
                over ==> e < n && e - from > limit && e - from == limit + 1 && !Self::run_stops(self.bytes@[e as int], angle_stops),
                !over ==> e - from <= limit + 1 && (e == n || Self::run_stops(self.bytes@[e as int], angle_stops)),
            decreases n - e,
        {
            let c = self.bytes[e];
            let stop = if angle_stops {
                c == 0x3e
            } else {
                blank_or_break(c) || flow_indicator(c)
            };
            if stop {
                break;
            }
            if e - from > limit {
                over = true;
                break;
            }
            e = e + 1;
        }
        (e, over)
    }

    /// Where the run at `from` of bytes that are neither blank, break
    /// nor `#` ends.
    pub fn word_end(&self, from: usize) -> (e: usize)
        requires
            from <= self.bytes@.len(),
        ensures
            from <= e <= self.bytes@.len(),
            e == self.bytes@.len() || is_blank(self.bytes@[e as int]) || is_break(
                self.bytes@[e as int],
            ) || self.bytes@[e as int] == HASH,
            forall|i: int|
                from <= i < e ==> !(is_blank(#[trigger] self.bytes@[i]) || is_break(self.bytes@[i])
                    || self.bytes@[i] == HASH),
    {
        let n = self.bytes.len();
        let mut e = from;
        while e < n && !(blank_or_break(self.bytes[e]) || self.bytes[e] == HASH)
            invariant
                from <= e <= n,
                n == self.bytes@.len(),
                forall|i: int|
                    from <= i < e ==> !(is_blank(#[trigger] self.bytes@[i]) || is_break(
                        self.bytes@[i],
                    ) || self.bytes@[i] == HASH),
            decreases n - e,
        {
            e = e + 1;
        }
        e
    }
}

/// `next`, the byte after a `:`, makes the `:` a value indicator: a
/// blank, a break, or in flow context `,`, `]` or `}`.
pub fn colon_ends(next: u8, in_flow: bool) -> (r: bool)
    ensures
        r == (is_blank(next) || is_break(next) || (in_flow && (next == COMMA || next == RBRACKET
            || next == RBRACE))),
{
    blank_or_break(next) || (in_flow && (next == COMMA || next == RBRACKET || next == RBRACE))
}

/// Append the characters of `ws` from `from` on to `out`.
pub fn push_chars(out: &mut String, ws: &Vec<char>, from: usize)
    requires
        from <= ws@.len(),
    ensures
        final(out)@ == old(out)@ + ws@.skip(from as int),
{
    let mut i = from;
    while i < ws.len()
        invariant
            from <= i <= ws@.len(),
            out@ == old(out)@ + ws@.subrange(from as int, i as int),
        decreases ws@.len() - i,
    {
        push_char(out, ws[i]);
        assert(ws@.subrange(from as int, i + 1) =~= ws@.subrange(from as int, i as int).push(
            ws@[i as int],
        ));
        i = i + 1;
    }
    assert(ws@.subrange(from as int, ws@.len() as int) =~= ws@.skip(from as int));
}

/// The column after the byte `c`: back to 0 past a line feed.
pub fn step_col(c: u8, col: usize) -> (r: usize)
    requires
        col < usize::MAX,
    ensures
        r == (if c == LF {
            0
        } else {
            col + 1
        }),
{
    if c == LF {
        0
    } else {
        col + 1
    }
}

/// What a plain scalar read across lines came to.
pub struct PlainScan {
    pub text: String,
    pub end: usize,
    pub leading_blanks: bool,
    pub nonempty: bool,
}

impl<'a> Source<'a> {
    /// For a plain scalar at `p`: whether it ends on this line, and the
    /// length of its one-line content.
    pub fn plain_fast_len(&self, p: usize, in_flow: bool) -> (r: (bool, usize))
        requires
            p <= self.bytes@.len(),
        ensures
            p + r.1 <= self.bytes@.len(),
            p + r.1 == self.bytes@.len() || self.bytes@[p + r.1] < 0x80,
    {
        let n = self.bytes.len();
        let rem_len = n - p;
        let mut search_end = rem_len;
        let mut single = true;
        let mut i: usize = 0;
        while i < rem_len
            invariant_except_break
                search_end == rem_len,
            invariant
                i <= rem_len,
                rem_len == n - p,
                p <= n,
                n == self.bytes@.len(),
            ensures
                search_end <= rem_len,
                search_end == rem_len || (self.bytes@[p + search_end] < 0x80 && !is_blank(
                    self.bytes@[p + search_end],
                )),
            decreases rem_len - i,
        {
            let b = self.bytes[p + i];
            if line_break(b) {
                search_end = i;
                single = false;
                break;
            }
            if b == HASH && i > 0 && blank(self.bytes[p + i - 1]) {
                search_end = i;
                break;
            }
            i = i + 1;
        }
        let mut len: usize = 0;
        while len < search_end
            invariant
                len <= search_end <= rem_len,
                rem_len == n - p,
                p <= n,
                n == self.bytes@.len(),
                search_end == rem_len || (self.bytes@[p + search_end] < 0x80 && !is_blank(
                    self.bytes@[p + search_end],
                )),
            ensures
                len <= search_end,
                p + len == n || self.bytes@[p + len] < 0x80,
            decreases search_end - len,
        {
            let c = self.bytes[p + len];
            if c == COLON {
                let next = if len + 1 < rem_len {
                    self.bytes[p + len + 1]
                } else {
                    0
                };
                if colon_ends(next, in_flow) {
                    break;
                }
            }
            if in_flow && flow_indicator(c) {
                break;
            }
            if blank(c) {
                let mut j = len + 1;
                while j < rem_len && blank(self.bytes[p + j])
                    invariant
                        len < j <= rem_len,
                        rem_len == n - p,
                        p <= n,
                        n == self.bytes@.len(),
                        forall|k: int| len < k < j ==> is_blank(#[trigger] self.bytes@[p + k]),
                    decreases rem_len - j,
                {
                    j = j + 1;
                }
                if j >= rem_len || line_break(self.bytes[p + j]) || self.bytes[p + j] == HASH {
                    break;
                }
                if self.bytes[p + j] == COLON && (j + 1 >= rem_len || colon_ends(
                    self.bytes[p + j + 1],
                    in_flow,
                )) {
                    break;
                }
                assert(j <= search_end) by {
                    if j > search_end {
                        assert(is_blank(self.bytes@[p + search_end]));
                    }
                }
                len = j;
                continue;
            }
            len = len + 1;
        }
        (single, len)
    }

    /// `---` or `...` at `p`, followed by a blank, a break or the end.
    pub fn marker_at(&self, p: usize) -> (r: bool)
        requires
            self.wf(),
            p <= self.bytes@.len(),
        ensures
            r == is_marker(self.bytes@, p as int),
            r ==> p < self.bytes@.len() && (self.bytes@[p as int] == DASH || self.bytes@[p as int]
                == DOT),
    {
        let c = self.at(p);
        let n = self.bytes.len();
        let open_end = p + 3 >= n || blank_or_break(self.at(p + 3));
        (c == DASH || c == DOT) && self.at(p + 1) == c && self.at(p + 2) == c && open_end
    }

    /// The length of the run of plain-scalar content at `p`, whose
    /// column is `col`.
    pub fn plain_run_len(&self, p: usize, col: usize, in_flow: bool) -> (length: usize)
        requires
            self.wf(),
            p <= self.bytes@.len(),
        ensures
            p + length <= self.bytes@.len(),
            p + length == self.bytes@.len() || self.bytes@[p + length] < 0x80,
            forall|k: int| p <= k < p + length ==> !is_break(#[trigger] self.bytes@[k]),
    {
        let n = self.bytes.len();
        let rem_len = n - p;
        let mut length: usize = 0;
        while length < rem_len
            invariant
                self.wf(),
                length <= rem_len,
                rem_len == n - p,
                p <= n,
                n == self.bytes@.len(),
                forall|k: int| p <= k < p + length ==> !is_break(#[trigger] self.bytes@[k]),
            ensures
                length <= rem_len,
                p + length == n || self.bytes@[p + length] < 0x80,
                forall|k: int| p <= k < p + length ==> !is_break(#[trigger] self.bytes@[k]),
            decreases rem_len - length,
        {
            let c = self.bytes[p + length];
            if c == COLON {
                let next = if length + 1 < rem_len {
                    self.bytes[p + length + 1]
                } else {
                    0
                };
                if colon_ends(next, in_flow) {
                    break;
                }
            }
            if in_flow && flow_indicator(c) {
                break;
            }
            if blank_or_break(c) {
                break;
            }
            if c == HASH && (length == 0 || blank(self.bytes[p + length - 1])) {
                break;
            }
            if length == 0 && col == 0 && self.marker_at(p) {
                break;
            }
            length = length + 1;
        }
        length
    }

    /// A plain scalar across lines from `start` (at column `start_col`):
    /// runs of content joined by folded line breaks. In block context
    /// it ends at a line indented no deeper than `indent`.
    pub fn plain_multiline(&self, start: usize, start_col: usize, in_flow: bool, indent: isize) -> (r: PlainScan)
        requires
            self.wf(),
            start <= self.bytes@.len(),
            start_col <= start,
            starts_char(self.bytes@, start as int),
        ensures
            start <= r.end <= self.bytes@.len(),
            starts_char(self.bytes@, r.end as int),
            r.nonempty ==> r.end > start,
    {
        let n = self.bytes.len();
        let mut string = String::new();
        let mut whitespace: Vec<char> = Vec::new();
        let mut leading_blanks = false;
        let mut nonempty = false;
        let mut i = start;
        let mut col = start_col;
        loop
            invariant
                self.wf(),
                n == self.bytes@.len(),
                start <= i <= n,
                col <= i,
                starts_char(self.bytes@, i as int),
                nonempty ==> i > start,
            decreases n - i,
        {
            let ghost round = i;
            let length = self.plain_run_len(i, col, in_flow);
            if length == 0 && !leading_blanks {
                break;
            }
            if length > 0 {
                if leading_blanks {
                    if whitespace.len() > 0 && whitespace[0] == '\n' {
                        if whitespace.len() == 1 {
                            push_char(&mut string, ' ');
                        } else {
                            push_chars(&mut string, &whitespace, 1);
                        }
                    } else {
                        push_chars(&mut string, &whitespace, 0);
                    }
                    whitespace.clear();
                } else if whitespace.len() > 0 {
                    push_chars(&mut string, &whitespace, 0);
                    whitespace.clear();
                }
                proof {
                    if i + length < n {
                        self.lemma_ascii((i + length) as int);
                    }
                }
                let seg = self.slice(i, i + length);
                push_str(&mut string, seg);
                i = i + length;
                col = col + length;
                nonempty = true;
            }
            if !blank_or_break(self.at(i)) {
                break;
            }
            let ghost gap = i;
            whitespace.clear();
            while blank(self.at(i))
                invariant
                    self.wf(),
                    n == self.bytes@.len(),
                    round <= gap <= i <= n,
                    col <= i,
                    starts_char(self.bytes@, i as int),
                    nonempty ==> i > start,
                    i == gap ==> is_blank(byte_at(self.bytes@, gap as int)) || is_break(
                        byte_at(self.bytes@, gap as int),
                    ),
                decreases n - i,
            {
                whitespace.push(
                    if self.at(i) == SP {
                        ' '
                    } else {
                        '\t'
                    },
                );
                proof {
                    self.lemma_ascii(i as int);
                }
                i = i + 1;
                col = col + 1;
            }
            if line_break(self.at(i)) {
                leading_blanks = true;
                whitespace.clear();
                loop
                    invariant_except_break
                        is_break(byte_at(self.bytes@, i as int)),
                    invariant
                        self.wf(),
                        n == self.bytes@.len(),
                        round <= i <= n,
                        col <= i,
                        starts_char(self.bytes@, i as int),
                        nonempty ==> i > start,
                    ensures
                        self.wf(),
                        round < i <= n,
                        col <= i,
                        starts_char(self.bytes@, i as int),
                        nonempty ==> i > start,
                    decreases n - i,
                {
                    let ghost top = i;
                    let c = self.at(i);
                    whitespace.push('\n');
                    if c == CR && self.at(i + 1) == LF {
                        proof {
                            self.lemma_ascii((i + 1) as int);
                        }
                        i = i + 2;
                        col = 0;
                    } else {
                        proof {
                            self.lemma_ascii(i as int);
                        }
                        col = step_col(c, col);
                        i = i + 1;
                    }
                    while blank(self.at(i))
                        invariant
                            self.wf(),
                            n == self.bytes@.len(),
                            round <= top < i <= n,
                            col <= i,
                            starts_char(self.bytes@, i as int),
                            nonempty ==> i > start,
                        decreases n - i,
                    {
                        proof {
                            self.lemma_ascii(i as int);
                        }
                        i = i + 1;
                        col = col + 1;
                    }
                    if !line_break(self.at(i)) {
                        break;
                    }
                }
                if !in_flow && (col as isize) <= indent {
                    break;
                }
            }
            assert(i > round);
        }
        PlainScan { text: string, end: i, leading_blanks, nonempty }
    }
}

/// `char::from_u32`: the character whose scalar value is `code`, when
/// `code` is one (at most 0x10FFFF and outside the surrogates).
#[verifier::external_body]
fn char_from_u32(code: u32) -> (r: Option<char>)
    ensures
        r is Some <==> (code < 0xD800 || (0xE000 <= code && code <= 0x10FFFF)),
        r matches Some(c) ==> c as u32 == code,
{
    char::from_u32(code)
}

/// The value of the hexadecimal digit `c` (`0-9`, `A-F`, `a-f`), if
/// it is one.
pub open spec fn hex_value(c: u8) -> Option<u32> {
    if 0x30 <= c <= 0x39 {
        Some((c - 0x30) as u32)
    } else if 0x41 <= c <= 0x46 {
        Some((c - 0x41 + 10) as u32)
    } else if 0x61 <= c <= 0x66 {
        Some((c - 0x61 + 10) as u32)
    } else {
        None
    }
}

/// The value of the hexadecimal digit `c`, if it is one.
pub fn hex_digit(c: u8) -> (r: Option<u32>)
    ensures
        r == hex_value(c),
        r matches Some(v) ==> v < 16 && c < 0x80,
{
    if 0x30 <= c && c <= 0x39 {
        Some((c - 0x30) as u32)
    } else if 0x41 <= c && c <= 0x46 {
        Some((c - 0x41 + 10) as u32)
    } else if 0x61 <= c && c <= 0x66 {
        Some((c - 0x61 + 10) as u32)
    } else {
        None
    }
}

/// The upper-case hexadecimal digit of `d`.
pub open spec fn hex_char(d: nat) -> char {
    if d < 10 {
        (0x30 + d) as char
    } else {
        (0x41 + d - 10) as char
    }
}

/// The digits of `x` in upper-case hexadecimal, least significant
/// first, padded with zeros to four and at most eight, once `len` are
/// already written.
pub open spec fn hex_rev(x: nat, len: nat) -> Seq<char>
    decreases 8 - len,
{
    if len >= 8 || !(x > 0 || len < 4) {
        seq![]
    } else {
        seq![hex_char(x % 16)] + hex_rev(x / 16, len + 1)
    }
}

/// `v` in upper-case hexadecimal, at least four digits.
pub open spec fn hex4_text(v: nat) -> Seq<char> {
    let d = hex_rev(v, 0);
    Seq::new(d.len(), |k: int| d[d.len() - 1 - k])
}

/// Append `v` in upper-case hexadecimal, at least four digits.
fn push_hex4(out: &mut String, v: u32)
    ensures
        final(out)@ == old(out)@ + hex4_text(v as nat),
{
    let mut digits: Vec<char> = Vec::new();
    let mut x = v;
    while x > 0 || digits.len() < 4
        invariant
            digits@.len() <= 8,
            digits@ + hex_rev(x as nat, digits@.len() as nat) == hex_rev(v as nat, 0),
        ensures
            digits@ + hex_rev(x as nat, digits@.len() as nat) == hex_rev(v as nat, 0),
            digits@.len() >= 8 || !(x > 0 || digits@.len() < 4),
        decreases x, 4 - digits@.len(),
    {
        if digits.len() >= 8 {
            break;
        }
        let d = x % 16;
        let c = if d < 10 {
            (0x30 + d as u8) as char
        } else {
            (0x41 + (d - 10) as u8) as char
        };
        assert(c == hex_char(d as nat));
        let ghost before = digits@;
        digits.push(c);
        x = x / 16;
        assert(digits@ + hex_rev(x as nat, digits@.len() as nat) =~= before + hex_rev(
            (x * 16 + d) as nat,
            before.len() as nat,
        ));
    }
    assert(hex_rev(x as nat, digits@.len() as nat) =~= seq![]);
    assert(digits@ =~= hex_rev(v as nat, 0));
    let ghost d = digits@;
    let mut i = digits.len();
    while i > 0
        invariant
            i <= digits@.len(),
            digits@ == d,
            out@ == old(out)@ + Seq::new((d.len() - i) as nat, |k: int| d[d.len() - 1 - k]),
        decreases i,
    {
        push_char(out, digits[i - 1]);
        i = i - 1;
        assert(Seq::new((d.len() - i) as nat, |k: int| d[d.len() - 1 - k]) =~= Seq::new(
            (d.len() - i - 1) as nat,
            |k: int| d[d.len() - 1 - k],
        ).push(d[i as int]));
    }
    assert(Seq::new(d.len(), |k: int| d[d.len() - 1 - k]) =~= Seq::new(
        (d.len() - 0) as nat,
        |k: int| d[d.len() - 1 - k],
    ));
}

/// What a quoted scalar read came to: its text and where it ended.
pub struct QuotedScan {
    pub text: String,
    pub end: usize,
}

impl<'a> Source<'a> {
    /// A `---` or `...` at the start of a line inside a quoted scalar is
    /// an error.
    fn reject_doc_marker_in_quoted(&self, i: usize, col: usize, style: &str) -> (r: Result<(), ScanError>)
        requires
            self.wf(),
            i <= self.bytes@.len(),
        ensures
            r matches Err(e) ==> e.index == i,
            r is Err <==> col == 0 && is_marker(self.bytes@, i as int),
    {
        if col != 0 || i >= self.bytes.len() {
            return Ok(());
        }
        let p0 = self.at(i);
        if p0 != DASH && p0 != DOT {
            return Ok(());
        }
        if self.at(i + 1) != p0 || self.at(i + 2) != p0 {
            return Ok(());
        }
        if i + 3 < self.bytes.len() && !blank_or_break(self.at(i + 3)) {
            return Ok(());
        }
        let mut m = owned_string("document marker '");
        push_str(&mut m, if p0 == DASH {
            "---"
        } else {
            "..."
        });
        push_str(&mut m, "' is not allowed inside a ");
        push_str(&mut m, style);
        push_str(&mut m, " scalar");
        Err(ScanError { message: m, index: i })
    }

    /// In block context a quoted scalar's continuation line must be
    /// indented deeper than the enclosing block.
    fn require_quoted_continuation_indent(
        &self,
        i: usize,
        col: usize,
        in_flow: bool,
        indent: isize,
        style: &str,
    ) -> (r: Result<(), ScanError>)
        requires
            self.wf(),
            i <= self.bytes@.len(),
            col <= i,
        ensures
            r matches Err(e) ==> e.index == i,
            r is Err <==> !in_flow && i < self.bytes@.len() && !is_break(self.bytes@[i as int])
                && col as int <= indent,
    {
        if in_flow {
            return Ok(());
        }
        if i >= self.bytes.len() || line_break(self.at(i)) {
            return Ok(());
        }
        if (col as isize) <= indent {
            let mut m = owned_string(style);
            push_str(&mut m, " continuation must be indented more than the parent block");
            return Err(ScanError { message: m, index: i });
        }
        Ok(())
    }

    /// Flush pending folded whitespace before content: a lone folded
    /// break becomes a space, kept breaks and blanks go in as they are.
    fn flush_fold(string: &mut String, whitespace: &mut Vec<char>, leading_break: bool)
        ensures
            final(whitespace)@.len() == 0,
            !leading_break && old(whitespace)@.len() == 0 ==> final(string)@ == old(string)@,
    {
        if leading_break {
            if whitespace.len() == 0 {
                push_char(string, ' ');
            } else {
                push_chars(string, whitespace, 0);
            }
        } else if whitespace.len() > 0 {
            push_chars(string, whitespace, 0);
        }
        whitespace.clear();
    }

    /// Step over a line break and the blanks after it inside a quoted
    /// scalar, with the checks a continuation line must pass; `i` and
    /// `col` move on.
    fn quoted_line_break(
        &self,
        i: &mut usize,
        col: &mut usize,
        in_flow: bool,
        indent: isize,
        style: &str,
    ) -> (r: Result<(), ScanError>)
        requires
            self.wf(),
            *old(i) < self.bytes@.len(),
            is_break(self.bytes@[*old(i) as int]),
            *old(col) <= *old(i),
        ensures
            *old(i) < *final(i) <= self.bytes@.len(),
            *final(col) <= *final(i),
            starts_char(self.bytes@, *final(i) as int),
            r matches Err(e) ==> e.index <= self.bytes@.len(),
    {
        let c = self.at(*i);
        if c == CR && self.at(*i + 1) == LF {
            proof {
                self.lemma_ascii((*i + 1) as int);
            }
            *i = *i + 2;
            *col = 0;
        } else {
            proof {
                self.lemma_ascii(*i as int);
            }
            *col = step_col(c, *col);
            *i = *i + 1;
        }
        self.reject_doc_marker_in_quoted(*i, *col, style)?;
        let e = self.blanks_end(*i);
        proof {
            if e > *i {
                self.lemma_ascii((e - 1) as int);
            }
        }
        *col = *col + (e - *i);
        *i = e;
        self.require_quoted_continuation_indent(*i, *col, in_flow, indent, style)?;
        Ok(())
    }

    /// Step over one character at `i`: its leading byte and any
    /// continuation bytes.
    fn char_end(&self, i: usize) -> (e: usize)
        requires
            i < self.bytes@.len(),
        ensures
            i < e <= self.bytes@.len(),
            starts_char(self.bytes@, e as int),
            forall|k: int| i < k < e ==> 0x80 <= #[trigger] self.bytes@[k] <= 0xbf,
    {
        let n = self.bytes.len();
        let mut e = i + 1;
        while e < n && (self.bytes[e] & 0xC0) == 0x80
            invariant
                i < e <= n,
                n == self.bytes@.len(),
                forall|k: int| i < k < e ==> 0x80 <= #[trigger] self.bytes@[k] <= 0xbf,
            decreases n - e,
        {
            let ghost x = self.bytes@[e as int];
            assert((x & 0xC0) == 0x80 ==> 0x80 <= x && x <= 0xbf) by (bit_vector);
            e = e + 1;
        }
        proof {
            if e < n {
                let b = self.bytes@[e as int];
                assert((b & 0xC0) != 0x80 ==> !(0x80 <= b && b <= 0xbf)) by (bit_vector);
            }
        }
        e
    }

    /// A single-quoted scalar whose opening quote is at `start`: `''`
    /// stands for a quote, and line breaks fold.
    pub fn single_quoted(&self, start: usize, start_col: usize, in_flow: bool, indent: isize) -> (r: Result<QuotedScan, ScanError>)
        requires
            self.wf(),
            start < self.bytes@.len(),
            self.bytes@[start as int] < 0x80,
            start_col <= start,
        ensures
            r matches Ok(q) ==> start < q.end <= self.bytes@.len() && starts_char(self.bytes@, q.end as int),
            r matches Err(e) ==> e.index <= self.bytes@.len(),
    {
        let n = self.bytes.len();
        let mut string = String::new();
        let mut whitespace: Vec<char> = Vec::new();
        let mut leading_break = false;
        proof {
            self.lemma_ascii(start as int);
        }
        let mut i = start + 1;
        let mut col = start_col + 1;
        loop
            invariant
                self.wf(),
                n == self.bytes@.len(),
                start < i <= n,
                col <= i,
                starts_char(self.bytes@, i as int),
            decreases n - i,
        {
            if i >= n {
                return Err(ScanError { message: owned_string("unterminated single-quoted string"), index: i });
            }
            let c = self.at(i);
            if c == 0x27 {
                if self.at(i + 1) == 0x27 {
                    Self::flush_fold(&mut string, &mut whitespace, leading_break);
                    leading_break = false;
                    push_char(&mut string, '\'');
                    proof {
                        self.lemma_ascii((i + 1) as int);
                    }
                    i = i + 2;
                    col = col + 2;
                } else {
                    Self::flush_fold(&mut string, &mut whitespace, leading_break);
                    proof {
                        self.lemma_ascii(i as int);
                    }
                    return Ok(QuotedScan { text: string, end: i + 1 });
                }
            } else if line_break(c) {
                if leading_break {
                    whitespace.push('\n');
                } else {
                    whitespace.clear();
                    leading_break = true;
                }
                self.quoted_line_break(&mut i, &mut col, in_flow, indent, "single-quoted")?;
            } else {
                Self::flush_fold(&mut string, &mut whitespace, leading_break);
                leading_break = false;
                if blank(c) {
                    let b0 = i;
                    let e = self.blanks_end(i);
                    proof {
                        self.lemma_ascii((e - 1) as int);
                    }
                    col = col + (e - i);
                    i = e;
                    if line_break(self.at(i)) || self.at(i) == 0x27 {
                        let mut k = b0;
                        while k < e
                            invariant
                                b0 <= k <= e,
                                e <= n,
                                n == self.bytes@.len(),
                            decreases e - k,
                        {
                            whitespace.push(if self.bytes[k] == SP {
                                ' '
                            } else {
                                '\t'
                            });
                            k = k + 1;
                        }
                    } else {
                        push_str(&mut string, self.slice(b0, e));
                    }
                } else {
                    let e = self.char_end(i);
                    push_str(&mut string, self.slice(i, e));
                    col = col + (e - i);
                    i = e;
                }
            }
        }
    }
}

impl<'a> Source<'a> {
    /// `\x`, `\u` or `\U` escape: `digits` hexadecimal digits from `i`
    /// naming a Unicode scalar.
    fn hex_escape(&self, i: usize, digits: usize) -> (r: Result<(char, usize), ScanError>)
        requires
            self.wf(),
            i <= self.bytes@.len(),
            digits <= 8,
        ensures
            r matches Ok((c, e)) ==> e == i + digits && e <= self.bytes@.len() && (e == i || self.bytes@[e - 1] < 0x80),
            r matches Err(e) ==> e.index <= self.bytes@.len(),
    {
        let n = self.bytes.len();
        let mut code: u32 = 0;
        let mut k: usize = 0;
        while k < digits
            invariant
                k <= digits <= 8,
                i <= n,
                n == self.bytes@.len(),
                i + k <= n,
                code < pow16(k as nat),
                k > 0 ==> self.bytes@[i + k - 1] < 0x80,
            decreases digits - k,
        {
            let d = if i + k < n {
                hex_digit(self.bytes[i + k])
            } else {
                None
            };
            match d {
                Some(v) => {
                    proof {
                        lemma_pow16_step(k as nat);
                    }
                    code = code * 16 + v;
                    k = k + 1;
                },
                None => {
                    let mut m = owned_string("expected ");
                    push_decimal(&mut m, digits);
                    push_str(&mut m, " hex digits in escape sequence");
                    return Err(ScanError { message: m, index: i });
                },
            }
        }
        match char_from_u32(code) {
            Some(c) => Ok((c, i + digits)),
            None => {
                let mut m = owned_string("invalid Unicode code point U+");
                push_hex4(&mut m, code);
                Err(ScanError { message: m, index: i })
            },
        }
    }

    /// The character a one-letter escape `\e` stands for.
    fn simple_escape(e: u8) -> (r: Option<char>)
        ensures
            r == escape_char(e),
            r is Some ==> e < 0x80,
    {
        if e == 0x30 {
            Some('\0')
        } else if e == 0x61 {
            Some('\x07')
        } else if e == 0x62 {
            Some('\x08')
        } else if e == 0x74 || e == TAB {
            Some('\t')
        } else if e == 0x6e {
            Some('\n')
        } else if e == 0x76 {
            Some('\x0B')
        } else if e == 0x66 {
            Some('\x0C')
        } else if e == 0x72 {
            Some('\r')
        } else if e == 0x65 {
            Some('\x1B')
        } else if e == SP {
            Some(' ')
        } else if e == 0x22 {
            Some('"')
        } else if e == 0x2f {
            Some('/')
        } else if e == 0x5c {
            Some('\\')
        } else if e == 0x4e {
            Some('\u{0085}')
        } else if e == 0x5f {
            Some('\u{00A0}')
        } else if e == 0x4c {
            Some('\u{2028}')
        } else if e == 0x50 {
            Some('\u{2029}')
        } else {
            None
        }
    }

    /// The escape after a backslash at `i - 1`: its character (none for
    /// an escaped line break, which folds) and where it ends.
    fn escape_at(&self, i: usize, col: usize) -> (r: Result<(Option<char>, usize, usize), ScanError>)
        requires
            self.wf(),
            0 < i <= self.bytes@.len(),
            col <= i,
        ensures
            r matches Ok((c, e, ecol)) ==> i < e <= self.bytes@.len() && ecol <= e && starts_char(self.bytes@, e as int),
            r matches Err(e) ==> e.index <= self.bytes@.len(),
            i < self.bytes@.len() && escape_char(self.bytes@[i as int]) is Some ==> (r matches Ok((c, e, _))
                && c == escape_char(self.bytes@[i as int]) && e == i + 1),
    {
        let n = self.bytes.len();
        if i >= n {
            return Err(ScanError { message: owned_string("unexpected end of input in escape sequence"), index: i });
        }
        let escaped = self.at(i);
        let mut j = i + 1;
        let mut jcol = step_col(escaped, col);
        match Self::simple_escape(escaped) {
            Some(c) => {
                proof {
                    assert(escaped < 0x80);
                    self.lemma_ascii(i as int);
                }
                return Ok((Some(c), j, jcol));
            },
            None => {},
        }
        let digits: usize = if escaped == 0x78 {
            2
        } else if escaped == 0x75 {
            4
        } else if escaped == 0x55 {
            8
        } else {
            0
        };
        if digits > 0 {
            proof {
                self.lemma_ascii(i as int);
            }
            let (c, e) = self.hex_escape(j, digits)?;
            proof {
                self.lemma_ascii((e - 1) as int);
            }
            return Ok((Some(c), e, jcol + digits));
        }
        if line_break(escaped) {
            proof {
                self.lemma_ascii(i as int);
            }
            if escaped == CR && self.at(j) == LF {
                proof {
                    self.lemma_ascii(j as int);
                }
                j = j + 1;
                jcol = 0;
            }
            let e = self.blanks_end(j);
            proof {
                if e > j {
                    self.lemma_ascii((e - 1) as int);
                }
            }
            return Ok((None, e, jcol + (e - j)));
        }
        let mut m = owned_string("unknown escape character '\\");
        push_char(&mut m, escaped as char);
        push_str(&mut m, "'");
        Err(ScanError { message: m, index: i })
    }

    /// A double-quoted scalar whose opening quote is at `start`: escapes
    /// are decoded, and line breaks fold.
    pub fn double_quoted(&self, start: usize, start_col: usize, in_flow: bool, indent: isize) -> (r: Result<QuotedScan, ScanError>)
        requires
            self.wf(),
            start < self.bytes@.len(),
            self.bytes@[start as int] < 0x80,
            start_col <= start,
        ensures
            r matches Ok(q) ==> start < q.end <= self.bytes@.len() && starts_char(self.bytes@, q.end as int),
            r matches Err(e) ==> e.index <= self.bytes@.len(),
            r matches Ok(q) ==> (dq_line(self.bytes@, start + 1, q.end - 1) is Some
                ==> vstd::utf8::encode_utf8(q.text@) == dq_line(self.bytes@, start + 1, q.end - 1).unwrap()),
    {
        let n = self.bytes.len();
        let mut string = String::new();
        let mut whitespace: Vec<char> = Vec::new();
        let mut leading_break = false;
        proof {
            self.lemma_ascii(start as int);
        }
        let mut i = start + 1;
        let mut col = start_col + 1;
        let ghost mut clean = true;
        let ghost mut bad: int = 0;
        proof {
            assert(string@ =~= Seq::<char>::empty());
            assert(vstd::utf8::encode_utf8(Seq::<char>::empty()) =~= Seq::<u8>::empty());
        }
        loop
            invariant
                self.wf(),
                n == self.bytes@.len(),
                start < i <= n,
                col <= i,
                starts_char(self.bytes@, i as int),
                clean ==> dq_line(self.bytes@, start + 1, i as int) is Some,
                clean ==> vstd::utf8::encode_utf8(string@) == dq_line(self.bytes@, start + 1, i as int).unwrap(),
                clean ==> whitespace@.len() == 0 && !leading_break,
                !clean ==> start + 1 <= bad < i && dq_line(self.bytes@, start + 1, bad) is Some
                    && dq_stop(self.bytes@, bad),
            decreases n - i,
        {
            if i >= n {
                return Err(ScanError { message: owned_string("unterminated double-quoted string"), index: i });
            }
            let c = self.at(i);
            if c == 0x22 {
                Self::flush_fold(&mut string, &mut whitespace, leading_break);
                proof {
                    self.lemma_ascii(i as int);
                    if !clean {
                        lemma_dq_line_split(self.bytes@, start + 1, bad, i as int);
                        lemma_dq_line_stops(self.bytes@, bad, i as int);
                    }
                }
                return Ok(QuotedScan { text: string, end: i + 1 });
            } else if c == 0x5c {
                Self::flush_fold(&mut string, &mut whitespace, leading_break);
                leading_break = false;
                let ghost before = string@;
                let (ch, e, ecol) = self.escape_at(i + 1, col + 1)?;
                match ch {
                    Some(x) => push_char(&mut string, x),
                    None => {},
                }
                proof {
                    let b = self.bytes@;
                    if clean {
                        match escape_char(b[i + 1]) {
                            Some(x) => {
                                assert(dq_line(b, i + 2, i + 2) == Some(Seq::<u8>::empty()));
                                assert(dq_line(b, i as int, i + 2) == Some(
                                    vstd::utf8::encode_utf8(seq![x]) + Seq::<u8>::empty(),
                                ));
                                lemma_dq_line_split(b, start + 1, i as int, i + 2);
                                crate::text::lemma_encode_utf8_concat(before, seq![x]);
                                assert(string@ == before + seq![x]);
                                assert(vstd::utf8::encode_utf8(seq![x]) + Seq::<u8>::empty()
                                    =~= vstd::utf8::encode_utf8(seq![x]));
                            },
                            None => {
                                clean = false;
                                bad = i as int;
                            },
                        }
                    }
                }
                i = e;
                col = ecol;
            } else if line_break(c) {
                proof {
                    if clean {
                        clean = false;
                        bad = i as int;
                    }
                }
                if leading_break {
                    whitespace.push('\n');
                } else {
                    whitespace.clear();
                    leading_break = true;
                }
                self.quoted_line_break(&mut i, &mut col, in_flow, indent, "double-quoted")?;
            } else {
                Self::flush_fold(&mut string, &mut whitespace, leading_break);
                leading_break = false;
                if blank(c) {
                    proof {
                        if clean {
                            clean = false;
                            bad = i as int;
                        }
                    }
                    let b0 = i;
                    let e = self.blanks_end(i);
                    proof {
                        self.lemma_ascii((e - 1) as int);
                    }
                    col = col + (e - i);
                    i = e;
                    let next = self.at(i);
                    if line_break(next) || next == 0x22 || next == 0x5c {
                        let mut k = b0;
                        while k < e
                            invariant
                                b0 <= k <= e,
                                e <= n,
                                n == self.bytes@.len(),
                            decreases e - k,
                        {
                            whitespace.push(if self.bytes[k] == SP {
                                ' '
                            } else {
                                '\t'
                            });
                            k = k + 1;
                        }
                    } else {
                        push_str(&mut string, self.slice(b0, e));
                    }
                } else {
                    let e = self.char_end(i);
                    let ghost before = string@;
                    let piece = self.slice(i, e);
                    push_str(&mut string, piece);
                    proof {
                        let b = self.bytes@;
                        if clean {
                            lemma_dq_plain(b, i as int, e as int);
                            lemma_dq_line_split(b, start + 1, i as int, e as int);
                            crate::text::lemma_encode_utf8_concat(before, piece@);
                        }
                    }
                    col = col + (e - i);
                    i = e;
                }
            }
        }
    }
}

/// The bytes that the body `b[from..to)` of a double-quoted scalar
/// stands for when it lies on one line and holds only characters other
/// than quotes, backslashes and blanks, and one-letter escapes (each
/// standing for its character, see [`escape_char`]); none where the
/// body holds anything else.
pub open spec fn dq_line(b: Seq<u8>, from: int, to: int) -> Option<Seq<u8>>
    decreases to - from,
{
    if from >= to {
        Some(Seq::empty())
    } else if b[from] == 0x5c {
        if from + 1 < to {
            match escape_char(b[from + 1]) {
                Some(c) => match dq_line(b, from + 2, to) {
                    Some(t) => Some(vstd::utf8::encode_utf8(seq![c]) + t),
                    None => None,
                },
                None => None,
            }
        } else {
            None
        }
    } else if b[from] == 0x22 || is_blank(b[from]) || is_break(b[from]) {
        None
    } else {
        match dq_line(b, from + 1, to) {
            Some(t) => Some(seq![b[from]] + t),
            None => None,
        }
    }
}

/// The byte at `p` of `b` ends a clean one-line body: a quote, a blank,
/// a line break, or a backslash before a byte that is no one-letter
/// escape.
pub open spec fn dq_stop(b: Seq<u8>, p: int) -> bool {
    ||| b[p] == 0x22
    ||| is_blank(b[p])
    ||| is_break(b[p])
    ||| (b[p] == 0x5c && p + 1 < b.len() && escape_char(b[p + 1]) is None)
}

proof fn lemma_dq_line_split(b: Seq<u8>, from: int, mid: int, to: int)
    requires
        from <= mid <= to,
        dq_line(b, from, mid) is Some,
    ensures
        dq_line(b, from, to) == match dq_line(b, mid, to) {
            Some(t) => Some(dq_line(b, from, mid).unwrap() + t),
            None => None,
        },
    decreases mid - from,
{
    if from == mid {
        if let Some(t) = dq_line(b, mid, to) {
            assert(Seq::<u8>::empty() + t =~= t);
        }
    } else if b[from] == 0x5c {
        lemma_dq_line_split(b, from + 2, mid, to);
        if let Some(t) = dq_line(b, mid, to) {
            let c = escape_char(b[from + 1]).unwrap();
            let h = vstd::utf8::encode_utf8(seq![c]);
            assert(h + (dq_line(b, from + 2, mid).unwrap() + t) =~= (h + dq_line(b, from + 2, mid).unwrap()) + t);
        }
    } else {
        lemma_dq_line_split(b, from + 1, mid, to);
        if let Some(t) = dq_line(b, mid, to) {
            assert(seq![b[from]] + (dq_line(b, from + 1, mid).unwrap() + t) =~= (seq![b[from]]
                + dq_line(b, from + 1, mid).unwrap()) + t);
        }
    }
}

proof fn lemma_dq_line_stops(b: Seq<u8>, p: int, to: int)
    requires
        0 <= p < to <= b.len(),
        dq_stop(b, p),
    ensures
        dq_line(b, p, to) is None,
{
}

proof fn lemma_dq_plain(b: Seq<u8>, from: int, to: int)
    requires
        0 <= from <= to <= b.len(),
        forall|k: int| from <= k < to ==> #[trigger] b[k] != 0x22 && b[k] != 0x5c && !is_blank(b[k]) && !is_break(b[k]),
    ensures
        dq_line(b, from, to) == Some(b.subrange(from, to)),
    decreases to - from,
{
    if from < to {
        lemma_dq_plain(b, from + 1, to);
        assert(seq![b[from]] + b.subrange(from + 1, to) =~= b.subrange(from, to));
    } else {
        assert(b.subrange(from, to) =~= Seq::<u8>::empty());
    }
}

/// Law: the body of a double-quoted scalar that lies on one line and
/// holds only characters other than quotes, backslashes and blanks
/// stands for itself, byte for byte; each one-letter escape in it adds
/// the UTF-8 bytes of its character after the text before it.
pub proof fn lemma_dq_line_pieces(b: Seq<u8>, from: int, to: int)
    requires
        0 <= from <= to <= b.len(),
    ensures
        (forall|k: int| from <= k < to ==> #[trigger] b[k] != 0x22 && b[k] != 0x5c && !is_blank(b[k])
            && !is_break(b[k])) ==> dq_line(b, from, to) == Some(b.subrange(from, to)),
        to + 2 <= b.len() && b[to] == 0x5c && dq_line(b, from, to) is Some && escape_char(b[to + 1])
            is Some ==> dq_line(b, from, to + 2) == Some(dq_line(b, from, to).unwrap()
            + vstd::utf8::encode_utf8(seq![escape_char(b[to + 1]).unwrap()])),
{
    if forall|k: int| from <= k < to ==> #[trigger] b[k] != 0x22 && b[k] != 0x5c && !is_blank(b[k])
        && !is_break(b[k]) {
        lemma_dq_plain(b, from, to);
    }
    if to + 2 <= b.len() && b[to] == 0x5c && dq_line(b, from, to) is Some {
        if escape_char(b[to + 1]) is Some {
            let c = escape_char(b[to + 1]).unwrap();
            lemma_dq_line_split(b, from, to, to + 2);
            assert(dq_line(b, to + 2, to + 2) == Some(Seq::<u8>::empty()));
            assert(vstd::utf8::encode_utf8(seq![c]) + Seq::<u8>::empty() =~= vstd::utf8::encode_utf8(seq![c]));
        }
    }
}

/// The character a one-letter escape `\e` of a double-quoted scalar
/// stands for: `0 a b t n v f r e`, a tab, a space, `" / \\`, and
/// `N _ L P` for the next-line, no-break-space, line and paragraph
/// separators.
pub open spec fn escape_char(e: u8) -> Option<char> {
    if e == 0x30 {
        Some('\0')
    } else if e == 0x61 {
        Some('\x07')
    } else if e == 0x62 {
        Some('\x08')
    } else if e == 0x74 || e == TAB {
        Some('\t')
    } else if e == 0x6e {
        Some('\n')
    } else if e == 0x76 {
        Some('\x0B')
    } else if e == 0x66 {
        Some('\x0C')
    } else if e == 0x72 {
        Some('\r')
    } else if e == 0x65 {
        Some('\x1B')
    } else if e == SP {
        Some(' ')
    } else if e == 0x22 {
        Some('"')
    } else if e == 0x2f {
        Some('/')
    } else if e == 0x5c {
        Some('\\')
    } else if e == 0x4e {
        Some('\u{0085}')
    } else if e == 0x5f {
        Some('\u{00A0}')
    } else if e == 0x4c {
        Some('\u{2028}')
    } else if e == 0x50 {
        Some('\u{2029}')
    } else {
        None
    }
}

/// Law: the letters of the C-style escapes `\a \b \t \n \v \f \r`, in
/// that order, stand for the consecutive control characters U+0007 to
/// U+000D (so `\n` is a line feed and `\r` a carriage return); `\0` is
/// U+0000 and `\e` is U+001B.
pub proof fn lemma_control_escapes(i: int)
    requires
        0 <= i < 7,
    ensures
        escape_char(seq![0x61u8, 0x62u8, 0x74u8, 0x6eu8, 0x76u8, 0x66u8, 0x72u8][i]) matches Some(c)
            && c as int == 7 + i,
        escape_char(0x30u8) matches Some(c) && c as int == 0,
        escape_char(0x65u8) matches Some(c) && c as int == 0x1b,
{
    let letters = seq![0x61u8, 0x62u8, 0x74u8, 0x6eu8, 0x76u8, 0x66u8, 0x72u8];
    if i == 0 {
        assert(letters[i] == 0x61u8);
    } else if i == 1 {
        assert(letters[i] == 0x62u8);
    } else if i == 2 {
        assert(letters[i] == 0x74u8);
    } else if i == 3 {
        assert(letters[i] == 0x6eu8);
    } else if i == 4 {
        assert(letters[i] == 0x76u8);
    } else if i == 5 {
        assert(letters[i] == 0x66u8);
    } else {
        assert(letters[i] == 0x72u8);
    }
}

/// Law: a backslash before a space, `"`, `/` or another backslash
/// stands for that character itself, and only the bytes of the escape
/// table (`0 a b t n v f r e`, a tab, a space, `" / \\`, `N _ L P`)
/// make a one-letter escape.
pub proof fn lemma_literal_escapes(e: u8)
    ensures
        e == 0x20 || e == 0x22 || e == 0x2f || e == 0x5c ==> (escape_char(e) matches Some(c) && c as int
            == e as int),
        escape_char(e) is Some ==> (e == 0x30 || e == 0x61 || e == 0x62 || e == 0x74 || e == 0x09
            || e == 0x6e || e == 0x76 || e == 0x66 || e == 0x72 || e == 0x65 || e == 0x20 || e == 0x22
            || e == 0x2f || e == 0x5c || e == 0x4e || e == 0x5f || e == 0x4c || e == 0x50),
{
}

/// Where the run of blanks at `i` of `b` ends.
pub open spec fn blanks_from(b: Seq<u8>, i: int) -> int
    decreases b.len() - i,
{
    if 0 <= i < b.len() && is_blank(b[i]) {
        blanks_from(b, i + 1)
    } else {
        i
    }
}

/// Where the run of spaces at `i` of `b` ends.
pub open spec fn spaces_from(b: Seq<u8>, i: int) -> int
    decreases b.len() - i,
{
    if 0 <= i < b.len() && b[i] == SP {
        spaces_from(b, i + 1)
    } else {
        i
    }
}

/// The bytes a line break at `e` takes: two for `\r\n`, else one.
pub open spec fn break_width(b: Seq<u8>, e: int) -> int {
    if byte_at(b, e) == CR && byte_at(b, e + 1) == LF {
        2
    } else {
        1
    }
}

/// What a block scalar's first lines from `i` show of its indentation,
/// with `m` the most spaces seen so far on an empty line: the spaces
/// before its first content line, whether there is one, and the most
/// spaces on a leading empty line.
pub open spec fn detected_indent(b: Seq<u8>, i: int, m: nat) -> (nat, bool, nat)
    decreases b.len() - i,
{
    if 0 <= i <= b.len() {
        let e = spaces_from(b, i);
        if i <= e < b.len() && is_break(b[e]) {
            detected_indent(
                b,
                e + break_width(b, e),
                if e - i > m {
                    (e - i) as nat
                } else {
                    m
                },
            )
        } else if e >= b.len() {
            (0, false, m)
        } else {
            ((e - i) as nat, true, m)
        }
    } else {
        (0, false, m)
    }
}

/// `16` to the power `k`.
pub open spec fn pow16(k: nat) -> nat
    decreases k,
{
    if k == 0 {
        1
    } else {
        16 * pow16((k - 1) as nat)
    }
}

proof fn lemma_pow16_step(k: nat)
    requires
        k < 8,
    ensures
        pow16(k + 1) == 16 * pow16(k),
        16 * pow16(k) <= 0x1_0000_0000,
    decreases k,
{
    reveal_with_fuel(pow16, 9);
    assert(pow16(8) == 0x1_0000_0000);
    if k > 0 {
        lemma_pow16_step((k - 1) as nat);
    }
}

impl<'a> Source<'a> {
    /// Where the line break at `i` ends (`\r\n` counts as one), and the
    /// column after it.
    fn break_end(&self, i: usize, col: usize) -> (r: (usize, usize))
        requires
            self.wf(),
            i < self.bytes@.len(),
            is_break(self.bytes@[i as int]),
            col <= i,
        ensures
            i < r.0 <= i + 2,
            r.0 == i + break_width(self.bytes@, i as int),
            r.0 <= self.bytes@.len(),
            r.1 <= r.0,
            starts_char(self.bytes@, r.0 as int),
    {
        let c = self.at(i);
        if c == CR && self.at(i + 1) == LF {
            proof {
                self.lemma_ascii((i + 1) as int);
            }
            (i + 2, 0)
        } else {
            proof {
                self.lemma_ascii(i as int);
            }
            (i + 1, step_col(c, col))
        }
    }

    /// Where the run of spaces (not tabs) at `i` ends.
    fn spaces_end(&self, i: usize) -> (e: usize)
        requires
            self.wf(),
            i <= self.bytes@.len(),
            starts_char(self.bytes@, i as int),
        ensures
            i <= e <= self.bytes@.len(),
            e == spaces_from(self.bytes@, i as int),
            byte_at(self.bytes@, e as int) != SP,
            starts_char(self.bytes@, e as int),
    {
        let n = self.bytes.len();
        let mut e = i;
        while e < n && self.bytes[e] == SP
            invariant
                self.wf(),
                i <= e <= n,
                n == self.bytes@.len(),
                starts_char(self.bytes@, e as int),
                spaces_from(self.bytes@, e as int) == spaces_from(self.bytes@, i as int),
            decreases n - e,
        {
            proof {
                self.lemma_ascii(e as int);
            }
            e = e + 1;
        }
        e
    }

    /// The header of a block scalar after its indicator at `i - 1`:
    /// chomping (`+` keep, `-` strip, else clip) and an indentation
    /// digit, in either order, then blanks, an optional comment and the
    /// line break. The answer is the chomping, the increment and where
    /// the content begins.
    fn block_header(&self, i0: usize, col0: usize) -> (r: Result<(i8, usize, usize, usize), ScanError>)
        requires
            self.wf(),
            0 < i0 <= self.bytes@.len(),
            self.bytes@[i0 - 1] < 0x80,
            col0 <= i0,
        ensures
            r matches Ok((ch, inc, e, ecol)) ==> i0 <= e <= self.bytes@.len() && ecol <= e && inc <= 9
                && starts_char(self.bytes@, e as int),
            r matches Err(e) ==> e.index <= self.bytes@.len(),
    {
        let n = self.bytes.len();
        let mut i = i0;
        let mut col = col0;
        let mut chomping: i8 = 0;
        let mut increment: usize = 0;
        proof {
            self.lemma_ascii((i0 - 1) as int);
        }
        let mut round: usize = 0;
        while round < 2
            invariant
                self.wf(),
                n == self.bytes@.len(),
                i0 <= i <= n,
                col <= i,
                increment <= 9,
                starts_char(self.bytes@, i as int),
            decreases 2 - round,
        {
            if i < n {
                let c = self.at(i);
                if c == 0x2b {
                    chomping = 1;
                } else if c == DASH {
                    chomping = -1;
                } else if 0x31 <= c && c <= 0x39 {
                    increment = (c - 0x30) as usize;
                } else {
                    break;
                }
                proof {
                    self.lemma_ascii(i as int);
                }
                i = i + 1;
                col = col + 1;
            }
            round = round + 1;
        }
        let next = self.at(i);
        if 0x30 <= next && next <= 0x39 {
            return Err(ScanError {
                message: owned_string("invalid block scalar indentation indicator (must be a single digit 1..9)"),
                index: i,
            });
        }
        let before_blank = i;
        let e = self.blanks_end(i);
        proof {
            if e > i {
                self.lemma_ascii((e - 1) as int);
            }
        }
        col = col + (e - i);
        i = e;
        if self.at(i) == HASH {
            if i == before_blank {
                return Err(ScanError {
                    message: owned_string("comment indicator '#' must be preceded by a space or tab"),
                    index: i,
                });
            }
            let e = self.line_end(i);
            proof {
                if e < n {
                    self.lemma_ascii(e as int);
                }
            }
            col = col + (e - i);
            i = e;
        }
        if i < n && line_break(self.at(i)) {
            let (e, c) = self.break_end(i, col);
            i = e;
            col = c;
        }
        Ok((chomping, increment, i, col))
    }

    /// The content indentation a block scalar's first lines show from
    /// `i`: the spaces before its first content line (and whether it has
    /// one), and the most spaces on a leading empty line.
    fn detect_indent(&self, i0: usize) -> (r: (usize, bool, usize))
        requires
            self.wf(),
            i0 <= self.bytes@.len(),
            starts_char(self.bytes@, i0 as int),
        ensures
            (r.0 as nat, r.1, r.2 as nat) == detected_indent(self.bytes@, i0 as int, 0),
    {
        let n = self.bytes.len();
        let mut i = i0;
        let mut max_empty: usize = 0;
        let mut detected: usize = 0;
        let mut has_content = false;
        loop
            invariant_except_break
                detected_indent(self.bytes@, i as int, max_empty as nat) == detected_indent(
                    self.bytes@,
                    i0 as int,
                    0,
                ),
                detected == 0,
                !has_content,
            invariant
                self.wf(),
                n == self.bytes@.len(),
                i0 <= i <= n,
                starts_char(self.bytes@, i as int),
            ensures
                (detected as nat, has_content, max_empty as nat) == detected_indent(
                    self.bytes@,
                    i0 as int,
                    0,
                ),
            decreases n - i,
        {
            let ghost top = i;
            let ghost m0 = max_empty;
            let e = self.spaces_end(i);
            let spaces = e - i;
            i = e;
            proof {
                assert(detected_indent(self.bytes@, top as int, m0 as nat) == if top <= e < n
                    && is_break(self.bytes@[e as int]) {
                    detected_indent(
                        self.bytes@,
                        e + break_width(self.bytes@, e as int),
                        if e - top > m0 {
                            (e - top) as nat
                        } else {
                            m0 as nat
                        },
                    )
                } else if e >= n {
                    (0, false, m0 as nat)
                } else {
                    ((e - top) as nat, true, m0 as nat)
                });
            }
            if i < n && line_break(self.at(i)) {
                if spaces > max_empty {
                    max_empty = spaces;
                }
                let (e2, _) = self.break_end(i, 0);
                i = e2;
                continue;
            }
            if i >= n {
                break;
            }
            detected = spaces;
            has_content = true;
            break;
        }
        (detected, has_content, max_empty)
    }

    /// Append `k` copies of `c`.
    fn push_repeat(out: &mut String, c: char, k: usize)
        ensures
            final(out)@ == old(out)@ + Seq::new(k as nat, |i: int| c),
    {
        let mut j: usize = 0;
        while j < k
            invariant
                j <= k,
                out@ == old(out)@ + Seq::new(j as nat, |i: int| c),
            decreases k - j,
        {
            push_char(out, c);
            assert(Seq::new((j + 1) as nat, |i: int| c) =~= Seq::new(j as nat, |i: int| c).push(c));
            j = j + 1;
        }
    }

    /// A literal (`|`) or folded (`>`) block scalar whose indicator is at
    /// `start`, in a block at `indent`.
    pub fn block_scalar(&self, start: usize, start_col: usize, indent: isize, literal: bool) -> (r: Result<QuotedScan, ScanError>)
        requires
            self.wf(),
            start < self.bytes@.len(),
            self.bytes@[start as int] < 0x80,
            start_col <= start,
            -1 <= indent <= start,
        ensures
            r matches Ok(q) ==> start < q.end <= self.bytes@.len() && starts_char(self.bytes@, q.end as int),
            r matches Err(e) ==> e.index <= self.bytes@.len(),
    {
        let n = self.bytes.len();
        let (chomping, increment, i1, col1) = self.block_header(start + 1, start_col + 1)?;
        let (detected, has_content, max_empty) = self.detect_indent(i1);
        let block_indent: usize = if increment > 0 {
            if indent >= 0 {
                indent as usize + increment
            } else {
                increment
            }
        } else {
            let min_indent: usize = if indent >= 0 {
                indent as usize + 1
            } else {
                0
            };
            let actual = if has_content {
                detected
            } else {
                max_empty
            };
            if actual > min_indent {
                actual
            } else {
                min_indent
            }
        };
        if max_empty > block_indent {
            return Err(ScanError {
                message: owned_string("a leading all-space line must not have too many spaces"),
                index: i1,
            });
        }
        let mut string = String::new();
        let mut empty = true;
        let mut trailing: usize = 0;
        let mut leading_blank = false;
        let mut i = i1;
        let mut col = col1;
        while i < n
            invariant
                self.wf(),
                n == self.bytes@.len(),
                start < i1 <= i <= n,
                col <= i,
                trailing <= i,
                starts_char(self.bytes@, i as int),
            decreases n - i,
        {
            if col == 0 && self.marker_at(i) {
                break;
            }
            let e = self.spaces_end(i);
            let spaces = e - i;
            col = col + spaces;
            i = e;
            let here = self.at(i);
            let is_br = i < n && line_break(here);
            if spaces < block_indent && !is_br && i < n {
                break;
            }
            let extra = if spaces > block_indent {
                spaces - block_indent
            } else {
                0
            };
            if !is_br && i >= n {
                break;
            }
            if is_br {
                if literal && extra > 0 && !empty {
                    if trailing > 0 {
                        Self::push_repeat(&mut string, '\n', trailing);
                        trailing = 0;
                    }
                    Self::push_repeat(&mut string, ' ', extra);
                }
                trailing = trailing + 1;
                let (e2, c2) = self.break_end(i, col);
                i = e2;
                col = c2;
                continue;
            }
            let more = extra > 0 || here == TAB;
            if trailing > 0 {
                if literal || empty || more || leading_blank {
                    Self::push_repeat(&mut string, '\n', trailing);
                } else if trailing == 1 {
                    push_char(&mut string, ' ');
                } else {
                    Self::push_repeat(&mut string, '\n', trailing - 1);
                }
                trailing = 0;
            }
            Self::push_repeat(&mut string, ' ', extra);
            leading_blank = more;
            let ghost line = i;
            while i < n && !line_break(self.at(i))
                invariant
                    self.wf(),
                    n == self.bytes@.len(),
                    line <= i <= n,
                    col <= i,
                    starts_char(self.bytes@, i as int),
                decreases n - i,
            {
                let e3 = self.char_end(i);
                push_str(&mut string, self.slice(i, e3));
                col = col + (e3 - i);
                i = e3;
            }
            empty = false;
            if i < n && line_break(self.at(i)) {
                trailing = trailing + 1;
                let (e4, c4) = self.break_end(i, col);
                i = e4;
                col = c4;
            }
        }
        if chomping == 1 {
            Self::push_repeat(&mut string, '\n', trailing);
        } else if chomping == 0 && !empty {
            push_char(&mut string, '\n');
        }
        Ok(QuotedScan { text: string, end: i })
    }
}

} // verus!
