//! Source-level helpers behind path-targeted document edits: line
//! and indicator arithmetic on the source bytes, leaf lookup in the
//! green tree, and the choice and spelling of a scalar's replacement
//! text at an edit site.
use vstd::prelude::*;
use vstd::string::StringSliceAdditionalSpecFns;

use crate::cst::green::{
    child_leaves, leaves_len, lemma_leaves_len_concat, lemma_seq_leaves_concat, seq_leaves,
    GreenChild, GreenNode,
};
use crate::cst::syntax::SyntaxKind;
use crate::error::Error;
use crate::borrowed::{spec_resolve_scalar, BorrowedValue};
use crate::parser::token::ScalarStyle;
use crate::path::{all_digits, is_digit};
use crate::scalar::{
    ascii_lower, contains_char, digit_run, exponent_ok, float_number, float_syntax, looks_like_number,
    spec_is_float, spec_looks_like_integer, spec_looks_like_number, spells, unsigned_part,
};
use crate::text::{chars_eq, chars_of, owned_string, push_char, push_spaces, push_str, spaces};

verus! {

/// A blank byte: space, tab, line feed or carriage return.
pub open spec fn is_blank_byte(b: u8) -> bool {
    b == 32 || b == 9 || b == 10 || b == 13
}

/// The end of `b[start..end]` once trailing blanks are dropped.
pub open spec fn trimmed_end(b: Seq<u8>, start: int, end: int) -> int
    decreases end - start,
{
    if end > start && is_blank_byte(b[end - 1]) {
        trimmed_end(b, start, end - 1)
    } else {
        end
    }
}

/// Start of the line holding offset `p`: just past the last line feed
/// before `p`, or 0.
pub open spec fn line_start(b: Seq<u8>, p: int) -> int
    decreases p,
{
    if p > 0 && b[p - 1] != 10 {
        line_start(b, p - 1)
    } else {
        p
    }
}

/// The first line feed at or after `p`, or `p` itself when `p` is at
/// or past the end without meeting one.
pub open spec fn next_line_feed(b: Seq<u8>, p: int) -> int
    decreases b.len() - p,
{
    if 0 <= p < b.len() && b[p] != 10 {
        next_line_feed(b, p + 1)
    } else {
        p
    }
}

/// Offset just past the line feed ending the line that holds `p`, or
/// the end of the input.
pub open spec fn spec_end_of_line(b: Seq<u8>, p: int) -> int {
    let i = next_line_feed(b, p);
    if i < b.len() {
        i + 1
    } else {
        i
    }
}

/// The `-` indicator before `v` on its line, past spaces and tabs only.
pub open spec fn preceding_dash(b: Seq<u8>, v: int) -> Option<int>
    decreases v,
{
    if v <= 0 {
        None
    } else if b[v - 1] == 32 || b[v - 1] == 9 {
        preceding_dash(b, v - 1)
    } else if b[v - 1] == 45 {
        Some(v - 1)
    } else {
        None
    }
}

/// The first offset at or after `p` that is not a space or tab.
pub open spec fn indent_end(b: Seq<u8>, p: int) -> int
    decreases b.len() - p,
{
    if 0 <= p < b.len() && (b[p] == 32 || b[p] == 9) {
        indent_end(b, p + 1)
    } else {
        p
    }
}

/// Drop trailing spaces, tabs and line breaks from `source[start..end]`.
pub fn trim_trailing_blank(source: &str, start: usize, end: usize) -> (r: (usize, usize))
    requires
        end <= source.spec_bytes().len(),
    ensures
        r.0 == start,
        r.1 == trimmed_end(source.spec_bytes(), start as int, end as int),
{
    let bytes = source.as_bytes();
    let mut e = end;
    while e > start
        invariant
            bytes@ == source.spec_bytes(),
            e <= end <= bytes@.len(),
            trimmed_end(bytes@, start as int, end as int) == trimmed_end(
                bytes@,
                start as int,
                e as int,
            ),
        ensures
            trimmed_end(bytes@, start as int, end as int) == e as int,
        decreases e,
    {
        let c = bytes[e - 1];
        if c == 32 || c == 9 || c == 10 || c == 13 {
            e -= 1;
        } else {
            break ;
        }
    }
    (start, e)
}

/// Offset just past the line feed that ends the line holding `pos`, or
/// the input's end.
pub fn end_of_line(source: &str, pos: usize) -> (r: usize)
    ensures
        r == spec_end_of_line(source.spec_bytes(), pos as int),
{
    let bytes = source.as_bytes();
    let mut i = pos;
    while i < bytes.len() && bytes[i] != 10
        invariant
            bytes@ == source.spec_bytes(),
            pos <= i,
            next_line_feed(bytes@, pos as int) == next_line_feed(bytes@, i as int),
        decreases bytes@.len() - i,
    {
        i += 1;
    }
    if i < bytes.len() {
        i + 1
    } else {
        i
    }
}

/// Offset of the `-` indicator that opens the sequence entry whose
/// value starts at `value_start`, found walking back over spaces and
/// tabs on the same line.
pub fn locate_preceding_dash(source: &str, value_start: usize) -> (r: Option<usize>)
    requires
        value_start <= source.spec_bytes().len(),
    ensures
        match r {
            Some(d) => preceding_dash(source.spec_bytes(), value_start as int) == Some(d as int)
                && d < value_start,
            None => preceding_dash(source.spec_bytes(), value_start as int) is None,
        },
{
    let bytes = source.as_bytes();
    let mut i = value_start;
    while i > 0
        invariant
            bytes@ == source.spec_bytes(),
            i <= value_start <= bytes@.len(),
            preceding_dash(bytes@, value_start as int) == preceding_dash(bytes@, i as int),
        decreases i,
    {
        i -= 1;
        let c = bytes[i];
        if c == 32 || c == 9 {
        } else if c == 45 {
            return Some(i);
        } else {
            return None;
        }
    }
    None
}

/// Column of the `-` indicator on the line of `value_start` (see
/// [`locate_preceding_dash`]).
pub fn column_of_preceding_dash(source: &str, value_start: usize) -> (r: Option<usize>)
    requires
        value_start <= source.spec_bytes().len(),
    ensures
        match preceding_dash(source.spec_bytes(), value_start as int) {
            Some(d) => r == Some((d - line_start(source.spec_bytes(), d)) as usize),
            None => r is None,
        },
{
    let dash_pos = match locate_preceding_dash(source, value_start) {
        Some(d) => d,
        None => {
            return None;
        },
    };
    let bytes = source.as_bytes();
    let mut ls = dash_pos;
    while ls > 0 && bytes[ls - 1] != 10
        invariant
            bytes@ == source.spec_bytes(),
            ls <= dash_pos <= bytes@.len(),
            line_start(bytes@, dash_pos as int) == line_start(bytes@, ls as int),
        decreases ls,
    {
        ls -= 1;
    }
    Some(dash_pos - ls)
}

/// The message of a removal that would span several lines.
pub open spec fn multi_line_message() -> Seq<char> {
    "remove: multi-line / nested-value entries are not yet supported"@
}

/// Refuse a range that crosses a line break.
pub fn require_single_line(source: &str, start: usize, end: usize) -> (r: Result<(), Error>)
    requires
        start <= end <= source.spec_bytes().len(),
    ensures
        r is Ok <==> forall|i: int| start <= i < end ==> source.spec_bytes()[i] != 10,
        r matches Err(e) ==> e matches Error::Parse(m) && m@ == multi_line_message(),
{
    let bytes = source.as_bytes();
    let mut i = start;
    while i < end
        invariant
            bytes@ == source.spec_bytes(),
            start <= i <= end <= bytes@.len(),
            forall|k: int| start <= k < i ==> bytes@[k] != 10,
        decreases end - i,
    {
        if bytes[i] == 10 {
            return Err(Error::Parse(owned_string(
                "remove: multi-line / nested-value entries are not yet supported",
            )));
        }
        i += 1;
    }
    Ok(())
}

/// Widen `(start, end)` to whole lines: back to the start of the line
/// of `start`, forward through the line feed ending the line of `end`
/// (or to the input's end).
pub fn line_extent(source: &str, start: usize, end: usize) -> (r: (usize, usize))
    requires
        start <= source.spec_bytes().len(),
    ensures
        r.0 == line_start(source.spec_bytes(), start as int),
        r.1 == spec_end_of_line(source.spec_bytes(), end as int),
{
    let bytes = source.as_bytes();
    let mut s = start;
    while s > 0 && bytes[s - 1] != 10
        invariant
            bytes@ == source.spec_bytes(),
            s <= start <= bytes@.len(),
            line_start(bytes@, start as int) == line_start(bytes@, s as int),
        decreases s,
    {
        s -= 1;
    }
    let e = end_of_line(source, end);
    (s, e)
}

/// Column of the first non-blank byte on the line holding `pos`
/// (`pos` past the end counts as the end).
pub fn entry_indent_column(source: &str, pos: usize) -> (r: usize)
    ensures
        ({
            let b = source.spec_bytes();
            let p = if pos <= b.len() {
                pos as int
            } else {
                b.len() as int
            };
            r == indent_end(b, line_start(b, p)) - line_start(b, p)
        }),
{
    let bytes = source.as_bytes();
    let mut ls = if pos <= bytes.len() {
        pos
    } else {
        bytes.len()
    };
    let ghost p = ls;
    while ls > 0 && bytes[ls - 1] != 10
        invariant
            bytes@ == source.spec_bytes(),
            ls <= p <= bytes@.len(),
            line_start(bytes@, p as int) == line_start(bytes@, ls as int),
        decreases ls,
    {
        ls -= 1;
    }
    let mut col = ls;
    while col < bytes.len() && (bytes[col] == 32 || bytes[col] == 9)
        invariant
            bytes@ == source.spec_bytes(),
            ls <= col,
            indent_end(bytes@, ls as int) == indent_end(bytes@, col as int),
        decreases bytes@.len() - col,
    {
        col += 1;
    }
    proof {
        lemma_line_start_le(bytes@, p as int);
    }
    col - ls
}

/// The line start never lies past its offset.
pub proof fn lemma_line_start_le(b: Seq<u8>, p: int)
    requires
        0 <= p,
    ensures
        0 <= line_start(b, p) <= p,
    decreases p,
{
    if p > 0 && b[p - 1] != 10 {
        lemma_line_start_le(b, p - 1);
    }
}


// ── Scalar spelling at an edit site ─────────────────────────────────

/// Plain scalars that would resolve to null or a boolean.
pub open spec fn reserved_scalar(s: Seq<char>) -> bool {
    s == "null"@ || s == "Null"@ || s == "NULL"@ || s == "~"@ || s == "true"@ || s == "True"@
        || s == "TRUE"@ || s == "false"@ || s == "False"@ || s == "FALSE"@ || s == "yes"@ || s
        == "Yes"@ || s == "YES"@ || s == "no"@ || s == "No"@ || s == "NO"@ || s == "on"@ || s
        == "On"@ || s == "ON"@ || s == "off"@ || s == "Off"@ || s == "OFF"@
}

/// Characters a plain scalar may not start with: structural, flow,
/// quote and reserved indicators, and blanks.
pub open spec fn indicator_start(c: char) -> bool {
    c == '-' || c == '?' || c == ':' || c == ',' || c == '[' || c == ']' || c == '{' || c == '}'
        || c == '#' || c == '&' || c == '*' || c == '!' || c == '|' || c == '>' || c == '\''
        || c == '"' || c == '%' || c == '@' || c == '`' || c == ' ' || c == '\t'
}

/// A control character: below U+0020, or DEL.
pub open spec fn is_control(c: char) -> bool {
    c < '\x20' || c == '\x7f'
}

/// `s` can be written as a plain scalar and read back as the same
/// string. The conditions are stated on characters; since every
/// character tested is ASCII, they agree with the same tests on the
/// UTF-8 bytes.
pub open spec fn spec_plain_safe(s: Seq<char>) -> bool {
    &&& s.len() > 0
    &&& !reserved_scalar(s)
    &&& !spec_looks_like_number(s)
    &&& !indicator_start(s[0])
    &&& s.last() != ' ' && s.last() != '\t'
    &&& forall|i: int| 0 <= i < s.len() ==> !is_control(#[trigger] s[i])
    &&& forall|i: int|
        1 <= i < s.len() ==> !(#[trigger] s[i] == ' ' && s[i - 1] == ':') && !(s[i] == '#' && s[
            i - 1
        ] == ' ')
}

/// The digits of `d` from `from` up to its first non-digit.
proof fn lemma_digit_run(d: Seq<char>, from: int)
    requires
        0 <= from,
    ensures
        from <= digit_run(d, from),
        from <= d.len() ==> digit_run(d, from) <= d.len(),
        forall|j: int| from <= j < digit_run(d, from) ==> is_digit(#[trigger] d[j]),
        digit_run(d, from) < d.len() ==> !is_digit(d[digit_run(d, from)]),
    decreases d.len() - from,
{
    if 0 <= from < d.len() && is_digit(d[from]) {
        lemma_digit_run(d, from + 1);
    }
}

/// A number in the float grammar with neither a `.` nor an exponent is a
/// run of digits.
proof fn lemma_float_number_shape(d: Seq<char>)
    requires
        float_number(d),
    ensures
        d.contains('.') || d.contains('e') || d.contains('E') || (d.len() > 0 && all_digits(d)),
{
    lemma_digit_run(d, 0);
    let i = digit_run(d, 0);
    if i < d.len() && d[i] == '.' {
        assert(d[i] == '.');
    } else {
        let e = d.skip(i);
        if e.len() > 0 {
            assert(e[0] == d[i]);
            if d[i] == 'e' {
                assert(d.contains('e'));
            } else {
                assert(d.contains('E'));
            }
        } else {
            assert(i == d.len());
        }
    }
}

/// Law: a string that is safe to write plain reads back as that same
/// string when resolved as a plain scalar: no null, boolean or number
/// spelling is plain-safe. The one exception is a `+` followed by
/// `inf`, `infinity` or `nan` in any case, which the float reading of a
/// plain scalar takes as a number; the law leaves those out.
pub proof fn lemma_plain_safe_reads_back(value: String)
    requires
        spec_plain_safe(value@),
        !(value@[0] == '+' && (spells(value@.skip(1), seq!['i', 'n', 'f']) || spells(
            value@.skip(1),
            seq!['i', 'n', 'f', 'i', 'n', 'i', 't', 'y'],
        ) || spells(value@.skip(1), seq!['n', 'a', 'n']))),
    ensures
        spec_resolve_scalar(value, ScalarStyle::Plain) == BorrowedValue::String(value),
{
    let s = value@;
    reveal_strlit("null");
    reveal_strlit("Null");
    reveal_strlit("NULL");
    reveal_strlit("~");
    reveal_strlit("true");
    reveal_strlit("True");
    reveal_strlit("TRUE");
    reveal_strlit("false");
    reveal_strlit("False");
    reveal_strlit("FALSE");
    assert("null"@ =~= seq!['n', 'u', 'l', 'l']);
    assert("Null"@ =~= seq!['N', 'u', 'l', 'l']);
    assert("NULL"@ =~= seq!['N', 'U', 'L', 'L']);
    assert("~"@ =~= seq!['~']);
    assert("true"@ =~= seq!['t', 'r', 'u', 'e']);
    assert("True"@ =~= seq!['T', 'r', 'u', 'e']);
    assert("TRUE"@ =~= seq!['T', 'R', 'U', 'E']);
    assert("false"@ =~= seq!['f', 'a', 'l', 's', 'e']);
    assert("False"@ =~= seq!['F', 'a', 'l', 's', 'e']);
    assert("FALSE"@ =~= seq!['F', 'A', 'L', 'S', 'E']);
    assert(!crate::borrowed::null_word(s));
    assert(!crate::borrowed::true_word(s));
    assert(!crate::borrowed::false_word(s));
    assert(!crate::scalar::spec_special_float(s)) by {
        if crate::scalar::spec_special_float(s) {
            assert(s[0] == '.' || s[0] == '+' || s[0] == '-');
        }
    }
    if crate::borrowed::number_lead(s[0]) {
        let d = unsigned_part(s);
        if crate::scalar::spec_from_str_radix(s, 10) is Some {
            assert forall|j: int| 0 <= j < d.len() implies is_digit(#[trigger] d[j]) by {
                assert(crate::scalar::radix_digit(d[j], 10) is Some);
            }
            assert(spec_looks_like_integer(s));
        } else if float_syntax(s) {
            if float_number(d) {
                lemma_float_number_shape(d);
                if d.contains('.') || d.contains('e') || d.contains('E') {
                    assert(spec_is_float(s));
                } else {
                    assert(spec_looks_like_integer(s));
                }
            } else {
                assert(s[0] != '-');
                if s[0] != '+' {
                    assert(d == s);
                    assert(ascii_lower(s[0]) == s[0]);
                    assert(!spells(d, seq!['i', 'n', 'f']));
                    assert(!spells(d, seq!['i', 'n', 'f', 'i', 'n', 'i', 't', 'y']));
                    assert(!spells(d, seq!['n', 'a', 'n']));
                }
            }
        }
    }
}

/// `v` spells the word `w`.
fn is_word(v: &[char], w: &str) -> (r: bool)
    ensures
        r == (v@ == w@),
{
    let c = chars_of(w);
    chars_eq(v, c.as_slice())
}

/// `v` is one of the plain scalars that resolve to null or a boolean.
fn is_reserved(v: &[char]) -> (r: bool)
    ensures
        r == reserved_scalar(v@),
{
    is_word(v, "null") || is_word(v, "Null") || is_word(v, "NULL") || is_word(v, "~") || is_word(
        v,
        "true",
    ) || is_word(v, "True") || is_word(v, "TRUE") || is_word(v, "false") || is_word(v, "False")
        || is_word(v, "FALSE") || is_word(v, "yes") || is_word(v, "Yes") || is_word(v, "YES")
        || is_word(v, "no") || is_word(v, "No") || is_word(v, "NO") || is_word(v, "on") || is_word(
        v,
        "On",
    ) || is_word(v, "ON") || is_word(v, "off") || is_word(v, "Off") || is_word(v, "OFF")
}

/// `true` if `s` can be emitted as a plain scalar without being read
/// back as another type or tripping an indicator (see
/// [`spec_plain_safe`]). Conservative: when in doubt, quote.
pub fn is_plain_safe(s: &str) -> (r: bool)
    ensures
        r == spec_plain_safe(s@),
{
    let v = chars_of(s);
    let n = v.len();
    if n == 0 {
        return false;
    }
    if is_reserved(v.as_slice()) {
        return false;
    }
    if looks_like_number(s) {
        return false;
    }
    let first = v[0];
    if first == '-' || first == '?' || first == ':' || first == ',' || first == '[' || first == ']'
        || first == '{' || first == '}' || first == '#' || first == '&' || first == '*' || first
        == '!' || first == '|' || first == '>' || first == '\'' || first == '"' || first == '%'
        || first == '@' || first == '`' || first == ' ' || first == '\t' {
        return false;
    }
    let last = v[n - 1];
    if last == ' ' || last == '\t' {
        return false;
    }
    let mut i: usize = 0;
    while i < n
        invariant
            n == v@.len(),
            v@ == s@,
            i <= n,
            forall|k: int| 0 <= k < i ==> !is_control(#[trigger] v@[k]),
            forall|k: int|
                1 <= k < i ==> !(#[trigger] v@[k] == ' ' && v@[k - 1] == ':') && !(v@[k] == '#'
                    && v@[k - 1] == ' '),
        decreases n - i,
    {
        let c = v[i];
        if c < '\x20' || c == '\x7f' {
            assert(is_control(v@[i as int]));
            return false;
        }
        if i > 0 {
            let p = v[i - 1];
            if (c == ' ' && p == ':') || (c == '#' && p == ' ') {
                assert(v@[i as int] == c);
                return false;
            }
        }
        i += 1;
    }
    true
}

/// The escape of one character inside single quotes: a quote doubles.
pub open spec fn single_escape(c: char) -> Seq<char> {
    if c == '\'' {
        seq!['\'', '\'']
    } else {
        seq![c]
    }
}

/// The single-quoted body of `s`.
pub open spec fn single_escaped(s: Seq<char>) -> Seq<char>
    decreases s.len(),
{
    if s.len() == 0 {
        seq![]
    } else {
        single_escaped(s.drop_last()) + single_escape(s.last())
    }
}

/// `s` as a single-quoted scalar.
pub open spec fn single_quoted(s: Seq<char>) -> Seq<char> {
    seq!['\''] + single_escaped(s) + seq!['\'']
}

/// Spell `s` as a single-quoted scalar (the only escape is `''`).
pub fn format_single_quoted(s: &str) -> (out: String)
    ensures
        out@ == single_quoted(s@),
{
    let v = chars_of(s);
    let mut out = String::new();
    push_char(&mut out, '\'');
    let mut i: usize = 0;
    while i < v.len()
        invariant
            v@ == s@,
            i <= v@.len(),
            out@ == seq!['\''] + single_escaped(v@.take(i as int)),
        decreases v@.len() - i,
    {
        let c = v[i];
        if c == '\'' {
            push_char(&mut out, '\'');
            push_char(&mut out, '\'');
        } else {
            push_char(&mut out, c);
        }
        proof {
            assert(v@.take(i + 1).drop_last() =~= v@.take(i as int));
            assert(out@ =~= seq!['\''] + single_escaped(v@.take(i + 1)));
        }
        i += 1;
    }
    push_char(&mut out, '\'');
    proof {
        assert(v@.take(v@.len() as int) =~= v@);
        assert(out@ =~= single_quoted(s@));
    }
    out
}

/// The upper-case hexadecimal digit of `n`.
pub open spec fn hex_digit(n: nat) -> char {
    if n < 10 {
        ((n + 48) as u8) as char
    } else {
        ((n + 55) as u8) as char
    }
}

/// The escape of one character inside double quotes: JSON's escapes,
/// `\uXXXX` for other control characters, the character otherwise.
pub open spec fn double_escape(c: char) -> Seq<char> {
    if c == '"' {
        seq!['\\', '"']
    } else if c == '\\' {
        seq!['\\', '\\']
    } else if c == '\n' {
        seq!['\\', 'n']
    } else if c == '\r' {
        seq!['\\', 'r']
    } else if c == '\t' {
        seq!['\\', 't']
    } else if c == '\x08' {
        seq!['\\', 'b']
    } else if c == '\x0c' {
        seq!['\\', 'f']
    } else if (c as u32) < 0x20 {
        seq![
            '\\',
            'u',
            '0',
            '0',
            hex_digit(((c as u32) / 16) as nat),
            hex_digit(((c as u32) % 16) as nat),
        ]
    } else {
        seq![c]
    }
}

/// The double-quoted body of `s`.
pub open spec fn double_escaped(s: Seq<char>) -> Seq<char>
    decreases s.len(),
{
    if s.len() == 0 {
        seq![]
    } else {
        double_escaped(s.drop_last()) + double_escape(s.last())
    }
}

/// `s` as a double-quoted scalar.
pub open spec fn double_quoted(s: Seq<char>) -> Seq<char> {
    seq!['"'] + double_escaped(s) + seq!['"']
}

/// The hexadecimal digit of `n`.
fn hex_char(n: u32) -> (c: char)
    requires
        n < 16,
    ensures
        c == hex_digit(n as nat),
{
    if n < 10 {
        ((n as u8) + 48) as char
    } else {
        ((n as u8) + 55) as char
    }
}

/// Append the double-quoted escape of `c` to `out`.
fn push_double_escape(out: &mut String, c: char)
    ensures
        final(out)@ == old(out)@ + double_escape(c),
{
    if c == '"' {
        push_char(out, '\\');
        push_char(out, '"');
    } else if c == '\\' {
        push_char(out, '\\');
        push_char(out, '\\');
    } else if c == '\n' {
        push_char(out, '\\');
        push_char(out, 'n');
    } else if c == '\r' {
        push_char(out, '\\');
        push_char(out, 'r');
    } else if c == '\t' {
        push_char(out, '\\');
        push_char(out, 't');
    } else if c == '\x08' {
        push_char(out, '\\');
        push_char(out, 'b');
    } else if c == '\x0c' {
        push_char(out, '\\');
        push_char(out, 'f');
    } else if (c as u32) < 0x20 {
        let code = c as u32;
        push_char(out, '\\');
        push_char(out, 'u');
        push_char(out, '0');
        push_char(out, '0');
        push_char(out, hex_char(code / 16));
        push_char(out, hex_char(code % 16));
    } else {
        push_char(out, c);
    }
    assert(final(out)@ =~= old(out)@ + double_escape(c));
}

/// Spell `s` as a double-quoted scalar with JSON-compatible escapes.
pub fn format_double_quoted(s: &str) -> (out: String)
    ensures
        out@ == double_quoted(s@),
{
    let v = chars_of(s);
    let mut out = String::new();
    push_char(&mut out, '"');
    let mut i: usize = 0;
    while i < v.len()
        invariant
            v@ == s@,
            i <= v@.len(),
            out@ == seq!['"'] + double_escaped(v@.take(i as int)),
        decreases v@.len() - i,
    {
        push_double_escape(&mut out, v[i]);
        proof {
            assert(v@.take(i + 1).drop_last() =~= v@.take(i as int));
            assert(out@ =~= seq!['"'] + double_escaped(v@.take(i + 1)));
        }
        i += 1;
    }
    push_char(&mut out, '"');
    proof {
        assert(v@.take(v@.len() as int) =~= v@);
        assert(out@ =~= double_quoted(s@));
    }
    out
}

/// `s` without one trailing line feed.
pub open spec fn chomped(s: Seq<char>) -> Seq<char> {
    if s.len() > 0 && s.last() == '\n' {
        s.drop_last()
    } else {
        s
    }
}

/// `s` can be written as a literal block scalar (`|` or `|-`) with no
/// explicit indentation indicator: it is not empty, has no control
/// characters other than tab and line feed, ends with at most one
/// line feed, and no line starts with a space or a tab.
pub open spec fn spec_can_use_block_literal(s: Seq<char>) -> bool {
    let t = chomped(s);
    &&& s.len() > 0
    &&& forall|i: int|
        0 <= i < s.len() ==> !(is_control(#[trigger] s[i]) && s[i] != '\n' && s[i] != '\t')
    &&& !(t.len() > 0 && t.last() == '\n')
    &&& forall|i: int| 0 <= i < t.len() && #[trigger] starts_line(t, i) ==> t[i] != ' ' && t[i] != '\t'
}

/// Offset `k` of `t` begins a line.
pub open spec fn starts_line(t: Seq<char>, k: int) -> bool {
    k == 0 || t[k - 1] == '\n'
}

/// Whether `s` can be written as a literal block scalar (see
/// [`spec_can_use_block_literal`]).
pub fn can_use_block_literal(s: &str) -> (r: bool)
    ensures
        r == spec_can_use_block_literal(s@),
{
    let v = chars_of(s);
    let n = v.len();
    if n == 0 {
        return false;
    }
    let mut i: usize = 0;
    while i < n
        invariant
            n == v@.len(),
            v@ == s@,
            i <= n,
            forall|k: int|
                0 <= k < i ==> !(is_control(#[trigger] v@[k]) && v@[k] != '\n' && v@[k] != '\t'),
        decreases n - i,
    {
        let c = v[i];
        if (c < '\x20' && c != '\n' && c != '\t') || c == '\x7f' {
            assert(s@[i as int] == c);
            assert(is_control(s@[i as int]));
            return false;
        }
        i += 1;
    }
    let m: usize = if v[n - 1] == '\n' {
        n - 1
    } else {
        n
    };
    let t = v.as_slice().split_at(m).0;
    assert(t@ =~= chomped(v@));
    assert(v@ == s@);
    if m > 0 && t[m - 1] == '\n' {
        return false;
    }
    let mut j: usize = 0;
    while j < m
        invariant
            m == t@.len(),
            t@ == chomped(s@),
            j <= m,
            forall|k: int|
                0 <= k < j && #[trigger] starts_line(t@, k) ==> t@[k] != ' ' && t@[k] != '\t',
        decreases m - j,
    {
        if (j == 0 || t[j - 1] == '\n') && (t[j] == ' ' || t[j] == '\t') {
            assert(starts_line(t@, j as int));
            return false;
        }
        j += 1;
    }
    true
}

/// `body` with an indent inserted after every line feed.
pub open spec fn indent_lines(body: Seq<char>, indent: Seq<char>) -> Seq<char>
    decreases body.len(),
{
    if body.len() == 0 {
        seq![]
    } else {
        indent_lines(body.drop_last(), indent) + (if body.last() == '\n' {
            seq!['\n'] + indent
        } else {
            seq![body.last()]
        })
    }
}

/// `s` as a literal block scalar whose lines are indented by
/// `entry_col + 2`: `|` when `s` ends with a line feed, `|-`
/// otherwise, then each line of `s` indented.
pub open spec fn block_literal(s: Seq<char>, entry_col: nat) -> Seq<char> {
    let trailing = s.len() > 0 && s.last() == '\n';
    let head = if trailing {
        seq!['|', '\n']
    } else {
        seq!['|', '-', '\n']
    };
    head + spaces(entry_col + 2) + indent_lines(chomped(s), spaces(entry_col + 2))
}

/// Spell `s` as a literal block scalar at indent `entry_col + 2` (see
/// [`block_literal`]).
pub fn format_block_literal(s: &str, entry_col: usize) -> (out: String)
    requires
        entry_col + 2 <= usize::MAX,
    ensures
        out@ == block_literal(s@, entry_col as nat),
{
    let v = chars_of(s);
    let n = v.len();
    let trailing = n > 0 && v[n - 1] == '\n';
    let m: usize = if trailing {
        n - 1
    } else {
        n
    };
    let ghost body = chomped(v@);
    assert(body =~= v@.take(m as int));
    let indent = entry_col + 2;
    let mut out = String::new();
    push_char(&mut out, '|');
    if !trailing {
        push_char(&mut out, '-');
    }
    push_char(&mut out, '\n');
    push_spaces(&mut out, indent);
    let ghost head = out@;
    let mut i: usize = 0;
    while i < m
        invariant
            m <= n == v@.len(),
            body == v@.take(m as int),
            i <= m,
            out@ == head + indent_lines(body.take(i as int), spaces(indent as nat)),
        decreases m - i,
    {
        let c = v[i];
        if c == '\n' {
            push_char(&mut out, '\n');
            push_spaces(&mut out, indent);
        } else {
            push_char(&mut out, c);
        }
        proof {
            assert(body.take(i + 1).drop_last() =~= body.take(i as int));
            assert(body[i as int] == c);
            assert(out@ =~= head + indent_lines(body.take(i + 1), spaces(indent as nat)));
        }
        i += 1;
    }
    proof {
        assert(body.take(m as int) =~= body);
        assert(out@ =~= block_literal(s@, entry_col as nat));
    }
    out
}

/// A scalar kind at a block-context site, where a literal block
/// scalar can stand.
pub open spec fn spec_is_block_site(kind: SyntaxKind) -> bool {
    kind == SyntaxKind::PlainScalar || kind == SyntaxKind::SingleQuotedScalar || kind
        == SyntaxKind::DoubleQuotedScalar || kind == SyntaxKind::LiteralScalar || kind
        == SyntaxKind::FoldedScalar
}

/// Whether a literal block scalar can stand at a site of `kind`.
pub fn is_block_site(kind: SyntaxKind) -> (r: bool)
    ensures
        r == spec_is_block_site(kind),
{
    match kind {
        SyntaxKind::PlainScalar | SyntaxKind::SingleQuotedScalar | SyntaxKind::DoubleQuotedScalar
        | SyntaxKind::LiteralScalar | SyntaxKind::FoldedScalar => true,
        _ => false,
    }
}


/// What the formatter consults when spelling a replacement value at an
/// edit site.
pub struct SiteContext {
    /// The syntax kind of the leaf being replaced.
    pub kind: SyntaxKind,
    /// A dominant quoted style among sibling values, when one is
    /// unambiguous; consulted only at a plain site.
    pub neighbour: Option<SyntaxKind>,
    /// Column of the first non-blank byte on the site's line; block
    /// scalar lines are indented two past it.
    pub entry_col: usize,
}

/// The refusal for a literal or folded block scalar site, which this
/// phase does not rewrite.
pub open spec fn block_site_message() -> Seq<char> {
    "set_value: existing block scalar (literal or folded) cannot be replaced yet"@
}

/// The refusal for a site that is not a scalar leaf.
pub open spec fn not_scalar_message() -> Seq<char> {
    "set_value: target site is not a scalar leaf"@
}

/// `s` plain when that is safe, double-quoted otherwise.
pub open spec fn plain_or_double(s: Seq<char>) -> Seq<char> {
    if spec_plain_safe(s) {
        s
    } else {
        double_quoted(s)
    }
}

/// The text a string value takes at a site: refused at a literal or
/// folded block scalar; a literal block scalar for a multi-line value
/// at another scalar site when one can hold it; otherwise the site's
/// own quoting, a plain site following an unambiguous neighbouring
/// quote style; an error message where the site is not a scalar.
pub open spec fn spec_format_for_site(s: Seq<char>, ctx: SiteContext) -> Result<
    Seq<char>,
    Seq<char>,
> {
    let multi = s.contains('\n');
    if ctx.kind == SyntaxKind::LiteralScalar || ctx.kind == SyntaxKind::FoldedScalar {
        Err(block_site_message())
    } else if multi && spec_can_use_block_literal(s) && spec_is_block_site(ctx.kind) {
        Ok(block_literal(s, ctx.entry_col as nat))
    } else if ctx.kind == SyntaxKind::PlainScalar {
        if ctx.neighbour == Some(SyntaxKind::SingleQuotedScalar) && !multi {
            Ok(single_quoted(s))
        } else if ctx.neighbour == Some(SyntaxKind::DoubleQuotedScalar) {
            Ok(double_quoted(s))
        } else {
            Ok(plain_or_double(s))
        }
    } else if ctx.kind == SyntaxKind::SingleQuotedScalar {
        Ok(single_quoted(s))
    } else if ctx.kind == SyntaxKind::DoubleQuotedScalar {
        Ok(double_quoted(s))
    } else {
        Err(not_scalar_message())
    }
}

/// `s` plain when that is safe, double-quoted otherwise.
fn plain_or_double_quoted(s: &str) -> (out: String)
    ensures
        out@ == plain_or_double(s@),
{
    if is_plain_safe(s) {
        owned_string(s)
    } else {
        format_double_quoted(s)
    }
}

/// Spell the string `s` for the site described by `ctx` (see
/// [`spec_format_for_site`]).
pub fn format_string_for_site(s: &str, ctx: &SiteContext) -> (r: Result<String, Error>)
    requires
        ctx.entry_col + 2 <= usize::MAX,
    ensures
        match r {
            Ok(t) => spec_format_for_site(s@, *ctx) == Ok::<Seq<char>, Seq<char>>(t@),
            Err(e) => e matches Error::Parse(m) && spec_format_for_site(s@, *ctx) == Err::<
                Seq<char>,
                Seq<char>,
            >(m@),
        },
{
    if ctx.kind == SyntaxKind::LiteralScalar || ctx.kind == SyntaxKind::FoldedScalar {
        return Err(
            Error::Parse(
                owned_string("set_value: existing block scalar (literal or folded) cannot be replaced yet"),
            ),
        );
    }
    let v = chars_of(s);
    let multi = contains_char(v.as_slice(), '\n');
    if multi && can_use_block_literal(s) && is_block_site(ctx.kind) {
        return Ok(format_block_literal(s, ctx.entry_col));
    }
    match ctx.kind {
        SyntaxKind::PlainScalar => {
            match ctx.neighbour {
                Some(SyntaxKind::SingleQuotedScalar) => {
                    if !multi {
                        return Ok(format_single_quoted(s));
                    }
                },
                Some(SyntaxKind::DoubleQuotedScalar) => {
                    return Ok(format_double_quoted(s));
                },
                _ => {},
            }
            Ok(plain_or_double_quoted(s))
        },
        SyntaxKind::SingleQuotedScalar => Ok(format_single_quoted(s)),
        SyntaxKind::DoubleQuotedScalar => Ok(format_double_quoted(s)),
        _ => Err(Error::Parse(owned_string("set_value: target site is not a scalar leaf"))),
    }
}


// ── Green-tree leaf lookup ──────────────────────────────────────────

/// The kind of the leaf whose byte range holds offset `t`, in a run of
/// leaves laid end to end from offset 0.
pub open spec fn leaf_kind_in(ls: Seq<(SyntaxKind, nat)>, t: int) -> Option<SyntaxKind>
    decreases ls.len(),
{
    if ls.len() == 0 {
        None
    } else {
        let p = leaves_len(ls.drop_last());
        if t < p {
            leaf_kind_in(ls.drop_last(), t)
        } else if t < p + ls.last().1 {
            Some(ls.last().0)
        } else {
            None
        }
    }
}

/// No leaf holds an offset at or past the run's end.
proof fn lemma_leaf_kind_beyond(ls: Seq<(SyntaxKind, nat)>, t: int)
    requires
        t >= leaves_len(ls),
    ensures
        leaf_kind_in(ls, t) is None,
    decreases ls.len(),
{
}

/// Looking up an offset in two runs laid end to end.
proof fn lemma_leaf_kind_concat(a: Seq<(SyntaxKind, nat)>, b: Seq<(SyntaxKind, nat)>, t: int)
    ensures
        leaf_kind_in(a + b, t) == if t < leaves_len(a) {
            leaf_kind_in(a, t)
        } else {
            leaf_kind_in(b, t - leaves_len(a))
        },
    decreases b.len(),
{
    if b.len() == 0 {
        assert(a + b =~= a);
        if t >= leaves_len(a) {
            lemma_leaf_kind_beyond(a, t);
        }
    } else {
        lemma_leaf_kind_concat(a, b.drop_last(), t);
        assert((a + b).drop_last() =~= a + b.drop_last());
        lemma_leaves_len_concat(a, b.drop_last());
    }
}

/// The kind of the leaf holding byte `target` of `node` (offsets
/// relative to the node's start), found by walking down with a running
/// offset.
pub fn leaf_kind_at(node: &GreenNode, target: usize) -> (r: Option<SyntaxKind>)
    ensures
        r == leaf_kind_in(seq_leaves(node.spec_children()), target as int),
    decreases node,
{
    let children = node.children();
    let total = node.text_len();
    let ghost cs = node.spec_children();
    let mut pos: usize = 0;
    let mut k: usize = 0;
    proof {
        assert(cs.take(0) =~= Seq::<GreenChild>::empty());
    }
    while k < children.len()
        invariant
            children@ == cs,
            cs == node.spec_children(),
            total == leaves_len(seq_leaves(cs)),
            k <= cs.len(),
            pos == leaves_len(seq_leaves(cs.take(k as int))),
            target >= pos,
        decreases cs.len() - k,
    {
        let child = &children[k];
        let len = child.text_len();
        let ghost pre = seq_leaves(cs.take(k as int));
        let ghost here = child_leaves(cs[k as int]);
        proof {
            assert(cs.take(k + 1).drop_last() =~= cs.take(k as int));
            assert(seq_leaves(cs.take(k + 1)) == pre + here);
            lemma_leaves_len_concat(pre, here);
            assert(cs =~= cs.take(k + 1) + cs.skip(k + 1));
            lemma_seq_leaves_concat(cs.take(k + 1), cs.skip(k + 1));
            lemma_leaves_len_concat(seq_leaves(cs.take(k + 1)), seq_leaves(cs.skip(k + 1)));
            lemma_leaf_kind_concat(seq_leaves(cs.take(k + 1)), seq_leaves(cs.skip(k + 1)), target as int);
            lemma_leaf_kind_concat(pre, here, target as int);
        }
        if target - pos < len {
            match child {
                GreenChild::Token { kind, .. } => {
                    proof {
                        assert(here == seq![(*kind, len as nat)]);
                        assert(here.drop_last() =~= Seq::<(SyntaxKind, nat)>::empty());
                    }
                    return Some(*kind);
                },
                GreenChild::Node(inner) => {
                    proof {
                        crate::cst::green::lemma_child_node_smaller(*node, k as int);
                    }
                    return leaf_kind_at(inner, target - pos);
                },
            }
        }
        pos = pos + len;
        k += 1;
    }
    proof {
        assert(cs.take(k as int) =~= cs);
        lemma_leaf_kind_beyond(seq_leaves(cs), target as int);
    }
    None
}

/// A scalar leaf kind.
pub open spec fn is_scalar_kind(k: SyntaxKind) -> bool {
    k == SyntaxKind::PlainScalar || k == SyntaxKind::SingleQuotedScalar || k
        == SyntaxKind::DoubleQuotedScalar || k == SyntaxKind::LiteralScalar || k
        == SyntaxKind::FoldedScalar
}

/// Reading the children `cs` of a mapping entry in order, once a `:`
/// has been seen (`after_colon`): the kind of the first scalar leaf,
/// or `None` when a nested node comes first or none follows.
pub open spec fn value_scalar_from(cs: Seq<GreenChild>, after_colon: bool) -> Option<SyntaxKind>
    decreases cs.len(),
{
    if cs.len() == 0 {
        None
    } else {
        match cs[0] {
            GreenChild::Token { kind, .. } => {
                if kind == SyntaxKind::ColonIndicator {
                    value_scalar_from(cs.drop_first(), true)
                } else if after_colon && is_scalar_kind(kind) {
                    Some(kind)
                } else {
                    value_scalar_from(cs.drop_first(), after_colon)
                }
            },
            GreenChild::Node(_) => {
                if after_colon {
                    None
                } else {
                    value_scalar_from(cs.drop_first(), after_colon)
                }
            },
        }
    }
}

/// The kind of a mapping entry's value when it is a single scalar leaf
/// (see [`value_scalar_from`]).
pub fn entry_value_scalar_kind(entry: &GreenNode) -> (r: Option<SyntaxKind>)
    ensures
        r == value_scalar_from(entry.spec_children(), false),
{
    let children = entry.children();
    let mut after_colon = false;
    let mut k: usize = 0;
    assert(children@.skip(0) =~= children@);
    while k < children.len()
        invariant
            children@ == entry.spec_children(),
            k <= children@.len(),
            value_scalar_from(entry.spec_children(), false) == value_scalar_from(
                children@.skip(k as int),
                after_colon,
            ),
        decreases children@.len() - k,
    {
        proof {
            assert(children@.skip(k as int).drop_first() =~= children@.skip(k + 1));
        }
        match &children[k] {
            GreenChild::Token { kind, .. } => {
                if *kind == SyntaxKind::ColonIndicator {
                    after_colon = true;
                } else if after_colon && (*kind == SyntaxKind::PlainScalar || *kind
                    == SyntaxKind::SingleQuotedScalar || *kind == SyntaxKind::DoubleQuotedScalar
                    || *kind == SyntaxKind::LiteralScalar || *kind == SyntaxKind::FoldedScalar) {
                    return Some(*kind);
                }
            },
            GreenChild::Node(_) => {
                if after_colon {
                    return None;
                }
            },
        }
        k += 1;
    }
    proof {
        assert(children@.skip(k as int).len() == 0);
    }
    None
}

/// How many mapping-entry children of `cs`, other than the one at
/// `exclude`, have a value scalar of kind `kind`.
pub open spec fn tally(cs: Seq<GreenChild>, exclude: Option<usize>, kind: SyntaxKind) -> nat
    decreases cs.len(),
{
    if cs.len() == 0 {
        0
    } else {
        let last = cs.len() - 1;
        let counts = match cs.last() {
            GreenChild::Node(e) => e.spec_kind() == SyntaxKind::MappingEntry && exclude != Some(
                last as usize,
            ) && value_scalar_from(e.spec_children(), false) == Some(kind),
            _ => false,
        };
        tally(cs.drop_last(), exclude, kind) + if counts {
            1nat
        } else {
            0nat
        }
    }
}

/// The quoted style that a strict plurality of at least two sibling
/// values share, if any.
pub open spec fn dominant_of(plain: nat, single: nat, double: nat) -> Option<SyntaxKind> {
    if single >= 2 && single > double && single > plain {
        Some(SyntaxKind::SingleQuotedScalar)
    } else if double >= 2 && double > single && double > plain {
        Some(SyntaxKind::DoubleQuotedScalar)
    } else {
        None
    }
}

/// The dominant quoted style among the value scalars of `mapping`'s
/// entries, leaving out the entry at child index `exclude` (the one
/// being edited).
pub fn dominant_sibling_value_kind(mapping: &GreenNode, exclude: Option<usize>) -> (r: Option<
    SyntaxKind,
>)
    ensures
        ({
            let cs = mapping.spec_children();
            r == dominant_of(
                tally(cs, exclude, SyntaxKind::PlainScalar),
                tally(cs, exclude, SyntaxKind::SingleQuotedScalar),
                tally(cs, exclude, SyntaxKind::DoubleQuotedScalar),
            )
        }),
{
    let children = mapping.children();
    let ghost cs = mapping.spec_children();
    let mut plain: usize = 0;
    let mut single: usize = 0;
    let mut double: usize = 0;
    let mut k: usize = 0;
    proof {
        assert(cs.take(0) =~= Seq::<GreenChild>::empty());
    }
    while k < children.len()
        invariant
            children@ == cs,
            k <= cs.len(),
            plain == tally(cs.take(k as int), exclude, SyntaxKind::PlainScalar),
            single == tally(cs.take(k as int), exclude, SyntaxKind::SingleQuotedScalar),
            double == tally(cs.take(k as int), exclude, SyntaxKind::DoubleQuotedScalar),
            plain <= k && single <= k && double <= k,
        decreases cs.len() - k,
    {
        proof {
            assert(cs.take(k + 1).drop_last() =~= cs.take(k as int));
            assert(cs.take(k + 1).last() == cs[k as int]);
        }
        match &children[k] {
            GreenChild::Node(entry) => {
                let skip = match exclude {
                    Some(x) => x == k,
                    None => false,
                };
                if entry.kind() == SyntaxKind::MappingEntry && !skip {
                    match entry_value_scalar_kind(entry) {
                        Some(SyntaxKind::PlainScalar) => {
                            plain += 1;
                        },
                        Some(SyntaxKind::SingleQuotedScalar) => {
                            single += 1;
                        },
                        Some(SyntaxKind::DoubleQuotedScalar) => {
                            double += 1;
                        },
                        _ => {},
                    }
                }
            },
            GreenChild::Token { .. } => {},
        }
        k += 1;
    }
    proof {
        assert(cs.take(k as int) =~= cs);
    }
    if single >= 2 && single > double && single > plain {
        return Some(SyntaxKind::SingleQuotedScalar);
    }
    if double >= 2 && double > single && double > plain {
        return Some(SyntaxKind::DoubleQuotedScalar);
    }
    None
}


// ── Reading quoted spellings back ───────────────────────────────────

/// YAML's reading of a single-quoted body: `''` stands for one quote,
/// every other character for itself.
pub open spec fn unescape_single(body: Seq<char>) -> Seq<char>
    decreases body.len(),
{
    if body.len() == 0 {
        seq![]
    } else if body.len() >= 2 && body[0] == '\'' && body[1] == '\'' {
        seq!['\''] + unescape_single(body.skip(2))
    } else {
        seq![body[0]] + unescape_single(body.skip(1))
    }
}

/// The value of a hexadecimal digit.
pub open spec fn hex_value(c: char) -> Option<nat> {
    if '0' <= c && c <= '9' {
        Some((c as int - '0' as int) as nat)
    } else if 'a' <= c && c <= 'f' {
        Some((c as int - 'a' as int + 10) as nat)
    } else if 'A' <= c && c <= 'F' {
        Some((c as int - 'A' as int + 10) as nat)
    } else {
        None
    }
}

/// The character a one-letter double-quoted escape stands for.
pub open spec fn escaped_char(e: char) -> Option<char> {
    if e == '"' {
        Some('"')
    } else if e == '\\' {
        Some('\\')
    } else if e == '/' {
        Some('/')
    } else if e == ' ' {
        Some(' ')
    } else if e == '0' {
        Some('\x00')
    } else if e == 'a' {
        Some('\x07')
    } else if e == 'b' {
        Some('\x08')
    } else if e == 't' {
        Some('\t')
    } else if e == 'n' {
        Some('\n')
    } else if e == 'v' {
        Some('\x0b')
    } else if e == 'f' {
        Some('\x0c')
    } else if e == 'r' {
        Some('\r')
    } else if e == 'e' {
        Some('\x1b')
    } else {
        None
    }
}

/// YAML's reading of a double-quoted body, for the one-letter escapes
/// and `\u` with four hexadecimal digits; any other character stands
/// for itself.
pub open spec fn unescape_double(body: Seq<char>) -> Seq<char>
    decreases body.len(),
{
    if body.len() == 0 {
        seq![]
    } else if body.len() >= 2 && body[0] == '\\' && escaped_char(body[1]) is Some {
        seq![escaped_char(body[1])->0] + unescape_double(body.skip(2))
    } else if body.len() >= 6 && body[0] == '\\' && body[1] == 'u' && hex_value(body[2]) is Some
        && hex_value(body[3]) is Some && hex_value(body[4]) is Some && hex_value(body[5]) is Some {
        let v = hex_value(body[2])->0 * 4096 + hex_value(body[3])->0 * 256 + hex_value(body[4])->0
            * 16 + hex_value(body[5])->0;
        seq![(v as u32) as char] + unescape_double(body.skip(6))
    } else {
        seq![body[0]] + unescape_double(body.skip(1))
    }
}

/// The escaped body of `c` followed by `rest` is `c`'s escape followed
/// by the body of `rest`.
proof fn lemma_single_escaped_front(c: char, rest: Seq<char>)
    ensures
        single_escaped(seq![c] + rest) == single_escape(c) + single_escaped(rest),
    decreases rest.len(),
{
    if rest.len() == 0 {
        assert(seq![c] + rest =~= seq![c]);
        assert(seq![c].drop_last() =~= Seq::<char>::empty());
        assert(single_escaped(Seq::<char>::empty()) =~= Seq::<char>::empty());
        assert(single_escaped(seq![c]) =~= single_escape(c));
        assert(single_escape(c) + single_escaped(rest) =~= single_escape(c));
    } else {
        lemma_single_escaped_front(c, rest.drop_last());
        assert((seq![c] + rest).drop_last() =~= seq![c] + rest.drop_last());
        assert((seq![c] + rest).last() == rest.last());
        assert(single_escaped(seq![c] + rest) =~= single_escape(c) + single_escaped(rest));
    }
}

/// The same front decomposition for double-quoted bodies.
proof fn lemma_double_escaped_front(c: char, rest: Seq<char>)
    ensures
        double_escaped(seq![c] + rest) == double_escape(c) + double_escaped(rest),
    decreases rest.len(),
{
    if rest.len() == 0 {
        assert(seq![c] + rest =~= seq![c]);
        assert(seq![c].drop_last() =~= Seq::<char>::empty());
        assert(double_escaped(Seq::<char>::empty()) =~= Seq::<char>::empty());
        assert(double_escaped(seq![c]) =~= double_escape(c));
        assert(double_escape(c) + double_escaped(rest) =~= double_escape(c));
    } else {
        lemma_double_escaped_front(c, rest.drop_last());
        assert((seq![c] + rest).drop_last() =~= seq![c] + rest.drop_last());
        assert((seq![c] + rest).last() == rest.last());
        assert(double_escaped(seq![c] + rest) =~= double_escape(c) + double_escaped(rest));
    }
}

/// A single-quoted spelling reads back as the string it spells: it is
/// framed by quotes, and its body unescapes to `s`.
pub proof fn lemma_single_quoted_reads_back(s: Seq<char>)
    ensures
        ({
            let q = single_quoted(s);
            &&& q.len() >= 2
            &&& q[0] == '\'' && q[q.len() - 1] == '\''
            &&& unescape_single(q.subrange(1, q.len() - 1)) == s
        }),
    decreases s.len(),
{
    let q = single_quoted(s);
    assert(q.subrange(1, q.len() - 1) =~= single_escaped(s));
    lemma_single_unescape(s);
}

proof fn lemma_single_unescape(s: Seq<char>)
    ensures
        unescape_single(single_escaped(s)) == s,
    decreases s.len(),
{
    if s.len() == 0 {
        assert(single_escaped(s) =~= Seq::<char>::empty());
    } else {
        let c = s[0];
        let rest = s.skip(1);
        assert(s =~= seq![c] + rest);
        lemma_single_escaped_front(c, rest);
        lemma_single_unescape(rest);
        let e = single_escaped(rest);
        if c == '\'' {
            assert((seq!['\'', '\''] + e).skip(2) =~= e);
        } else {
            assert((seq![c] + e).skip(1) =~= e);
        }
        assert(unescape_single(single_escaped(s)) =~= s);
    }
}

/// A double-quoted spelling reads back as the string it spells: it is
/// framed by double quotes, and its body unescapes to `s`.
pub proof fn lemma_double_quoted_reads_back(s: Seq<char>)
    ensures
        ({
            let q = double_quoted(s);
            &&& q.len() >= 2
            &&& q[0] == '"' && q[q.len() - 1] == '"'
            &&& unescape_double(q.subrange(1, q.len() - 1)) == s
        }),
{
    let q = double_quoted(s);
    assert(q.subrange(1, q.len() - 1) =~= double_escaped(s));
    lemma_double_unescape(s);
}

/// Hexadecimal digits read back as their value.
proof fn lemma_hex_digit(n: nat)
    requires
        n < 16,
    ensures
        hex_value(hex_digit(n)) == Some(n),
{
    if n < 10 {
        assert(((n + 48) as u8) as char == hex_digit(n));
        assert((((n + 48) as u8) as char) as int == n + 48);
    } else {
        assert((((n + 55) as u8) as char) as int == n + 55);
    }
}

proof fn lemma_double_unescape(s: Seq<char>)
    ensures
        unescape_double(double_escaped(s)) == s,
    decreases s.len(),
{
    if s.len() == 0 {
        assert(double_escaped(s) =~= Seq::<char>::empty());
    } else {
        let c = s[0];
        let rest = s.skip(1);
        assert(s =~= seq![c] + rest);
        lemma_double_escaped_front(c, rest);
        lemma_double_unescape(rest);
        let e = double_escaped(rest);
        let b = double_escape(c) + e;
        if c == '"' || c == '\\' || c == '\n' || c == '\r' || c == '\t' || c == '\x08' || c
            == '\x0c' {
            assert(b.skip(2) =~= e);
        } else if (c as u32) < 0x20 {
            let u = c as u32;
            let hi = (u / 16) as nat;
            let lo = (u % 16) as nat;
            lemma_hex_digit(hi);
            lemma_hex_digit(lo);
            assert(b.skip(6) =~= e);
            assert(0 * 4096 + 0 * 256 + hi * 16 + lo == u);
            vstd::utf8::char_u32_cast(c, u);
        } else {
            assert(b.skip(1) =~= e);
        }
        assert(unescape_double(double_escaped(s)) =~= s);
    }
}

} // verus!
