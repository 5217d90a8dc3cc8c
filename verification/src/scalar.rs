//! Recognising numbers among plain scalars, as the YAML 1.2 core
//! schema resolves them: decimal, hexadecimal (`0x`) and octal (`0o`)
//! integers that fit an `i64`, decimal numbers with a fraction or an
//! exponent, longer digit strings, and the special `.inf` / `.nan`
//! spellings.
use vstd::prelude::*;

use crate::path::{all_digits, is_digit};
use crate::text::chars_eq;

verus! {

/// The value of `c` as a digit in base `radix` (`0-9`, then letters in
/// either case), if it is one.
pub open spec fn radix_digit(c: char, radix: nat) -> Option<nat> {
    let v: int = if '0' <= c && c <= '9' {
        c as int - '0' as int
    } else if 'a' <= c && c <= 'z' {
        c as int - 'a' as int + 10
    } else if 'A' <= c && c <= 'Z' {
        c as int - 'A' as int + 10
    } else {
        36
    };
    if v < radix {
        Some(v as nat)
    } else {
        None
    }
}

/// Every character of `d` is a base-`radix` digit.
pub open spec fn all_radix_digits(d: Seq<char>, radix: nat) -> bool {
    forall|i: int| 0 <= i < d.len() ==> #[trigger] radix_digit(d[i], radix) is Some
}

/// The value of the base-`radix` digit string `d`.
pub open spec fn radix_value(d: Seq<char>, radix: nat) -> nat
    decreases d.len(),
{
    if d.len() == 0 {
        0
    } else {
        radix_value(d.drop_last(), radix) * radix + radix_digit(d.last(), radix).unwrap_or(0)
    }
}

/// `s` without one leading sign character.
pub open spec fn unsigned_part(s: Seq<char>) -> Seq<char> {
    if s.len() > 0 && (s[0] == '+' || s[0] == '-') {
        s.skip(1)
    } else {
        s
    }
}

/// What `i64::from_str_radix(s, radix)` gives: an optional `+` or `-`,
/// then at least one digit and nothing else, with a value in range.
pub open spec fn spec_from_str_radix(s: Seq<char>, radix: nat) -> Option<int> {
    let d = unsigned_part(s);
    let neg = s.len() > 0 && s[0] == '-';
    if d.len() > 0 && all_radix_digits(d, radix) {
        let v: int = if neg {
            -(radix_value(d, radix) as int)
        } else {
            radix_value(d, radix) as int
        };
        if i64::MIN <= v && v <= i64::MAX {
            Some(v)
        } else {
            None
        }
    } else {
        None
    }
}

/// `s` starts with `0` and the letter `x` in either case.
pub open spec fn has_radix_prefix(s: Seq<char>, lower: char, upper: char) -> bool {
    s.len() > 2 && s[0] == '0' && (s[1] == lower || s[1] == upper)
}

/// The integer a plain scalar denotes: `0x` hex, `0o` octal, or an
/// optionally signed run of decimal digits; `None` when it is none of
/// these or does not fit an `i64`.
pub open spec fn spec_parse_integer(s: Seq<char>) -> Option<int> {
    if s.len() == 0 {
        None
    } else if has_radix_prefix(s, 'x', 'X') {
        spec_from_str_radix(s.skip(2), 16)
    } else if has_radix_prefix(s, 'o', 'O') {
        spec_from_str_radix(s.skip(2), 8)
    } else {
        let d = unsigned_part(s);
        if d.len() > 0 && all_digits(d) {
            spec_from_str_radix(s, 10)
        } else {
            None
        }
    }
}

/// `s` is an optionally signed, non-empty run of decimal digits.
pub open spec fn spec_looks_like_integer(s: Seq<char>) -> bool {
    let d = unsigned_part(s);
    s.len() > 0 && d.len() > 0 && all_digits(d)
}

/// Index of the first non-digit of `d` at or after `from`.
pub open spec fn digit_run(d: Seq<char>, from: int) -> int
    decreases d.len() - from,
{
    if 0 <= from < d.len() && is_digit(d[from]) {
        digit_run(d, from + 1)
    } else {
        from
    }
}

/// An optional exponent: empty, or `e`/`E`, an optional sign and at
/// least one digit.
pub open spec fn exponent_ok(e: Seq<char>) -> bool {
    e.len() == 0 || ((e[0] == 'e' || e[0] == 'E') && {
        let t = if e.len() > 1 && (e[1] == '+' || e[1] == '-') {
            e.skip(2)
        } else {
            e.skip(1)
        };
        t.len() > 0 && all_digits(t)
    })
}

/// The number part of the float grammar: `Digit+`, `Digit+ '.'
/// Digit*` or `Digit* '.' Digit+`, then an optional exponent.
pub open spec fn float_number(d: Seq<char>) -> bool {
    let i = digit_run(d, 0);
    if i < d.len() && d[i] == '.' {
        let m = digit_run(d, i + 1);
        i + (m - i - 1) >= 1 && exponent_ok(d.skip(m))
    } else {
        i >= 1 && exponent_ok(d.skip(i))
    }
}

/// ASCII lower-casing of one character.
pub open spec fn ascii_lower(c: char) -> char {
    if 'A' <= c && c <= 'Z' {
        ((c as int) + 32) as char
    } else {
        c
    }
}

/// `d` spells `word` (given in lower case) in any mix of cases.
pub open spec fn spells(d: Seq<char>, word: Seq<char>) -> bool {
    d.len() == word.len() && forall|i: int| 0 <= i < d.len() ==> #[trigger] ascii_lower(d[i]) == word[i]
}

/// `str::parse::<f64>` accepts `s`: per its documented grammar, an
/// optional sign, then `inf`, `infinity` or `nan` in any case, or a
/// number.
pub open spec fn float_syntax(s: Seq<char>) -> bool {
    let d = unsigned_part(s);
    spells(d, seq!['i', 'n', 'f']) || spells(d, seq!['i', 'n', 'f', 'i', 'n', 'i', 't', 'y'])
        || spells(d, seq!['n', 'a', 'n']) || float_number(d)
}

/// A plain scalar read as a float: after an optional sign it holds a
/// `.` or an exponent letter, and the float grammar accepts it.
pub open spec fn spec_is_float(s: Seq<char>) -> bool {
    let d = unsigned_part(s);
    s.len() > 0 && d.len() > 0 && (d.contains('.') || d.contains('e') || d.contains('E'))
        && float_syntax(s)
}

/// The special float spellings: `.inf` with an optional sign, and
/// `.nan`, each in lower, title or upper case.
pub open spec fn spec_special_float(s: Seq<char>) -> bool {
    let d = if s.len() > 0 && (s[0] == '+' || s[0] == '-') {
        s.skip(1)
    } else {
        s
    };
    d == seq!['.', 'i', 'n', 'f'] || d == seq!['.', 'I', 'n', 'f'] || d == seq!['.', 'I', 'N', 'F']
        || s == seq!['.', 'n', 'a', 'n'] || s == seq!['.', 'N', 'a', 'N'] || s == seq![
        '.',
        'N',
        'A',
        'N',
    ]
}

/// A plain scalar that resolves to a number: it starts with a sign, a
/// dot or a digit, and is a special float, an `i64` integer, a float,
/// or a (possibly oversized) decimal integer.
pub open spec fn spec_looks_like_number(s: Seq<char>) -> bool {
    &&& s.len() > 0
    &&& (s[0] == '-' || s[0] == '+' || s[0] == '.' || is_digit(s[0]))
    &&& (spec_special_float(s) || spec_parse_integer(s) is Some || spec_is_float(s)
        || spec_looks_like_integer(s))
}

/// The base-`radix` value of the digit `c`, if it is one.
fn digit_of(c: char, radix: u32) -> (r: Option<u32>)
    requires
        2 <= radix <= 36,
    ensures
        match r {
            Some(v) => radix_digit(c, radix as nat) == Some(v as nat),
            None => radix_digit(c, radix as nat) is None,
        },
{
    let v: u32 = if '0' <= c && c <= '9' {
        (c as u32) - ('0' as u32)
    } else if 'a' <= c && c <= 'z' {
        (c as u32) - ('a' as u32) + 10
    } else if 'A' <= c && c <= 'Z' {
        (c as u32) - ('A' as u32) + 10
    } else {
        36
    };
    if v < radix {
        Some(v)
    } else {
        None
    }
}

/// A digit string's value never falls below that of its prefixes.
proof fn lemma_radix_value_prefix(d: Seq<char>, radix: nat, k: int)
    requires
        0 <= k <= d.len(),
        radix >= 1,
    ensures
        radix_value(d.take(k), radix) <= radix_value(d, radix),
    decreases d.len(),
{
    if k < d.len() {
        lemma_radix_value_prefix(d.drop_last(), radix, k);
        assert(d.drop_last().take(k) =~= d.take(k));
        let p = radix_value(d.drop_last(), radix);
        assert(p * radix >= p) by (nonlinear_arith)
            requires
                radix >= 1,
        ;
    } else {
        assert(d.take(k) =~= d);
    }
}

/// `i64::from_str_radix(s, radix)`, as [`spec_from_str_radix`] states.
pub fn from_str_radix_i64(s: &[char], radix: u32) -> (r: Option<i64>)
    requires
        2 <= radix <= 36,
    ensures
        match r {
            Some(v) => spec_from_str_radix(s@, radix as nat) == Some(v as int),
            None => spec_from_str_radix(s@, radix as nat) is None,
        },
{
    let n = s.len();
    let neg = n > 0 && s[0] == '-';
    let start: usize = if n > 0 && (s[0] == '+' || s[0] == '-') {
        1
    } else {
        0
    };
    let ghost d = unsigned_part(s@);
    proof {
        assert(d =~= s@.skip(start as int));
    }
    if start >= n {
        return None;
    }
    let mut acc: u64 = 0;
    let mut i: usize = start;
    while i < n
        invariant
            start <= i <= n == s@.len(),
            d == s@.skip(start as int),
            d == unsigned_part(s@),
            neg == (s@.len() > 0 && s@[0] == '-'),
            start == (if s@.len() > 0 && (s@[0] == '+' || s@[0] == '-') {
                1int
            } else {
                0int
            }),
            2 <= radix <= 36,
            forall|k: int| start <= k < i ==> #[trigger] radix_digit(s@[k], radix as nat) is Some,
            acc == radix_value(d.take(i - start), radix as nat),
        decreases n - i,
    {
        let dv = digit_of(s[i], radix);
        match dv {
            None => {
                proof {
                    assert(d[i - start] == s@[i as int]);
                    assert(radix_digit(d[i - start], radix as nat) is None);
                    assert(!all_radix_digits(d, radix as nat));
                }
                return None;
            },
            Some(v) => {
                proof {
                    assert(d.take(i - start + 1).drop_last() =~= d.take(i - start));
                    assert(d.take(i - start + 1).last() == s@[i as int]);
                }
                let ghost next = radix_value(d.take(i - start + 1), radix as nat);
                proof {
                    assert(next == acc * radix + v);
                }
                let m = acc.checked_mul(radix as u64);
                match m {
                    None => {
                        return overflow_or_bad_digit(s, radix, i, start);
                    },
                    Some(m) => {
                        let a = m.checked_add(v as u64);
                        match a {
                            None => {
                                return overflow_or_bad_digit(s, radix, i, start);
                            },
                            Some(a) => {
                                acc = a;
                            },
                        }
                    },
                }
            },
        }
        i += 1;
    }
    proof {
        assert(d.take(n - start) =~= d);
        assert(all_radix_digits(d, radix as nat)) by {
            assert forall|k: int| 0 <= k < d.len() implies #[trigger] radix_digit(
                d[k],
                radix as nat,
            ) is Some by {
                assert(d[k] == s@[k + start]);
            }
        }
    }
    if neg {
        if acc <= 9223372036854775808u64 {
            if acc == 9223372036854775808u64 {
                Some(i64::MIN)
            } else {
                Some(-(acc as i64))
            }
        } else {
            None
        }
    } else if acc <= 9223372036854775807u64 {
        Some(acc as i64)
    } else {
        None
    }
}

/// After the value outgrew `u64` at digit `i`: the rest decides
/// between an invalid digit and an out-of-range value, both `None`.
fn overflow_or_bad_digit(s: &[char], radix: u32, i: usize, start: usize) -> (r: Option<i64>)
    requires
        2 <= radix <= 36,
        start <= i < s@.len(),
        start == (if s@.len() > 0 && (s@[0] == '+' || s@[0] == '-') {
            1int
        } else {
            0int
        }),
        radix_value(unsigned_part(s@).take(i - start + 1), radix as nat) > u64::MAX,
    ensures
        r is None,
        spec_from_str_radix(s@, radix as nat) is None,
{
    let ghost d = unsigned_part(s@);
    proof {
        assert(d =~= s@.skip(start as int));
        if all_radix_digits(d, radix as nat) {
            lemma_radix_value_prefix(d, radix as nat, i - start + 1);
        }
    }
    None
}

/// The integer a plain scalar denotes (see [`spec_parse_integer`]).
pub fn try_parse_integer(s: &str) -> (r: Option<i64>)
    ensures
        match r {
            Some(v) => spec_parse_integer(s@) == Some(v as int),
            None => spec_parse_integer(s@) is None,
        },
{
    let v = crate::text::chars_of(s);
    let n = v.len();
    if n == 0 {
        return None;
    }
    if n > 2 && v[0] == '0' && (v[1] == 'x' || v[1] == 'X') {
        let tail = v.as_slice().split_at(2).1;
        proof {
            assert(tail@ =~= s@.skip(2));
        }
        return from_str_radix_i64(tail, 16);
    }
    if n > 2 && v[0] == '0' && (v[1] == 'o' || v[1] == 'O') {
        let tail = v.as_slice().split_at(2).1;
        proof {
            assert(tail@ =~= s@.skip(2));
        }
        return from_str_radix_i64(tail, 8);
    }
    if looks_like_integer_chars(v.as_slice()) {
        from_str_radix_i64(v.as_slice(), 10)
    } else {
        None
    }
}

/// `s` is an optionally signed, non-empty run of decimal digits.
fn looks_like_integer_chars(v: &[char]) -> (r: bool)
    ensures
        r == spec_looks_like_integer(v@),
{
    let n = v.len();
    if n == 0 {
        return false;
    }
    let start: usize = if v[0] == '+' || v[0] == '-' {
        1
    } else {
        0
    };
    let ghost d = unsigned_part(v@);
    proof {
        assert(d =~= v@.skip(start as int));
    }
    if start >= n {
        return false;
    }
    let mut i = start;
    while i < n
        invariant
            start <= i <= n == v@.len(),
            d == v@.skip(start as int),
            d == unsigned_part(v@),
            forall|k: int| start <= k < i ==> is_digit(#[trigger] v@[k]),
        decreases n - i,
    {
        if !('0' <= v[i] && v[i] <= '9') {
            assert(d[i - start] == v@[i as int]);
            assert(!is_digit(d[i - start]));
            return false;
        }
        i += 1;
    }
    assert forall|k: int| 0 <= k < d.len() implies is_digit(#[trigger] d[k]) by {
        assert(d[k] == v@[k + start]);
    }
    true
}

/// `s` is an optionally signed, non-empty run of decimal digits.
pub fn looks_like_integer(s: &str) -> (r: bool)
    ensures
        r == spec_looks_like_integer(s@),
{
    let v = crate::text::chars_of(s);
    looks_like_integer_chars(v.as_slice())
}


/// Index of the first non-digit of `d` at or after `from`.
fn skip_digits(d: &[char], from: usize) -> (r: usize)
    requires
        from <= d@.len(),
    ensures
        r == digit_run(d@, from as int),
        from <= r <= d@.len(),
    decreases d@.len() - from,
{
    if from < d.len() && '0' <= d[from] && d[from] <= '9' {
        skip_digits(d, from + 1)
    } else {
        from
    }
}

/// Every character of `d` from `from` on is a decimal digit.
fn all_digits_from(d: &[char], from: usize) -> (r: bool)
    requires
        from <= d@.len(),
    ensures
        r == all_digits(d@.skip(from as int)),
{
    let e = skip_digits(d, from);
    proof {
        lemma_digit_run(d@, from as int);
        if e < d@.len() {
            assert(d@.skip(from as int)[e - from] == d@[e as int]);
        }
    }
    e == d.len()
}

/// What [`digit_run`] skips is digits, and it stops at a non-digit.
proof fn lemma_digit_run(d: Seq<char>, from: int)
    requires
        0 <= from <= d.len(),
    ensures
        from <= digit_run(d, from) <= d.len(),
        forall|k: int| from <= k < digit_run(d, from) ==> is_digit(#[trigger] d[k]),
        digit_run(d, from) < d.len() ==> !is_digit(d[digit_run(d, from)]),
    decreases d.len() - from,
{
    if from < d.len() && is_digit(d[from]) {
        lemma_digit_run(d, from + 1);
    }
}

/// `d[m..]` is an acceptable exponent (see [`exponent_ok`]).
fn exponent_ok_at(d: &[char], m: usize) -> (r: bool)
    requires
        m <= d@.len(),
    ensures
        r == exponent_ok(d@.skip(m as int)),
{
    let n = d.len();
    let ghost e = d@.skip(m as int);
    if m == n {
        assert(e.len() == 0);
        return true;
    }
    if d[m] != 'e' && d[m] != 'E' {
        return false;
    }
    let mut j = m + 1;
    if j < n && (d[j] == '+' || d[j] == '-') {
        j += 1;
    }
    proof {
        if e.len() > 1 && (e[1] == '+' || e[1] == '-') {
            assert(e.skip(2) =~= d@.skip(j as int));
        } else {
            assert(e.skip(1) =~= d@.skip(j as int));
        }
    }
    j < n && all_digits_from(d, j)
}

/// `d` matches the number part of the float grammar.
fn float_number_chars(d: &[char]) -> (r: bool)
    ensures
        r == float_number(d@),
{
    let i = skip_digits(d, 0);
    if i < d.len() && d[i] == '.' {
        let m = skip_digits(d, i + 1);
        i + (m - i - 1) >= 1 && exponent_ok_at(d, m)
    } else {
        i >= 1 && exponent_ok_at(d, i)
    }
}

/// ASCII lower-casing of one character.
fn lower(c: char) -> (r: char)
    ensures
        r == ascii_lower(c),
{
    if 'A' <= c && c <= 'Z' {
        ((c as u8) + 32) as char
    } else {
        c
    }
}

/// `d` spells `word` in any mix of cases (see [`spells`]).
fn spells_word(d: &[char], word: &[char]) -> (r: bool)
    ensures
        r == spells(d@, word@),
{
    if d.len() != word.len() {
        return false;
    }
    let mut i: usize = 0;
    while i < d.len()
        invariant
            d@.len() == word@.len(),
            i <= d@.len(),
            forall|k: int| 0 <= k < i ==> #[trigger] ascii_lower(d@[k]) == word@[k],
        decreases d@.len() - i,
    {
        if lower(d[i]) != word[i] {
            return false;
        }
        i += 1;
    }
    true
}

/// The characters of a short literal word.
fn word(w: &str) -> (v: Vec<char>)
    ensures
        v@ == w@,
{
    crate::text::chars_of(w)
}

/// `v` without one leading sign character (see [`unsigned_part`]).
fn unsigned_slice(v: &[char]) -> (d: &[char])
    ensures
        d@ == unsigned_part(v@),
{
    if v.len() > 0 && (v[0] == '+' || v[0] == '-') {
        let d = v.split_at(1).1;
        assert(d@ =~= v@.skip(1));
        d
    } else {
        v
    }
}

/// `str::parse::<f64>` accepts `v` (see [`float_syntax`]).
pub(crate) fn float_syntax_chars(v: &[char]) -> (r: bool)
    ensures
        r == float_syntax(v@),
{
    let d = unsigned_slice(v);
    let inf = word("inf");
    let infinity = word("infinity");
    let nan = word("nan");
    proof {
        reveal_strlit("inf");
        reveal_strlit("infinity");
        reveal_strlit("nan");
        assert(inf@ =~= seq!['i', 'n', 'f']);
        assert(infinity@ =~= seq!['i', 'n', 'f', 'i', 'n', 'i', 't', 'y']);
        assert(nan@ =~= seq!['n', 'a', 'n']);
    }
    spells_word(d, inf.as_slice()) || spells_word(d, infinity.as_slice()) || spells_word(
        d,
        nan.as_slice(),
    ) || float_number_chars(d)
}

/// `d` holds the character `c`.
pub fn contains_char(d: &[char], c: char) -> (r: bool)
    ensures
        r == d@.contains(c),
{
    let mut i: usize = 0;
    while i < d.len()
        invariant
            i <= d@.len(),
            forall|k: int| 0 <= k < i ==> d@[k] != c,
        decreases d@.len() - i,
    {
        if d[i] == c {
            assert(d@[i as int] == c);
            return true;
        }
        i += 1;
    }
    false
}

/// A plain scalar read as a float (see [`spec_is_float`]): the
/// floating-point counterpart of [`try_parse_integer`], reporting
/// whether the parse succeeds.
pub fn parses_as_float(s: &str) -> (r: bool)
    ensures
        r == spec_is_float(s@),
{
    let v = crate::text::chars_of(s);
    let d = unsigned_slice(v.as_slice());
    v.len() > 0 && d.len() > 0 && (contains_char(d, '.') || contains_char(d, 'e') || contains_char(
        d,
        'E',
    )) && float_syntax_chars(v.as_slice())
}

/// The special float spellings (see [`spec_special_float`]).
pub(crate) fn special_float_chars(v: &[char]) -> (r: bool)
    ensures
        r == spec_special_float(v@),
{
    let d = unsigned_slice(v);
    let a = word(".inf");
    let b = word(".Inf");
    let c = word(".INF");
    let e = word(".nan");
    let f = word(".NaN");
    let g = word(".NAN");
    proof {
        reveal_strlit(".inf");
        reveal_strlit(".Inf");
        reveal_strlit(".INF");
        reveal_strlit(".nan");
        reveal_strlit(".NaN");
        reveal_strlit(".NAN");
        assert(a@ =~= seq!['.', 'i', 'n', 'f']);
        assert(b@ =~= seq!['.', 'I', 'n', 'f']);
        assert(c@ =~= seq!['.', 'I', 'N', 'F']);
        assert(e@ =~= seq!['.', 'n', 'a', 'n']);
        assert(f@ =~= seq!['.', 'N', 'a', 'N']);
        assert(g@ =~= seq!['.', 'N', 'A', 'N']);
    }
    chars_eq(d, a.as_slice()) || chars_eq(d, b.as_slice()) || chars_eq(d, c.as_slice())
        || chars_eq(v, e.as_slice()) || chars_eq(v, f.as_slice()) || chars_eq(v, g.as_slice())
}

/// A plain scalar that resolves to a number (see
/// [`spec_looks_like_number`]).
pub fn looks_like_number(s: &str) -> (r: bool)
    ensures
        r == spec_looks_like_number(s@),
{
    let v = crate::text::chars_of(s);
    if v.len() == 0 {
        return false;
    }
    let first = v[0];
    let candidate = first == '-' || first == '+' || first == '.' || ('0' <= first && first <= '9');
    if !candidate {
        return false;
    }
    special_float_chars(v.as_slice()) || try_parse_integer(s).is_some() || parses_as_float(s)
        || looks_like_integer(s)
}

} // verus!
