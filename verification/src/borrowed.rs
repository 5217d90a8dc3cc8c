//! YAML values built straight from the parser's events, with their
//! scalars resolved (null, booleans, numbers, strings) and queried by
//! path expressions.
//!
//! Mappings keep their entries in the order the document gives them; a
//! key given twice keeps its first place and takes its last value.
use vstd::prelude::*;
use vstd::string::StringSliceAdditionalSpecFns;

use crate::config::{default_config, ParserConfig};
use crate::error::Error;
use crate::parser::events::{Event, Parser, State};
use crate::parser::scanner::tokenize;
use crate::parser::token::{ScalarStyle, ScanError, Token};
use crate::path::{
    is_digit, parse_query_path, query_segments, segment_views, QuerySegment, SegmentView,
};
use crate::scalar::{
    float_syntax, float_syntax_chars, from_str_radix_i64, spec_from_str_radix,
    spec_special_float, special_float_chars,
};
use crate::text::{chars_eq, chars_of, decimal, owned_string, push_decimal, push_str, same_text};

verus! {

/// A YAML number: an integer, or a float given by the plain scalar text
/// that denotes it (`.inf`, `-.Inf`, `.nan`, or text that `f64`'s
/// parser reads).
#[derive(Debug, Clone, PartialEq)]
pub enum Number {
    Integer(i64),
    Float(String),
}

impl Number {
    /// The integer, when this is one.
    pub fn as_i64(&self) -> (r: Option<i64>)
        ensures
            r == match *self {
                Number::Integer(i) => Some(i),
                Number::Float(_) => None::<i64>,
            },
    {
        match self {
            Number::Integer(i) => Some(*i),
            Number::Float(_) => None,
        }
    }
}

/// A mapping's entries, in document order, each key once.
#[derive(Debug, PartialEq)]
pub struct BorrowedMapping {
    entries: Vec<(String, BorrowedValue)>,
}

/// A YAML value.
#[derive(Debug, PartialEq)]
pub enum BorrowedValue {
    Null,
    Bool(bool),
    Number(Number),
    String(String),
    Sequence(Vec<BorrowedValue>),
    Mapping(BorrowedMapping),
}

/// Index of the first entry keyed `k`.
pub open spec fn key_pos(es: Seq<(String, BorrowedValue)>, k: Seq<char>) -> Option<int>
    decreases es.len(),
{
    if es.len() == 0 {
        None
    } else if es[0].0@ == k {
        Some(0)
    } else {
        match key_pos(es.drop_first(), k) {
            Some(i) => Some(i + 1),
            None => None,
        }
    }
}

/// No two entries share a key.
pub open spec fn keys_unique(es: Seq<(String, BorrowedValue)>) -> bool {
    forall|i: int, j: int| 0 <= i < j < es.len() ==> es[i].0@ != es[j].0@
}

/// The entries after putting `v` under `k`: an existing key keeps its
/// place and takes the new value, a new key goes last.
pub open spec fn inserted(es: Seq<(String, BorrowedValue)>, k: String, v: BorrowedValue) -> Seq<
    (String, BorrowedValue),
> {
    match key_pos(es, k@) {
        Some(i) => es.update(i, (es[i].0, v)),
        None => es.push((k, v)),
    }
}

pub proof fn lemma_key_pos(es: Seq<(String, BorrowedValue)>, k: Seq<char>)
    ensures
        key_pos(es, k) matches Some(i) ==> 0 <= i < es.len() && es[i].0@ == k && forall|j: int|
            0 <= j < i ==> es[j].0@ != k,
        key_pos(es, k) is None ==> forall|j: int| 0 <= j < es.len() ==> es[j].0@ != k,
    decreases es.len(),
{
    if es.len() > 0 {
        lemma_key_pos(es.drop_first(), k);
        if es[0].0@ != k {
            assert forall|j: int| 1 <= j < es.len() implies es[j].0@ == es.drop_first()[j - 1].0@ by {}
        }
    }
}

/// A read gives back what a write wrote: after putting `v` under `k`,
/// the entry keyed `k` holds `v`, and every other key keeps its entry.
pub proof fn lemma_get_after_insert(es: Seq<(String, BorrowedValue)>, k: String, v: BorrowedValue, other: Seq<char>)
    requires
        keys_unique(es),
    ensures
        key_pos(inserted(es, k, v), k@) matches Some(i) && inserted(es, k, v)[i].1 == v,
        other != k@ ==> match key_pos(es, other) {
            Some(j) => key_pos(inserted(es, k, v), other) == Some(j) && inserted(es, k, v)[j] == es[j],
            None => key_pos(inserted(es, k, v), other) is None,
        },
{
    let es2 = inserted(es, k, v);
    lemma_key_pos(es, k@);
    lemma_key_pos(es2, k@);
    lemma_key_pos(es, other);
    lemma_key_pos(es2, other);
    match key_pos(es, k@) {
        Some(i) => {
            assert(es2[i].0@ == k@);
            lemma_key_pos_unique(es2, k@, i);
            if other != k@ {
                match key_pos(es, other) {
                    Some(j) => {
                        assert(es2[j] == es[j]);
                        lemma_key_pos_unique(es2, other, j);
                    },
                    None => {
                        assert forall|j: int| 0 <= j < es2.len() implies es2[j].0@ != other by {
                            if j != i {
                                assert(es2[j] == es[j]);
                            }
                        }
                        lemma_key_pos_absent(es2, other);
                    },
                }
            }
        },
        None => {
            assert(es2[es.len() as int] == (k, v));
            assert forall|j: int| 0 <= j < es.len() implies es2[j].0@ != k@ by {
                assert(es2[j] == es[j]);
            }
            lemma_key_pos_unique(es2, k@, es.len() as int);
            if other != k@ {
                match key_pos(es, other) {
                    Some(j) => {
                        assert(es2[j] == es[j]);
                        lemma_key_pos_unique(es2, other, j);
                    },
                    None => {
                        assert forall|j: int| 0 <= j < es2.len() implies es2[j].0@ != other by {
                            if j < es.len() {
                                assert(es2[j] == es[j]);
                            }
                        }
                        lemma_key_pos_absent(es2, other);
                    },
                }
            }
        },
    }
}

/// The first entry keyed `k` is at `i` when `i` holds `k` and no entry
/// before it does.
pub proof fn lemma_key_pos_unique(es: Seq<(String, BorrowedValue)>, k: Seq<char>, i: int)
    requires
        0 <= i < es.len(),
        es[i].0@ == k,
        forall|j: int| 0 <= j < i ==> es[j].0@ != k,
    ensures
        key_pos(es, k) == Some(i),
    decreases es.len(),
{
    if i > 0 {
        assert(es[0].0@ != k);
        lemma_key_pos_unique(es.drop_first(), k, i - 1);
    }
}

/// No entry is keyed `k` when none holds it.
pub proof fn lemma_key_pos_absent(es: Seq<(String, BorrowedValue)>, k: Seq<char>)
    requires
        forall|j: int| 0 <= j < es.len() ==> es[j].0@ != k,
    ensures
        key_pos(es, k) is None,
    decreases es.len(),
{
    if es.len() > 0 {
        assert(es[0].0@ != k);
        assert forall|j: int| 0 <= j < es.drop_first().len() implies es.drop_first()[j].0@ != k by {
            assert(es.drop_first()[j] == es[j + 1]);
        }
        lemma_key_pos_absent(es.drop_first(), k);
    }
}

impl BorrowedMapping {
    #[verifier::type_invariant]
    closed spec fn unique(&self) -> bool {
        keys_unique(self.entries@)
    }

    /// The entries, in document order.
    pub closed spec fn spec_entries(&self) -> Seq<(String, BorrowedValue)> {
        self.entries@
    }

    /// An empty mapping.
    pub fn new() -> (m: Self)
        ensures
            m.spec_entries() == Seq::<(String, BorrowedValue)>::empty(),
    {
        BorrowedMapping { entries: Vec::new() }
    }

    /// The number of entries.
    pub fn len(&self) -> (n: usize)
        ensures
            n == self.spec_entries().len(),
    {
        self.entries.len()
    }

    /// No entries.
    pub fn is_empty(&self) -> (r: bool)
        ensures
            r == (self.spec_entries().len() == 0),
    {
        self.entries.len() == 0
    }

    /// The entries, in document order.
    pub fn entries(&self) -> (es: &[(String, BorrowedValue)])
        ensures
            es@ == self.spec_entries(),
    {
        self.entries.as_slice()
    }

    /// Index of the entry keyed `key`.
    pub(crate) fn position(&self, key: &str) -> (r: Option<usize>)
        ensures
            match r {
                Some(i) => key_pos(self.spec_entries(), key@) == Some(i as int),
                None => key_pos(self.spec_entries(), key@) is None,
            },
    {
        let mut i: usize = 0;
        assert(self.entries@.skip(0) =~= self.entries@);
        while i < self.entries.len()
            invariant
                i <= self.entries@.len(),
                key_pos(self.entries@, key@) == match key_pos(self.entries@.skip(i as int), key@) {
                    Some(j) => Some(j + i),
                    None => None,
                },
            decreases self.entries@.len() - i,
        {
            proof {
                assert(self.entries@.skip(i as int)[0] == self.entries@[i as int]);
                assert(self.entries@.skip(i as int).drop_first() =~= self.entries@.skip(i + 1));
            }
            if same_text(self.entries[i].0.as_str(), key) {
                return Some(i);
            }
            i += 1;
        }
        proof {
            assert(self.entries@.skip(i as int) =~= Seq::<(String, BorrowedValue)>::empty());
        }
        None
    }

    /// The entries, taken out in document order.
    pub fn into_entries(self) -> (es: Vec<(String, BorrowedValue)>)
        ensures
            es@ == self.spec_entries(),
    {
        self.entries
    }

    /// The value under `key`.
    pub fn get(&self, key: &str) -> (r: Option<&BorrowedValue>)
        ensures
            match key_pos(self.spec_entries(), key@) {
                Some(i) => r == Some(&self.spec_entries()[i].1),
                None => r is None,
            },
    {
        match self.position(key) {
            Some(i) => {
                proof {
                    lemma_key_pos(self.entries@, key@);
                }
                Some(&self.entries[i].1)
            },
            None => None,
        }
    }

    /// Put `value` under `key`: an existing key keeps its place and its
    /// old value is returned; a new key goes last.
    pub fn insert(&mut self, key: String, value: BorrowedValue) -> (old_value: Option<BorrowedValue>)
        ensures
            final(self).spec_entries() == inserted(old(self).spec_entries(), key, value),
            match key_pos(old(self).spec_entries(), key@) {
                Some(i) => old_value == Some(old(self).spec_entries()[i].1),
                None => old_value is None,
            },
    {
        proof {
            use_type_invariant(&*self);
            lemma_key_pos(self.entries@, key@);
        }
        match self.position(key.as_str()) {
            Some(i) => {
                let mut entries = Vec::new();
                std::mem::swap(&mut entries, &mut self.entries);
                let ghost before = entries@;
                let (k, previous) = entries.remove(i);
                entries.insert(i, (k, value));
                proof {
                    assert(entries@ =~= before.update(i as int, (before[i as int].0, value)));
                    assert(keys_unique(entries@)) by {
                        assert forall|a: int, b: int| 0 <= a < b < entries@.len() implies entries@[a].0@
                            != entries@[b].0@ by {
                            assert(entries@[a].0 == before[a].0);
                            assert(entries@[b].0 == before[b].0);
                        }
                    }
                }
                self.entries = entries;
                Some(previous)
            },
            None => {
                let mut entries = Vec::new();
                std::mem::swap(&mut entries, &mut self.entries);
                let ghost before = entries@;
                entries.push((key, value));
                proof {
                    assert(keys_unique(entries@)) by {
                        assert forall|a: int, b: int| 0 <= a < b < entries@.len() implies entries@[a].0@
                            != entries@[b].0@ by {
                            if b < before.len() {
                                assert(entries@[a] == before[a]);
                                assert(entries@[b] == before[b]);
                            } else {
                                assert(entries@[a] == before[a]);
                            }
                        }
                    }
                }
                self.entries = entries;
                None
            },
        }
    }
}

impl BorrowedValue {
    /// A null.
    pub fn is_null(&self) -> (r: bool)
        ensures
            r == (*self is Null),
    {
        match self {
            BorrowedValue::Null => true,
            _ => false,
        }
    }

    /// The text of a string.
    pub fn as_str(&self) -> (r: Option<&str>)
        ensures
            match *self {
                BorrowedValue::String(s) => r matches Some(t) && t@ == s@,
                _ => r is None,
            },
    {
        match self {
            BorrowedValue::String(s) => Some(s.as_str()),
            _ => None,
        }
    }

    /// The integer of an integer number.
    pub fn as_i64(&self) -> (r: Option<i64>)
        ensures
            r == match *self {
                BorrowedValue::Number(Number::Integer(i)) => Some(i),
                _ => None::<i64>,
            },
    {
        match self {
            BorrowedValue::Number(n) => n.as_i64(),
            _ => None,
        }
    }

    /// The boolean of a boolean.
    pub fn as_bool(&self) -> (r: Option<bool>)
        ensures
            r == match *self {
                BorrowedValue::Bool(b) => Some(b),
                _ => None::<bool>,
            },
    {
        match self {
            BorrowedValue::Bool(b) => Some(*b),
            _ => None,
        }
    }

    /// The items of a sequence.
    pub fn as_sequence(&self) -> (r: Option<&[BorrowedValue]>)
        ensures
            match *self {
                BorrowedValue::Sequence(s) => r matches Some(t) && t@ == s@,
                _ => r is None,
            },
    {
        match self {
            BorrowedValue::Sequence(s) => Some(s.as_slice()),
            _ => None,
        }
    }

    /// The entries of a mapping.
    pub fn as_mapping(&self) -> (r: Option<&BorrowedMapping>)
        ensures
            match *self {
                BorrowedValue::Mapping(m) => r == Some(&m),
                _ => r is None,
            },
    {
        match self {
            BorrowedValue::Mapping(m) => Some(m),
            _ => None,
        }
    }
}

// ── Scalar resolution ────────────────────────────────────────────────

/// `null` in its plain spellings, `~`, or nothing.
pub open spec fn null_word(s: Seq<char>) -> bool {
    s.len() == 0 || s == seq!['~'] || s == seq!['n', 'u', 'l', 'l'] || s == seq!['N', 'u', 'l', 'l']
        || s == seq!['N', 'U', 'L', 'L']
}

/// `true` in its plain spellings.
pub open spec fn true_word(s: Seq<char>) -> bool {
    s == seq!['t', 'r', 'u', 'e'] || s == seq!['T', 'r', 'u', 'e'] || s == seq!['T', 'R', 'U', 'E']
}

/// `false` in its plain spellings.
pub open spec fn false_word(s: Seq<char>) -> bool {
    s == seq!['f', 'a', 'l', 's', 'e'] || s == seq!['F', 'a', 'l', 's', 'e'] || s == seq![
        'F',
        'A',
        'L',
        'S',
        'E',
    ]
}

/// A character that can open a number: a digit, a sign or a dot.
pub open spec fn number_lead(c: char) -> bool {
    is_digit(c) || c == '+' || c == '-' || c == '.'
}

/// What a scalar resolves to: quoted and block scalars are strings; a
/// plain one is null, a boolean, a special float, a decimal `i64`, a
/// float, or else a string.
pub open spec fn spec_resolve_scalar(value: String, style: ScalarStyle) -> BorrowedValue {
    let s = value@;
    if style != ScalarStyle::Plain {
        BorrowedValue::String(value)
    } else if null_word(s) {
        BorrowedValue::Null
    } else if true_word(s) {
        BorrowedValue::Bool(true)
    } else if false_word(s) {
        BorrowedValue::Bool(false)
    } else if spec_special_float(s) {
        BorrowedValue::Number(Number::Float(value))
    } else if s.len() > 0 && number_lead(s[0]) {
        match spec_from_str_radix(s, 10) {
            Some(n) => BorrowedValue::Number(Number::Integer(n as i64)),
            None => if float_syntax(s) {
                BorrowedValue::Number(Number::Float(value))
            } else {
                BorrowedValue::String(value)
            },
        }
    } else {
        BorrowedValue::String(value)
    }
}

/// `v` is the word `w`.
fn is_word(v: &[char], w: &[char]) -> (r: bool)
    ensures
        r == (v@ == w@),
{
    chars_eq(v, w)
}

/// `v` spells `null` (see [`null_word`]).
fn is_null_word(v: &[char]) -> (r: bool)
    ensures
        r == null_word(v@),
{
    let a = ['~'];
    let b = ['n', 'u', 'l', 'l'];
    let c = ['N', 'u', 'l', 'l'];
    let d = ['N', 'U', 'L', 'L'];
    proof {
        assert(a@ =~= seq!['~']);
        assert(b@ =~= seq!['n', 'u', 'l', 'l']);
        assert(c@ =~= seq!['N', 'u', 'l', 'l']);
        assert(d@ =~= seq!['N', 'U', 'L', 'L']);
    }
    v.len() == 0 || is_word(v, &a) || is_word(v, &b) || is_word(v, &c) || is_word(v, &d)
}

/// `v` spells `true` (see [`true_word`]).
fn is_true_word(v: &[char]) -> (r: bool)
    ensures
        r == true_word(v@),
{
    let a = ['t', 'r', 'u', 'e'];
    let b = ['T', 'r', 'u', 'e'];
    let c = ['T', 'R', 'U', 'E'];
    proof {
        assert(a@ =~= seq!['t', 'r', 'u', 'e']);
        assert(b@ =~= seq!['T', 'r', 'u', 'e']);
        assert(c@ =~= seq!['T', 'R', 'U', 'E']);
    }
    is_word(v, &a) || is_word(v, &b) || is_word(v, &c)
}

/// `v` spells `false` (see [`false_word`]).
fn is_false_word(v: &[char]) -> (r: bool)
    ensures
        r == false_word(v@),
{
    let a = ['f', 'a', 'l', 's', 'e'];
    let b = ['F', 'a', 'l', 's', 'e'];
    let c = ['F', 'A', 'L', 'S', 'E'];
    proof {
        assert(a@ =~= seq!['f', 'a', 'l', 's', 'e']);
        assert(b@ =~= seq!['F', 'a', 'l', 's', 'e']);
        assert(c@ =~= seq!['F', 'A', 'L', 'S', 'E']);
    }
    is_word(v, &a) || is_word(v, &b) || is_word(v, &c)
}

/// A scalar's value (see [`spec_resolve_scalar`]).
pub fn resolve_scalar(value: String, style: ScalarStyle) -> (r: BorrowedValue)
    ensures
        r == spec_resolve_scalar(value, style),
{
    if style != ScalarStyle::Plain {
        return BorrowedValue::String(value);
    }
    let v = chars_of(value.as_str());
    if is_null_word(v.as_slice()) {
        return BorrowedValue::Null;
    }
    if is_true_word(v.as_slice()) {
        return BorrowedValue::Bool(true);
    }
    if is_false_word(v.as_slice()) {
        return BorrowedValue::Bool(false);
    }
    if special_float_chars(v.as_slice()) {
        return BorrowedValue::Number(Number::Float(value));
    }
    if v.len() > 0 && (('0' <= v[0] && v[0] <= '9') || v[0] == '+' || v[0] == '-' || v[0] == '.') {
        match from_str_radix_i64(v.as_slice(), 10) {
            Some(n) => {
                return BorrowedValue::Number(Number::Integer(n));
            },
            None => {
                if float_syntax_chars(v.as_slice()) {
                    return BorrowedValue::Number(Number::Float(value));
                }
            },
        }
    }
    BorrowedValue::String(value)
}

/// Law: a plain scalar spelled `true`, `True` or `TRUE` is the boolean
/// true; one spelled `false`, `False` or `FALSE` is the boolean false;
/// `null`, `Null`, `NULL`, `~` or nothing is null. A boolean comes from
/// no other spelling, and a quoted or block scalar is always its text.
pub proof fn lemma_resolved_words(value: String, style: ScalarStyle)
    ensures
        style == ScalarStyle::Plain && (value@ == seq!['t', 'r', 'u', 'e'] || value@ == seq![
            'T',
            'r',
            'u',
            'e',
        ] || value@ == seq!['T', 'R', 'U', 'E']) ==> spec_resolve_scalar(value, style)
            == BorrowedValue::Bool(true),
        style == ScalarStyle::Plain && (value@ == seq!['f', 'a', 'l', 's', 'e'] || value@ == seq![
            'F',
            'a',
            'l',
            's',
            'e',
        ] || value@ == seq!['F', 'A', 'L', 'S', 'E']) ==> spec_resolve_scalar(value, style)
            == BorrowedValue::Bool(false),
        style == ScalarStyle::Plain && (value@.len() == 0 || value@ == seq!['~'] || value@ == seq![
            'n',
            'u',
            'l',
            'l',
        ] || value@ == seq!['N', 'u', 'l', 'l'] || value@ == seq!['N', 'U', 'L', 'L'])
            ==> spec_resolve_scalar(value, style) == BorrowedValue::Null,
        spec_resolve_scalar(value, style) == BorrowedValue::Bool(true) ==> style
            == ScalarStyle::Plain && (value@ == seq!['t', 'r', 'u', 'e'] || value@ == seq![
            'T',
            'r',
            'u',
            'e',
        ] || value@ == seq!['T', 'R', 'U', 'E']),
        spec_resolve_scalar(value, style) == BorrowedValue::Bool(false) ==> style
            == ScalarStyle::Plain && (value@ == seq!['f', 'a', 'l', 's', 'e'] || value@ == seq![
            'F',
            'a',
            'l',
            's',
            'e',
        ] || value@ == seq!['F', 'A', 'L', 'S', 'E']),
        style != ScalarStyle::Plain ==> spec_resolve_scalar(value, style) == BorrowedValue::String(
            value,
        ),
{
}

proof fn lemma_decimal_value(d: Seq<char>)
    requires
        crate::path::all_digits(d),
    ensures
        crate::scalar::all_radix_digits(d, 10),
        crate::scalar::radix_value(d, 10) == crate::path::digits_value(d),
    decreases d.len(),
{
    if d.len() > 0 {
        let p = d.drop_last();
        assert forall|i: int| 0 <= i < p.len() implies crate::path::is_digit(#[trigger] p[i]) by {
            assert(p[i] == d[i]);
        }
        lemma_decimal_value(p);
        assert(crate::path::is_digit(d[d.len() - 1]));
    }
}

/// Law: a plain scalar that is a run of decimal digits, optionally after
/// a `-`, is the integer those digits spell (negated after the `-`)
/// when that integer fits an `i64`.
pub proof fn lemma_resolved_integers(value: String)
    ensures
        value@.len() > 0 && crate::path::all_digits(value@) && crate::path::digits_value(value@)
            <= i64::MAX ==> spec_resolve_scalar(value, ScalarStyle::Plain) == BorrowedValue::Number(
            Number::Integer(crate::path::digits_value(value@) as i64),
        ),
        value@.len() > 1 && value@[0] == '-' && crate::path::all_digits(value@.skip(1))
            && crate::path::digits_value(value@.skip(1)) <= 0x8000_0000_0000_0000
            ==> spec_resolve_scalar(value, ScalarStyle::Plain) == BorrowedValue::Number(
            Number::Integer((-crate::path::digits_value(value@.skip(1))) as i64),
        ),
{
    let s = value@;
    if s.len() > 0 && crate::path::all_digits(s) {
        lemma_decimal_value(s);
        assert(crate::path::is_digit(s[0]));
    }
    if s.len() > 1 && s[0] == '-' && crate::path::all_digits(s.skip(1)) {
        lemma_decimal_value(s.skip(1));
        assert(crate::path::is_digit(s.skip(1)[0]));
        assert(s.skip(1)[0] == s[1]);
    }
}

// ── Queries ──────────────────────────────────────────────────────────

/// The values directly under `v`: a sequence's items or a mapping's
/// values, in order.
pub open spec fn children(v: BorrowedValue) -> Seq<BorrowedValue> {
    match v {
        BorrowedValue::Sequence(s) => s@,
        BorrowedValue::Mapping(m) => m.spec_entries().map_values(|e: (String, BorrowedValue)| e.1),
        _ => seq![],
    }
}

/// A value is larger than each value directly under it.
pub proof fn lemma_child_smaller(v: BorrowedValue, i: int)
    requires
        0 <= i < children(v).len(),
    ensures
        decreases_to!(v => children(v)[i]),
{
    match v {
        BorrowedValue::Sequence(s) => {
            assert(decreases_to!(v => s));
            assert(decreases_to!(s => s@));
            assert(decreases_to!(s@ => s@[i]));
        },
        BorrowedValue::Mapping(m) => {
            assert(children(v)[i] == m.entries@[i].1);
            assert(decreases_to!(v => m));
            assert(decreases_to!(m => m.entries));
            assert(decreases_to!(m.entries => m.entries@));
            assert(decreases_to!(m.entries@ => m.entries@[i]));
            assert(decreases_to!(m.entries@[i] => m.entries@[i].1));
        },
        _ => {},
    }
}

/// The value under `k` in a mapping is one of its children.
pub proof fn lemma_keyed_child(m: BorrowedMapping, k: Seq<char>)
    ensures
        key_pos(m.spec_entries(), k) matches Some(i) ==> 0 <= i < children(
            BorrowedValue::Mapping(m),
        ).len() && children(BorrowedValue::Mapping(m))[i] == m.spec_entries()[i].1,
{
    lemma_key_pos(m.spec_entries(), k);
}

/// The values that the segments from `d` on select under `v`, in
/// document order: a key or an index steps to one child, `*` to every
/// child, and `..` matches the rest of the path here and at every depth
/// below (nothing when it ends the path).
pub open spec fn query_at(v: BorrowedValue, segs: Seq<SegmentView>, d: int) -> Seq<BorrowedValue>
    decreases v, segs.len() - d, children(v).len() + 1,
{
    if d < 0 || d >= segs.len() {
        seq![v]
    } else {
        match segs[d] {
            SegmentView::Key(k) => match v {
                BorrowedValue::Mapping(m) => match key_pos(m.spec_entries(), k) {
                    Some(i) => {
                        proof {
                            lemma_keyed_child(m, k);
                            lemma_child_smaller(v, i);
                        }
                        query_at(m.spec_entries()[i].1, segs, d + 1)
                    },
                    None => seq![],
                },
                _ => seq![],
            },
            SegmentView::Index(i) => match v {
                BorrowedValue::Sequence(s) => if i < s@.len() {
                    proof {
                        lemma_child_smaller(v, i as int);
                    }
                    query_at(s@[i as int], segs, d + 1)
                } else {
                    seq![]
                },
                _ => seq![],
            },
            SegmentView::Wildcard => query_children(v, children(v).len() as int, segs, d + 1),
            SegmentView::RecursiveDescent => if d + 1 < segs.len() {
                query_at(v, segs, d + 1) + query_children(v, children(v).len() as int, segs, d)
            } else {
                seq![]
            },
        }
    }
}

/// [`query_at`] over the first `n` children of `v`, one after another.
pub open spec fn query_children(v: BorrowedValue, n: int, segs: Seq<SegmentView>, d: int) -> Seq<
    BorrowedValue,
>
    decreases v, segs.len() - d, n,
{
    if n <= 0 || n > children(v).len() || d < 0 {
        seq![]
    } else {
        proof {
            lemma_child_smaller(v, n - 1);
        }
        query_children(v, n - 1, segs, d) + query_at(children(v)[n - 1], segs, d)
    }
}


/// Law: a key segment that ends a query path selects, in a mapping, the
/// value of the first entry with that key, and nothing where no entry
/// has it or the value is not a mapping; an index segment that ends
/// the path selects the item at that index of a sequence, if any.
pub proof fn lemma_key_index_query(v: BorrowedValue, segs: Seq<SegmentView>, d: int)
    requires
        d == segs.len() - 1,
        0 <= d,
    ensures
        segs[d] matches SegmentView::Key(k) ==> match v {
            BorrowedValue::Mapping(m) => {
                &&& forall|i: int|
                    0 <= i < m.spec_entries().len() && m.spec_entries()[i].0@ == k && (forall|j: int|
                        0 <= j < i ==> (#[trigger] m.spec_entries()[j]).0@ != k) ==> query_at(v, segs, d)
                        == seq![m.spec_entries()[i].1]
                &&& (forall|j: int| 0 <= j < m.spec_entries().len() ==> (#[trigger] m.spec_entries()[j]).0@ != k)
                    ==> query_at(v, segs, d).len() == 0
            },
            _ => query_at(v, segs, d).len() == 0,
        },
        segs[d] matches SegmentView::Index(n) ==> match v {
            BorrowedValue::Sequence(items) => if n < items@.len() {
                query_at(v, segs, d) == seq![items@[n as int]]
            } else {
                query_at(v, segs, d).len() == 0
            },
            _ => query_at(v, segs, d).len() == 0,
        },
{
    if let SegmentView::Key(k) = segs[d] {
        if let BorrowedValue::Mapping(m) = v {
            lemma_key_pos(m.spec_entries(), k);
            assert forall|i: int|
                0 <= i < m.spec_entries().len() && m.spec_entries()[i].0@ == k && (forall|j: int|
                    0 <= j < i ==> (#[trigger] m.spec_entries()[j]).0@ != k) implies query_at(v, segs, d)
                == seq![m.spec_entries()[i].1] by {
                lemma_key_pos_unique(m.spec_entries(), k, i);
                assert(query_at(m.spec_entries()[i].1, segs, d + 1) == seq![m.spec_entries()[i].1]);
            }
            if forall|j: int| 0 <= j < m.spec_entries().len() ==> (#[trigger] m.spec_entries()[j]).0@ != k {
                lemma_key_pos_absent(m.spec_entries(), k);
            }
        }
    }
    if let SegmentView::Index(n) = segs[d] {
        if let BorrowedValue::Sequence(items) = v {
            if n < items@.len() {
                assert(query_at(items@[n as int], segs, d + 1) == seq![items@[n as int]]);
            }
        }
    }
}

/// The results of the path `segs` from its segment `d` on, taken from
/// each of the values `cs` in turn and joined.
pub open spec fn gathered(cs: Seq<BorrowedValue>, segs: Seq<SegmentView>, d: int) -> Seq<BorrowedValue>
    decreases cs.len(),
{
    if cs.len() == 0 {
        seq![]
    } else {
        gathered(cs.drop_last(), segs, d) + query_at(cs.last(), segs, d)
    }
}

/// The values of the entries `es`, in entry order.
pub open spec fn entry_values(es: Seq<(String, BorrowedValue)>) -> Seq<BorrowedValue> {
    Seq::new(es.len(), |i: int| es[i].1)
}

proof fn lemma_query_children_gathered(v: BorrowedValue, n: int, segs: Seq<SegmentView>, d: int)
    requires
        0 <= n <= children(v).len(),
        0 <= d,
    ensures
        query_children(v, n, segs, d) == gathered(children(v).take(n), segs, d),
    decreases n,
{
    if n > 0 {
        lemma_query_children_gathered(v, n - 1, segs, d);
        assert(children(v).take(n).drop_last() =~= children(v).take(n - 1));
        assert(children(v).take(n).last() == children(v)[n - 1]);
    } else {
        assert(children(v).take(0).len() == 0);
    }
}

proof fn lemma_gathered_at_end(cs: Seq<BorrowedValue>, segs: Seq<SegmentView>, d: int)
    requires
        d == segs.len(),
    ensures
        gathered(cs, segs, d) == cs,
    decreases cs.len(),
{
    if cs.len() > 0 {
        lemma_gathered_at_end(cs.drop_last(), segs, d);
        assert(cs.drop_last().push(cs.last()) =~= cs);
    }
}

/// Law: a `*` segment of a query path reached at a mapping goes on from
/// each of the mapping's values, in entry order, and at a sequence from
/// each of its items, joining the results; at a scalar it selects
/// nothing. A `*` that ends the path selects exactly those values.
pub proof fn lemma_wildcard_query(v: BorrowedValue, segs: Seq<SegmentView>, d: int)
    requires
        0 <= d < segs.len(),
        segs[d] is Wildcard,
    ensures
        v matches BorrowedValue::Mapping(m) ==> query_at(v, segs, d) == gathered(
            entry_values(m.spec_entries()),
            segs,
            d + 1,
        ),
        v matches BorrowedValue::Sequence(items) ==> query_at(v, segs, d) == gathered(items@, segs, d + 1),
        !(v is Mapping || v is Sequence) ==> query_at(v, segs, d).len() == 0,
        d == segs.len() - 1 ==> (v matches BorrowedValue::Mapping(m) ==> query_at(v, segs, d)
            == entry_values(m.spec_entries())),
        d == segs.len() - 1 ==> (v matches BorrowedValue::Sequence(items) ==> query_at(v, segs, d)
            == items@),
{
    let n = children(v).len() as int;
    lemma_query_children_gathered(v, n, segs, d + 1);
    assert(children(v).take(n) =~= children(v));
    if let BorrowedValue::Mapping(m) = v {
        assert(children(v) =~= entry_values(m.spec_entries()));
    }
    if d == segs.len() - 1 {
        lemma_gathered_at_end(children(v), segs, d + 1);
    }
}

// ── Copies and sizes ─────────────────────────────────────────────────

/// `b` is a copy of `a`: the same scalar, or a collection of the same
/// shape whose keys are the same and whose children are copies.
pub open spec fn same_value(a: BorrowedValue, b: BorrowedValue) -> bool
    decreases a, children(a).len() + 1,
{
    match a {
        BorrowedValue::Sequence(_) => b is Sequence && children(b).len() == children(a).len()
            && same_children(a, b, children(a).len() as int),
        BorrowedValue::Mapping(m) => match b {
            BorrowedValue::Mapping(p) => p.spec_entries().len() == m.spec_entries().len() && (forall|
                i: int,
            |
                0 <= i < m.spec_entries().len() ==> #[trigger] p.spec_entries()[i].0
                    == m.spec_entries()[i].0) && same_children(a, b, children(a).len() as int),
            _ => false,
        },
        _ => b == a,
    }
}

/// The first `n` children of `b` are copies of those of `a`.
pub open spec fn same_children(a: BorrowedValue, b: BorrowedValue, n: int) -> bool
    decreases a, n,
{
    if n <= 0 || n > children(a).len() {
        true
    } else {
        proof {
            lemma_child_smaller(a, n - 1);
        }
        same_children(a, b, n - 1) && same_value(children(a)[n - 1], children(b)[n - 1])
    }
}

proof fn lemma_same_children(a: BorrowedValue, b: BorrowedValue, n: int)
    requires
        0 <= n <= children(a).len(),
        n <= children(b).len(),
        forall|j: int| 0 <= j < n ==> same_value(#[trigger] children(a)[j], children(b)[j]),
    ensures
        same_children(a, b, n),
    decreases n,
{
    if n > 0 {
        lemma_same_children(a, b, n - 1);
    }
}

/// A rough measure of the memory a value takes: a fixed cost per node,
/// the bytes of its strings and keys.
pub open spec fn value_size(v: BorrowedValue) -> nat
    decreases v, children(v).len() + 1,
{
    match v {
        BorrowedValue::String(s) => 64 + vstd::utf8::encode_utf8(s@).len(),
        BorrowedValue::Sequence(_) | BorrowedValue::Mapping(_) => 64 + size_children(
            v,
            children(v).len() as int,
        ),
        _ => 64,
    }
}

/// The sizes of the first `n` children of `v`, with their keys.
pub open spec fn size_children(v: BorrowedValue, n: int) -> nat
    decreases v, n,
{
    if n <= 0 || n > children(v).len() {
        0
    } else {
        proof {
            lemma_child_smaller(v, n - 1);
        }
        size_children(v, n - 1) + key_bytes(v, n - 1) + value_size(children(v)[n - 1])
    }
}

/// The bytes of the key of child `i` of a mapping; none elsewhere.
pub open spec fn key_bytes(v: BorrowedValue, i: int) -> nat {
    match v {
        BorrowedValue::Mapping(m) => vstd::utf8::encode_utf8(m.spec_entries()[i].0@).len(),
        _ => 0,
    }
}

/// `n`, or the largest `usize` where it is larger.
pub open spec fn capped(n: nat) -> usize {
    if n > usize::MAX {
        usize::MAX
    } else {
        n as usize
    }
}

impl BorrowedValue {
    /// A copy of the value.
    pub fn duplicate(&self) -> (r: BorrowedValue)
        ensures
            same_value(*self, r),
        decreases *self,
    {
        match self {
            BorrowedValue::Null => BorrowedValue::Null,
            BorrowedValue::Bool(b) => BorrowedValue::Bool(*b),
            BorrowedValue::Number(Number::Integer(n)) => BorrowedValue::Number(Number::Integer(*n)),
            BorrowedValue::Number(Number::Float(t)) => BorrowedValue::Number(Number::Float(t.clone())),
            BorrowedValue::String(s) => BorrowedValue::String(s.clone()),
            BorrowedValue::Sequence(items) => {
                let mut out: Vec<BorrowedValue> = Vec::new();
                let mut i: usize = 0;
                while i < items.len()
                    invariant
                        i <= items@.len(),
                        out@.len() == i,
                        *self == BorrowedValue::Sequence(*items),
                        forall|j: int| 0 <= j < i ==> same_value(items@[j], #[trigger] out@[j]),
                    decreases items@.len() - i,
                {
                    proof {
                        lemma_child_smaller(*self, i as int);
                    }
                    let c = items[i].duplicate();
                    out.push(c);
                    i += 1;
                }
                let r = BorrowedValue::Sequence(out);
                proof {
                    assert forall|j: int| 0 <= j < items@.len() implies same_value(
                        #[trigger] children(*self)[j],
                        children(r)[j],
                    ) by {
                        assert(children(*self)[j] == items@[j]);
                        assert(children(r)[j] == out@[j]);
                    }
                    lemma_same_children(*self, r, items@.len() as int);
                }
                r
            },
            BorrowedValue::Mapping(m) => {
                proof {
                    use_type_invariant(m);
                }
                let es = m.entries.as_slice();
                let mut out: Vec<(String, BorrowedValue)> = Vec::new();
                let mut i: usize = 0;
                while i < es.len()
                    invariant
                        i <= es@.len(),
                        es@ == m.entries@,
                        keys_unique(m.entries@),
                        out@.len() == i,
                        *self == BorrowedValue::Mapping(*m),
                        forall|j: int| 0 <= j < i ==> (#[trigger] out@[j]).0 == es@[j].0,
                        forall|j: int| 0 <= j < i ==> same_value(es@[j].1, #[trigger] out@[j].1),
                    decreases es@.len() - i,
                {
                    proof {
                        lemma_child_smaller(*self, i as int);
                        assert(children(*self)[i as int] == es@[i as int].1);
                    }
                    let c = es[i].1.duplicate();
                    let k = es[i].0.clone();
                    out.push((k, c));
                    i += 1;
                }
                proof {
                    assert forall|a: int, b: int| 0 <= a < b < out@.len() implies out@[a].0@
                        != out@[b].0@ by {
                        assert(out@[a].0 == es@[a].0);
                        assert(out@[b].0 == es@[b].0);
                    }
                }
                let copy = BorrowedMapping { entries: out };
                let r = BorrowedValue::Mapping(copy);
                proof {
                    assert forall|j: int| 0 <= j < es@.len() implies same_value(
                        #[trigger] children(*self)[j],
                        children(r)[j],
                    ) by {
                        assert(children(*self)[j] == es@[j].1);
                        assert(children(r)[j] == out@[j].1);
                    }
                    lemma_same_children(*self, r, es@.len() as int);
                }
                r
            },
        }
    }

    /// [`value_size`], capped at the largest `usize`.
    pub fn estimated_size(&self) -> (n: usize)
        ensures
            n == capped(value_size(*self)),
        decreases *self,
    {
        match self {
            BorrowedValue::String(s) => {
                let b = crate::text::byte_len(s.as_str());
                b.saturating_add(64)
            },
            BorrowedValue::Sequence(items) => {
                let mut total: usize = 64;
                let mut i: usize = 0;
                while i < items.len()
                    invariant
                        i <= items@.len(),
                        *self == BorrowedValue::Sequence(*items),
                        total == capped(64 + size_children(*self, i as int)),
                    decreases items@.len() - i,
                {
                    proof {
                        lemma_child_smaller(*self, i as int);
                        assert(children(*self)[i as int] == items@[i as int]);
                    }
                    let c = items[i].estimated_size();
                    total = total.saturating_add(c);
                    i += 1;
                }
                total
            },
            BorrowedValue::Mapping(m) => {
                let es = m.entries.as_slice();
                let mut total: usize = 64;
                let mut i: usize = 0;
                while i < es.len()
                    invariant
                        i <= es@.len(),
                        es@ == m.entries@,
                        *self == BorrowedValue::Mapping(*m),
                        total == capped(64 + size_children(*self, i as int)),
                    decreases es@.len() - i,
                {
                    proof {
                        lemma_child_smaller(*self, i as int);
                        assert(children(*self)[i as int] == es@[i as int].1);
                    }
                    let c = es[i].1.estimated_size();
                    let kb = crate::text::byte_len(es[i].0.as_str());
                    total = total.saturating_add(kb).saturating_add(c);
                    i += 1;
                }
                total
            },
            _ => 64,
        }
    }
}

/// The values a run of references points at.
pub open spec fn derefs(rs: Seq<&BorrowedValue>) -> Seq<BorrowedValue> {
    rs.map_values(|r: &BorrowedValue| *r)
}

/// Append to `results` the values that `segments` from `depth` on
/// select under `value` (see [`query_at`]).
fn borrowed_query_recursive<'b>(
    value: &'b BorrowedValue,
    segments: &[QuerySegment],
    depth: usize,
    results: &mut Vec<&'b BorrowedValue>,
)
    requires
        depth <= segments@.len(),
    ensures
        derefs(final(results)@) == derefs(old(results)@) + query_at(
            *value,
            segment_views(segments@),
            depth as int,
        ),
    decreases *value, segments@.len() - depth, children(*value).len() + 1,
{
    let ghost segs = segment_views(segments@);
    if depth >= segments.len() {
        results.push(value);
        proof {
            assert(derefs(results@) =~= derefs(old(results)@) + seq![*value]);
        }
        return;
    }
    assert(segs[depth as int] == segments@[depth as int]@);
    match &segments[depth] {
        QuerySegment::Key(key) => {
            if let BorrowedValue::Mapping(m) = value {
                proof {
                    lemma_keyed_child(*m, key@);
                }
                match m.get(key.as_str()) {
                    Some(child) => {
                        proof {
                            lemma_key_pos(m.spec_entries(), key@);
                            let i = key_pos(m.spec_entries(), key@)->0;
                            lemma_child_smaller(*value, i);
                        }
                        borrowed_query_recursive(child, segments, depth + 1, results);
                    },
                    None => {
                        assert(derefs(results@) =~= derefs(old(results)@) + Seq::<BorrowedValue>::empty());
                    },
                }
            } else {
                assert(derefs(results@) =~= derefs(old(results)@) + Seq::<BorrowedValue>::empty());
            }
        },
        QuerySegment::Index(idx) => {
            if let BorrowedValue::Sequence(s) = value {
                if *idx < s.len() {
                    proof {
                        lemma_child_smaller(*value, *idx as int);
                    }
                    borrowed_query_recursive(&s[*idx], segments, depth + 1, results);
                } else {
                    assert(derefs(results@) =~= derefs(old(results)@) + Seq::<BorrowedValue>::empty());
                }
            } else {
                assert(derefs(results@) =~= derefs(old(results)@) + Seq::<BorrowedValue>::empty());
            }
        },
        QuerySegment::Wildcard => {
            query_children_into(value, segments, depth + 1, results);
        },
        QuerySegment::RecursiveDescent => {
            if depth + 1 < segments.len() {
                let ghost before = derefs(results@);
                borrowed_query_recursive(value, segments, depth + 1, results);
                let ghost mid = derefs(results@);
                query_children_into(value, segments, depth, results);
                proof {
                    assert(derefs(results@) =~= before + (query_at(*value, segs, depth + 1)
                        + query_children(*value, children(*value).len() as int, segs, depth as int)));
                }
            } else {
                assert(derefs(results@) =~= derefs(old(results)@) + Seq::<BorrowedValue>::empty());
            }
        },
    }
}

/// Append to `results` what `segments` from `depth` on select under each
/// child of `value` in turn (see [`query_children`]).
fn query_children_into<'b>(
    value: &'b BorrowedValue,
    segments: &[QuerySegment],
    depth: usize,
    results: &mut Vec<&'b BorrowedValue>,
)
    requires
        depth <= segments@.len(),
    ensures
        derefs(final(results)@) == derefs(old(results)@) + query_children(
            *value,
            children(*value).len() as int,
            segment_views(segments@),
            depth as int,
        ),
    decreases *value, segments@.len() - depth, children(*value).len(),
{
    let ghost segs = segment_views(segments@);
    let ghost start = derefs(results@);
    match value {
        BorrowedValue::Sequence(items) => {
            let mut k: usize = 0;
            while k < items.len()
                invariant
                    k <= items@.len(),
                    depth <= segments@.len(),
                    segs == segment_views(segments@),
                    children(*value) == items@,
                    derefs(results@) == start + query_children(*value, k as int, segs, depth as int),
                decreases items@.len() - k,
            {
                proof {
                    lemma_child_smaller(*value, k as int);
                }
                let ghost before = derefs(results@);
                borrowed_query_recursive(&items[k], segments, depth, results);
                proof {
                    assert(derefs(results@) == before + query_at(items@[k as int], segs, depth as int));
                    assert(query_children(*value, k + 1, segs, depth as int) == query_children(
                        *value,
                        k as int,
                        segs,
                        depth as int,
                    ) + query_at(children(*value)[k as int], segs, depth as int));
                    assert(derefs(results@) =~= start + query_children(
                        *value,
                        k + 1,
                        segs,
                        depth as int,
                    ));
                }
                k += 1;
            }
        },
        BorrowedValue::Mapping(m) => {
            let entries = m.entries();
            let mut k: usize = 0;
            while k < entries.len()
                invariant
                    k <= entries@.len(),
                    depth <= segments@.len(),
                    segs == segment_views(segments@),
                    entries@ == m.spec_entries(),
                    children(*value) == m.spec_entries().map_values(|e: (String, BorrowedValue)| e.1),
                    derefs(results@) == start + query_children(*value, k as int, segs, depth as int),
                decreases entries@.len() - k,
            {
                proof {
                    lemma_child_smaller(*value, k as int);
                    assert(children(*value)[k as int] == entries@[k as int].1);
                }
                let ghost before = derefs(results@);
                borrowed_query_recursive(&entries[k].1, segments, depth, results);
                proof {
                    assert(derefs(results@) == before + query_at(entries@[k as int].1, segs, depth as int));
                    assert(query_children(*value, k + 1, segs, depth as int) == query_children(
                        *value,
                        k as int,
                        segs,
                        depth as int,
                    ) + query_at(children(*value)[k as int], segs, depth as int));
                    assert(derefs(results@) =~= start + query_children(
                        *value,
                        k + 1,
                        segs,
                        depth as int,
                    ));
                }
                k += 1;
            }
        },
        _ => {
            assert(derefs(results@) =~= start + Seq::<BorrowedValue>::empty());
        },
    }
}

// ── Path access ──────────────────────────────────────────────────────

/// The value `segs` from `d` on lead to from `v` by keys and indices
/// alone; a `*` or `..` segment hands the whole path to a query from
/// `root` and takes its first match.
pub open spec fn walk_path(v: BorrowedValue, segs: Seq<SegmentView>, d: int, root: BorrowedValue) -> Option<
    BorrowedValue,
>
    decreases segs.len() - d,
{
    if d < 0 || d >= segs.len() {
        Some(v)
    } else {
        match segs[d] {
            SegmentView::Key(k) => match v {
                BorrowedValue::Mapping(m) => match key_pos(m.spec_entries(), k) {
                    Some(i) => walk_path(m.spec_entries()[i].1, segs, d + 1, root),
                    None => None,
                },
                _ => None,
            },
            SegmentView::Index(i) => match v {
                BorrowedValue::Sequence(s) => if i < s@.len() {
                    walk_path(s@[i as int], segs, d + 1, root)
                } else {
                    None
                },
                _ => None,
            },
            _ => {
                let q = query_at(root, segs, 0);
                if q.len() > 0 {
                    Some(q[0])
                } else {
                    None
                }
            },
        }
    }
}

impl BorrowedValue {
    /// Every value that `path` selects (dot notation, bracket indices,
    /// `*` wildcards and `..` recursive descent), in document order.
    pub fn query(&self, path: &str) -> (r: Vec<&BorrowedValue>)
        ensures
            derefs(r@) == query_at(*self, query_segments(path@, Seq::empty()), 0),
    {
        let segments = parse_query_path(path);
        let mut results = Vec::new();
        borrowed_query_recursive(self, segments.as_slice(), 0, &mut results);
        proof {
            assert(derefs(Seq::<&BorrowedValue>::empty()) =~= Seq::<BorrowedValue>::empty());
            assert(Seq::<BorrowedValue>::empty() + query_at(*self, segment_views(segments@), 0)
                =~= query_at(*self, segment_views(segments@), 0));
        }
        results
    }

    /// The value at a dotted path of keys and indices; a path with a
    /// wildcard or a recursive descent gives the first match of
    /// [`BorrowedValue::query`].
    pub fn get_path(&self, path: &str) -> (r: Option<&BorrowedValue>)
        ensures
            match walk_path(*self, query_segments(path@, Seq::empty()), 0, *self) {
                Some(v) => r matches Some(x) && *x == v,
                None => r is None,
            },
    {
        let segments = parse_query_path(path);
        let ghost segs = segment_views(segments@);
        let mut current = self;
        let mut k: usize = 0;
        while k < segments.len()
            invariant
                k <= segments@.len(),
                segs == segment_views(segments@),
                segs == query_segments(path@, Seq::empty()),
                walk_path(*self, segs, 0, *self) == walk_path(*current, segs, k as int, *self),
            decreases segments@.len() - k,
        {
            assert(segs[k as int] == segments@[k as int]@);
            match &segments[k] {
                QuerySegment::Key(key) => {
                    if let BorrowedValue::Mapping(m) = current {
                        match m.get(key.as_str()) {
                            Some(child) => {
                                current = child;
                            },
                            None => {
                                return None;
                            },
                        }
                    } else {
                        return None;
                    }
                },
                QuerySegment::Index(idx) => {
                    if let BorrowedValue::Sequence(s) = current {
                        if *idx < s.len() {
                            current = &s[*idx];
                        } else {
                            return None;
                        }
                    } else {
                        return None;
                    }
                },
                QuerySegment::Wildcard | QuerySegment::RecursiveDescent => {
                    let all = self.query(path);
                    if all.len() > 0 {
                        return Some(all[0]);
                    } else {
                        return None;
                    }
                },
            }
            k += 1;
        }
        Some(current)
    }
}


/// Segments that name keys and indices only.
pub open spec fn plain_path(segs: Seq<SegmentView>) -> bool {
    forall|i: int| 0 <= i < segs.len() ==> (#[trigger] segs[i] is Key || segs[i] is Index)
}

/// Along a path of keys and indices only, a query selects exactly the
/// value that [`BorrowedValue::get_path`] reaches, or nothing where it
/// reaches none.
pub proof fn lemma_plain_query_is_get_path(
    v: BorrowedValue,
    segs: Seq<SegmentView>,
    d: int,
    root: BorrowedValue,
)
    requires
        plain_path(segs),
        0 <= d,
    ensures
        query_at(v, segs, d) == match walk_path(v, segs, d, root) {
            Some(x) => seq![x],
            None => Seq::<BorrowedValue>::empty(),
        },
    decreases segs.len() - d,
{
    if d < segs.len() {
        assert(segs[d] is Key || segs[d] is Index);
        match segs[d] {
            SegmentView::Key(k) => match v {
                BorrowedValue::Mapping(m) => match key_pos(m.spec_entries(), k) {
                    Some(i) => lemma_plain_query_is_get_path(m.spec_entries()[i].1, segs, d + 1, root),
                    None => {},
                },
                _ => {},
            },
            SegmentView::Index(i) => match v {
                BorrowedValue::Sequence(s) => if i < s@.len() {
                    lemma_plain_query_is_get_path(s@[i as int], segs, d + 1, root);
                },
                _ => {},
            },
            _ => {},
        }
    }
}

// ── Building a value from events ─────────────────────────────────────

/// Whether to go on reading events.
#[derive(Debug, Clone, Copy, PartialEq, Eq, Structural)]
pub enum BuilderState {
    Continue,
    Done,
}

/// A collection being filled: a sequence, a mapping awaiting a key, or
/// a mapping holding a key that awaits its value.
#[derive(Debug)]
pub enum Frame {
    Sequence(Vec<BorrowedValue>),
    MappingKey(BorrowedMapping),
    MappingValue(BorrowedMapping, String),
}

/// Builds one value from the events of a stream: the collections still
/// open form a stack, and a finished node goes into the innermost one,
/// or becomes the result at the top level.
pub struct BorrowedBuilder {
    stack: Vec<Frame>,
    result: Option<BorrowedValue>,
    max_depth: usize,
    depth: usize,
    in_document: bool,
}

/// `new` is `old` with the finished value `v` placed: appended to an
/// open sequence, entered under the pending key of an open mapping (which
/// then awaits its next key), dropped by a mapping awaiting a key, or
/// made the result when nothing is open.
pub open spec fn placed(
    stack: Seq<Frame>,
    result: Option<BorrowedValue>,
    v: BorrowedValue,
    new_stack: Seq<Frame>,
    new_result: Option<BorrowedValue>,
) -> bool {
    if stack.len() == 0 {
        new_stack == stack && new_result == Some(v)
    } else {
        let n = stack.len() - 1;
        &&& new_result == result
        &&& new_stack.len() == stack.len()
        &&& new_stack.take(n) == stack.take(n)
        &&& match stack[n] {
            Frame::Sequence(items) => new_stack[n] matches Frame::Sequence(items2) && items2@
                == items@.push(v),
            Frame::MappingValue(m, k) => new_stack[n] matches Frame::MappingKey(m2)
                && m2.spec_entries() == inserted(m.spec_entries(), k, v),
            Frame::MappingKey(_) => new_stack[n] == stack[n],
        }
    }
}

/// The message for an end that closes no collection of its kind.
pub open spec fn unexpected_end_message(sequence: bool) -> Seq<char> {
    if sequence {
        "unexpected sequence end"@
    } else {
        "unexpected mapping end"@
    }
}

/// The message for an alias, which this builder does not expand.
pub open spec fn alias_message() -> Seq<char> {
    "aliases not supported in borrowed mode; use from_str::<Value> instead"@
}

impl BorrowedBuilder {
    /// The open collections, innermost last.
    pub closed spec fn spec_stack(&self) -> Seq<Frame> {
        self.stack@
    }

    /// The finished top-level value, if any.
    pub closed spec fn spec_result(&self) -> Option<BorrowedValue> {
        self.result
    }

    /// How many collections are open, as counted by starts and ends.
    pub closed spec fn spec_depth(&self) -> usize {
        self.depth
    }

    /// The deepest nesting allowed.
    pub closed spec fn spec_max_depth(&self) -> usize {
        self.max_depth
    }

    /// Inside a document.
    pub closed spec fn spec_in_document(&self) -> bool {
        self.in_document
    }

    /// Nothing changed but, perhaps, the stack, the result and the depth.
    pub open spec fn same_settings(a: BorrowedBuilder, b: BorrowedBuilder) -> bool {
        b.spec_max_depth() == a.spec_max_depth() && b.spec_in_document() == a.spec_in_document()
    }

    /// What one event does to the builder, and what it answers.
    pub open spec fn processed(
        old: BorrowedBuilder,
        ev: Event,
        new: BorrowedBuilder,
        r: Result<BuilderState, Error>,
    ) -> bool {
        let st = old.spec_stack();
        let n = st.len();
        match ev {
            Event::StreamStart => r == Ok::<BuilderState, Error>(BuilderState::Continue) && new
                == old,
            Event::StreamEnd => r == Ok::<BuilderState, Error>(BuilderState::Done) && new == old,
            Event::DocumentStart | Event::DocumentEnd => {
                &&& r == Ok::<BuilderState, Error>(BuilderState::Continue)
                &&& new.spec_in_document() == (ev is DocumentStart)
                &&& new.spec_stack() == st
                &&& new.spec_result() == old.spec_result()
                &&& new.spec_depth() == old.spec_depth()
                &&& new.spec_max_depth() == old.spec_max_depth()
            },
            Event::Scalar { value, style, .. } => {
                &&& r == Ok::<BuilderState, Error>(BuilderState::Continue)
                &&& Self::same_settings(old, new)
                &&& new.spec_depth() == old.spec_depth()
                &&& if n > 0 && st[n - 1] is MappingKey {
                    new.spec_stack() == st.update(
                        n - 1,
                        Frame::MappingValue(st[n - 1]->MappingKey_0, value),
                    ) && new.spec_result() == old.spec_result()
                } else {
                    placed(
                        st,
                        old.spec_result(),
                        spec_resolve_scalar(value, style),
                        new.spec_stack(),
                        new.spec_result(),
                    )
                }
            },
            Event::SequenceStart { .. } | Event::MappingStart { .. } => {
                &&& Self::same_settings(old, new)
                &&& new.spec_depth() == old.spec_depth() + 1
                &&& new.spec_result() == old.spec_result()
                &&& if old.spec_depth() + 1 > old.spec_max_depth() {
                    &&& r matches Err(Error::RecursionLimitExceeded { depth }) && depth
                        == old.spec_depth() + 1
                    &&& new.spec_stack() == st
                } else {
                    &&& r == Ok::<BuilderState, Error>(BuilderState::Continue)
                    &&& new.spec_stack().len() == n + 1
                    &&& new.spec_stack().take(n as int) == st
                    &&& if ev is SequenceStart {
                        new.spec_stack()[n as int] matches Frame::Sequence(items) && items@.len()
                            == 0
                    } else {
                        new.spec_stack()[n as int] matches Frame::MappingKey(m)
                            && m.spec_entries().len() == 0
                    }
                }
            },
            Event::SequenceEnd { .. } | Event::MappingEnd { .. } => {
                let closes = if ev is SequenceEnd {
                    n > 0 && st[n - 1] is Sequence
                } else {
                    n > 0 && !(st[n - 1] is Sequence)
                };
                &&& Self::same_settings(old, new)
                &&& new.spec_depth() == if old.spec_depth() > 0 {
                    old.spec_depth() - 1
                } else {
                    0
                }
                &&& if closes {
                    let v = match st[n - 1] {
                        Frame::Sequence(items) => BorrowedValue::Sequence(items),
                        Frame::MappingKey(m) => BorrowedValue::Mapping(m),
                        Frame::MappingValue(m, _) => BorrowedValue::Mapping(m),
                    };
                    &&& r == Ok::<BuilderState, Error>(BuilderState::Continue)
                    &&& placed(
                        st.drop_last(),
                        old.spec_result(),
                        v,
                        new.spec_stack(),
                        new.spec_result(),
                    )
                } else {
                    &&& r matches Err(Error::Invalid(m)) && m@ == unexpected_end_message(
                        ev is SequenceEnd,
                    )
                    &&& new.spec_stack() == if n > 0 {
                        st.drop_last()
                    } else {
                        st
                    }
                    &&& new.spec_result() == old.spec_result()
                }
            },
            Event::Alias { .. } => r matches Err(Error::Invalid(m)) && m@ == alias_message() && new
                == old,
        }
    }

    /// A builder with nothing open and no result, nesting at most
    /// `max_depth` collections.
    pub fn new(max_depth: usize) -> (b: Self)
        ensures
            b.spec_stack().len() == 0,
            b.spec_result() is None,
            b.spec_depth() == 0,
            b.spec_max_depth() == max_depth,
            !b.spec_in_document(),
    {
        BorrowedBuilder { stack: Vec::new(), result: None, max_depth, depth: 0, in_document: false }
    }

    /// The finished value, null when there is none.
    pub fn into_value(self) -> (v: BorrowedValue)
        ensures
            v == match self.spec_result() {
                Some(x) => x,
                None => BorrowedValue::Null,
            },
    {
        match self.result {
            Some(v) => v,
            None => BorrowedValue::Null,
        }
    }

    /// Place a finished value (see [`placed`]).
    fn push_value(&mut self, value: BorrowedValue)
        ensures
            placed(
                old(self).spec_stack(),
                old(self).spec_result(),
                value,
                final(self).spec_stack(),
                final(self).spec_result(),
            ),
            final(self).depth == old(self).depth,
            final(self).max_depth == old(self).max_depth,
            final(self).in_document == old(self).in_document,
    {
        let ghost st = self.stack@;
        match self.stack.pop() {
            None => {
                self.result = Some(value);
            },
            Some(Frame::Sequence(mut items)) => {
                items.push(value);
                self.stack.push(Frame::Sequence(items));
                assert(self.stack@.take(st.len() - 1) =~= st.take(st.len() - 1));
            },
            Some(Frame::MappingValue(mut m, key)) => {
                let _ = m.insert(key, value);
                self.stack.push(Frame::MappingKey(m));
                assert(self.stack@.take(st.len() - 1) =~= st.take(st.len() - 1));
            },
            Some(Frame::MappingKey(m)) => {
                self.stack.push(Frame::MappingKey(m));
                assert(self.stack@.take(st.len() - 1) =~= st.take(st.len() - 1));
            },
        }
    }

    /// Take in one event (see [`BorrowedBuilder::processed`]).
    pub fn process(&mut self, event: Event) -> (r: Result<BuilderState, Error>)
        requires
            old(self).spec_depth() < usize::MAX,
        ensures
            Self::processed(*old(self), event, *final(self), r),
    {
        let ghost st = self.stack@;
        match event {
            Event::StreamStart => Ok(BuilderState::Continue),
            Event::StreamEnd => Ok(BuilderState::Done),
            Event::DocumentStart => {
                self.in_document = true;
                Ok(BuilderState::Continue)
            },
            Event::DocumentEnd => {
                self.in_document = false;
                Ok(BuilderState::Continue)
            },
            Event::Scalar { value, style, .. } => {
                let n = self.stack.len();
                if n > 0 {
                    if let Frame::MappingKey(_) = &self.stack[n - 1] {
                        match self.stack.pop() {
                            Some(Frame::MappingKey(m)) => {
                                self.stack.push(Frame::MappingValue(m, value));
                                assert(self.stack@ =~= st.update(
                                    n - 1,
                                    Frame::MappingValue(st[n - 1]->MappingKey_0, value),
                                ));
                            },
                            _ => {},
                        }
                        return Ok(BuilderState::Continue);
                    }
                }
                let resolved = resolve_scalar(value, style);
                self.push_value(resolved);
                Ok(BuilderState::Continue)
            },
            Event::SequenceStart { .. } => {
                self.depth = self.depth + 1;
                if self.depth > self.max_depth {
                    return Err(Error::RecursionLimitExceeded { depth: self.depth });
                }
                self.stack.push(Frame::Sequence(Vec::new()));
                assert(self.stack@.take(st.len() as int) =~= st);
                Ok(BuilderState::Continue)
            },
            Event::SequenceEnd { .. } => {
                self.depth = if self.depth > 0 { self.depth - 1 } else { 0 };
                let items = match self.stack.pop() {
                    Some(Frame::Sequence(items)) => items,
                    _ => {
                        return Err(Error::Invalid(owned_string("unexpected sequence end")));
                    },
                };
                self.push_value(BorrowedValue::Sequence(items));
                Ok(BuilderState::Continue)
            },
            Event::MappingStart { .. } => {
                self.depth = self.depth + 1;
                if self.depth > self.max_depth {
                    return Err(Error::RecursionLimitExceeded { depth: self.depth });
                }
                self.stack.push(Frame::MappingKey(BorrowedMapping::new()));
                assert(self.stack@.take(st.len() as int) =~= st);
                Ok(BuilderState::Continue)
            },
            Event::MappingEnd { .. } => {
                self.depth = if self.depth > 0 { self.depth - 1 } else { 0 };
                let m = match self.stack.pop() {
                    Some(Frame::MappingKey(m)) => m,
                    Some(Frame::MappingValue(m, _)) => m,
                    _ => {
                        return Err(Error::Invalid(owned_string("unexpected mapping end")));
                    },
                };
                self.push_value(BorrowedValue::Mapping(m));
                Ok(BuilderState::Continue)
            },
            Event::Alias { .. } => Err(
                Error::Invalid(
                    owned_string(
                        "aliases not supported in borrowed mode; use from_str::<Value> instead",
                    ),
                ),
            ),
        }
    }
}

// ── Parsing ─────────────────────────────────────────────────────────

/// The message for a document longer than allowed.
pub open spec fn too_long_message(max: usize) -> Seq<char> {
    "document exceeds maximum length of "@ + decimal(max as nat) + " bytes"@
}

/// Parse the YAML `input` into a value, within the default limits.
pub fn from_str_borrowed(input: &str) -> (r: Result<BorrowedValue, Error>)
    requires
        input.spec_bytes().len() <= isize::MAX,
    ensures
        r matches Err(Error::Parse(m)) <==> input.spec_bytes().len()
            > default_config().max_document_length,
        r matches Err(Error::Parse(m)) ==> m@ == too_long_message(
            default_config().max_document_length,
        ),
        r matches Ok(v) ==> exists|toks: Seq<Token>, end: ScanError|
            scanned(input.spec_bytes(), toks, end) && value_from_tokens(
                toks,
                end,
                default_config().max_depth,
                v,
            ),
        r matches Err(e) ==> (e is Parse || e is ParseWithLocation || e == Error::RecursionLimitExceeded {
            depth: usize::MAX,
        } || exists|toks: Seq<Token>, end: ScanError|
            scanned(input.spec_bytes(), toks, end) && refused_tokens(toks, end, default_config().max_depth, e)),
{
    let config = ParserConfig::default();
    from_str_borrowed_with_config(input, &config)
}

/// Parse the YAML `input` into a value within the limits of `config`:
/// an input longer than `max_document_length` is refused before it is
/// scanned; otherwise its tokens are built into a value as
/// [`from_tokens_with_config`] says.
pub fn from_str_borrowed_with_config(input: &str, config: &ParserConfig) -> (r: Result<
    BorrowedValue,
    Error,
>)
    requires
        input.spec_bytes().len() <= isize::MAX,
    ensures
        r matches Err(Error::Parse(m)) <==> input.spec_bytes().len() > config.max_document_length,
        r matches Err(Error::Parse(m)) ==> m@ == too_long_message(config.max_document_length),
        r matches Ok(v) ==> exists|toks: Seq<Token>, end: ScanError|
            scanned(input.spec_bytes(), toks, end) && value_from_tokens(toks, end, config.max_depth, v),
        r matches Err(e) ==> (e is Parse || e is ParseWithLocation || e == Error::RecursionLimitExceeded {
            depth: usize::MAX,
        } || exists|toks: Seq<Token>, end: ScanError|
            scanned(input.spec_bytes(), toks, end) && refused_tokens(toks, end, config.max_depth, e)),
{
    if input.len() > config.max_document_length {
        let mut m = owned_string("document exceeds maximum length of ");
        push_decimal(&mut m, config.max_document_length);
        push_str(&mut m, " bytes");
        return Err(Error::Parse(m));
    }
    let (tokens, end) = tokenize(input);
    let ghost toks = tokens@;
    let ghost e0 = end;
    proof {
        assert(scanned(input.spec_bytes(), toks, e0));
    }
    from_tokens_with_config(input, tokens, end, config)
}

/// The parser `p` stands at the start of the stream of `toks`, with
/// `end` reported past them.
pub open spec fn parser_start(p: Parser, toks: Seq<Token>, end: ScanError) -> bool {
    &&& p.input() == toks
    &&& p.end_report() == end
    &&& p.consumed() == 0
    &&& p.phase() == State::StreamStart
    &&& p.stack() == Seq::<State>::empty()
}

/// `ps` are the parser's states as it returns the events `evs`, one
/// step each (see [`Parser::event_step`]).
pub open spec fn parser_run(ps: Seq<Parser>, evs: Seq<Event>) -> bool {
    &&& ps.len() == evs.len() + 1
    &&& forall|i: int| 0 <= i < evs.len() ==> Parser::event_step(#[trigger] ps[i], evs[i], ps[i + 1])
}

/// A builder with nothing built yet, nesting at most `max_depth` deep.
pub open spec fn builder_start(b: BorrowedBuilder, max_depth: usize) -> bool {
    &&& b.spec_stack().len() == 0
    &&& b.spec_result() is None
    &&& b.spec_depth() == 0
    &&& b.spec_max_depth() == max_depth
    &&& !b.spec_in_document()
}

/// `bs` are the builder's states as it takes the events `evs`: every
/// event but the last lets it go on, and the last ends the stream.
pub open spec fn builder_run(bs: Seq<BorrowedBuilder>, evs: Seq<Event>) -> bool {
    &&& bs.len() == evs.len() + 1
    &&& evs.len() > 0
    &&& forall|i: int|
        0 <= i < evs.len() - 1 ==> BorrowedBuilder::processed(
            #[trigger] bs[i],
            evs[i],
            bs[i + 1],
            Ok::<BuilderState, Error>(BuilderState::Continue),
        )
    &&& BorrowedBuilder::processed(
        bs[evs.len() - 1],
        evs[evs.len() - 1],
        bs[evs.len() as int],
        Ok::<BuilderState, Error>(BuilderState::Done),
    )
}

/// The value a finished builder holds, null where it holds none.
pub open spec fn built_value(b: BorrowedBuilder) -> BorrowedValue {
    match b.spec_result() {
        Some(x) => x,
        None => BorrowedValue::Null,
    }
}

/// `v` is the value that the events of the tokens `toks` build: the
/// parser's run over them, from the stream's start, fed to a builder
/// that nests at most `max_depth` deep, through the stream's end.
pub open spec fn value_from_tokens(toks: Seq<Token>, end: ScanError, max_depth: usize, v: BorrowedValue) -> bool {
    exists|ps: Seq<Parser>, evs: Seq<Event>, bs: Seq<BorrowedBuilder>|
        {
            &&& parser_run(ps, evs)
            &&& parser_start(ps[0], toks, end)
            &&& builder_run(bs, evs)
            &&& builder_start(bs[0], max_depth)
            &&& v == built_value(bs[evs.len() as int])
        }
}

/// `toks` and `end` are what scanning `input` can give: the stream's
/// start first, no stream end but as the last token, every token within
/// the input, and the end report at the input's end after a stream end.
pub open spec fn scanned(input: Seq<u8>, toks: Seq<Token>, end: ScanError) -> bool {
    &&& toks.len() >= 1 && toks[0].kind is StreamStart
    &&& forall|i: int| 0 <= i < toks.len() - 1 ==> !(#[trigger] toks[i].kind is StreamEnd)
    &&& forall|i: int| 0 <= i < toks.len() ==> #[trigger] toks[i].span.start <= toks[i].span.end <= input.len()
    &&& toks.last().kind is StreamEnd ==> end.index == input.len()
    &&& end.index <= input.len()
}

/// The builder refuses the tokens `toks` with `e`: the parser's run
/// over them from the stream's start gives events that a builder
/// nesting at most `max_depth` deep takes in, until it refuses the last
/// of them (see [`BorrowedBuilder::processed`]).
#[verifier::opaque]
pub open spec fn refused_tokens(toks: Seq<Token>, end: ScanError, max_depth: usize, e: Error) -> bool {
    exists|ps: Seq<Parser>, evs: Seq<Event>, bs: Seq<BorrowedBuilder>, last: BorrowedBuilder|
        {
            &&& parser_run(ps, evs)
            &&& parser_start(ps[0], toks, end)
            &&& evs.len() > 0
            &&& bs.len() == evs.len()
            &&& builder_start(bs[0], max_depth)
            &&& forall|i: int|
                0 <= i < evs.len() - 1 ==> BorrowedBuilder::processed(
                    #[trigger] bs[i],
                    evs[i],
                    bs[i + 1],
                    Ok::<BuilderState, Error>(BuilderState::Continue),
                )
            &&& BorrowedBuilder::processed(bs.last(), evs.last(), last, Err::<BuilderState, Error>(e))
        }
}

/// A run that ends in a refusal witnesses [`refused_tokens`].
proof fn lemma_builder_refused(
    ps: Seq<Parser>,
    evs: Seq<Event>,
    bs: Seq<BorrowedBuilder>,
    p_next: Parser,
    ev: Event,
    last: BorrowedBuilder,
    toks: Seq<Token>,
    end: ScanError,
    max_depth: usize,
    e: Error,
)
    requires
        parser_run(ps, evs),
        parser_start(ps[0], toks, end),
        bs.len() == evs.len() + 1,
        builder_start(bs[0], max_depth),
        forall|i: int|
            0 <= i < evs.len() ==> BorrowedBuilder::processed(
                #[trigger] bs[i],
                evs[i],
                bs[i + 1],
                Ok::<BuilderState, Error>(BuilderState::Continue),
            ),
        Parser::event_step(ps.last(), ev, p_next),
        BorrowedBuilder::processed(bs.last(), ev, last, Err::<BuilderState, Error>(e)),
    ensures
        refused_tokens(toks, end, max_depth, e),
{
    reveal(refused_tokens);
    let ps2 = ps.push(p_next);
    let evs2 = evs.push(ev);
    assert forall|i: int| 0 <= i < evs2.len() implies Parser::event_step(#[trigger] ps2[i], evs2[i], ps2[i + 1]) by {
        if i < evs.len() {
            assert(ps2[i] == ps[i] && evs2[i] == evs[i] && ps2[i + 1] == ps[i + 1]);
        }
    }
    assert(parser_run(ps2, evs2));
    assert(bs.last() == bs[evs2.len() - 1]);
    assert(evs2.last() == ev);
    assert forall|i: int| 0 <= i < evs2.len() - 1 implies BorrowedBuilder::processed(
        #[trigger] bs[i],
        evs2[i],
        bs[i + 1],
        Ok::<BuilderState, Error>(BuilderState::Continue),
    ) by {
        assert(evs2[i] == evs[i]);
    }
}

/// Build the value of the YAML `input`, scanned into `tokens` (and
/// `end`, what the scanner reports past them), within the limits of
/// `config`: an input longer than `max_document_length` is refused, a
/// scanning or parse error is reported at its place in `input`, and
/// nesting deeper than `max_depth`, an alias, or an unbalanced end stops
/// the build.
pub fn from_tokens_with_config(
    input: &str,
    tokens: Vec<Token>,
    end: ScanError,
    config: &ParserConfig,
) -> (r: Result<BorrowedValue, Error>)
    requires
        input.spec_bytes().len() < usize::MAX,
    ensures
        r matches Err(Error::Parse(m)) <==> input.spec_bytes().len() > config.max_document_length,
        r matches Err(Error::Parse(m)) ==> m@ == too_long_message(config.max_document_length),
        r matches Ok(v) ==> value_from_tokens(tokens@, end, config.max_depth, v),
        r matches Err(e) ==> (e is Parse || e is ParseWithLocation || e == Error::RecursionLimitExceeded {
            depth: usize::MAX,
        } || refused_tokens(tokens@, end, config.max_depth, e)),
{
    if input.len() > config.max_document_length {
        let mut m = owned_string("document exceeds maximum length of ");
        push_decimal(&mut m, config.max_document_length);
        push_str(&mut m, " bytes");
        return Err(Error::Parse(m));
    }
    let ghost toks = tokens@;
    let ghost e0 = end;
    let mut parser = Parser::new(tokens, end);
    let mut builder = BorrowedBuilder::new(config.max_depth);
    let ghost mut ps: Seq<Parser> = seq![parser];
    let ghost mut evs: Seq<Event> = Seq::empty();
    let ghost mut bs: Seq<BorrowedBuilder> = seq![builder];
    loop
        invariant_except_break
            forall|i: int|
                0 <= i < evs.len() ==> BorrowedBuilder::processed(
                    #[trigger] bs[i],
                    evs[i],
                    bs[i + 1],
                    Ok::<BuilderState, Error>(BuilderState::Continue),
                ),
        invariant
            parser.wf(),
            input.spec_bytes().len() < usize::MAX,
            input.spec_bytes().len() <= config.max_document_length,
            parser_run(ps, evs),
            parser_start(ps[0], toks, e0),
            toks == tokens@,
            e0 == end,
            ps.last() == parser,
            bs.len() == evs.len() + 1,
            builder_start(bs[0], config.max_depth),
            bs.last() == builder,
        ensures
            parser_run(ps, evs),
            parser_start(ps[0], toks, e0),
            builder_run(bs, evs),
            builder_start(bs[0], config.max_depth),
            bs.last() == builder,
        decreases parser.remaining(), parser.potential(),
    {
        let ghost p_before = parser;
        let ghost b_before = builder;
        let event = match parser.next_event() {
            Ok(ev) => ev,
            Err(e) => {
                return Err(Error::parse_at(e.message, input, e.index));
            },
        };
        if builder.depth == usize::MAX {
            // No document can open this many collections.
            return Err(Error::RecursionLimitExceeded { depth: usize::MAX });
        }
        let ghost ev = event;
        let ghost p_after = parser;
        proof {
            assert(Parser::event_step(p_before, ev, parser));
        }
        match builder.process(event) {
            Ok(BuilderState::Continue) => {
                proof {
                    ps = ps.push(p_after);
                    evs = evs.push(ev);
                    bs = bs.push(builder);
                }
            },
            Ok(BuilderState::Done) => {
                proof {
                    ps = ps.push(p_after);
                    evs = evs.push(ev);
                    bs = bs.push(builder);
                }
                break ;
            },
            Err(e) => {
                proof {
                    lemma_builder_refused(ps, evs, bs, p_after, ev, builder, toks, e0, config.max_depth, e);
                }
                return Err(e);
            },
        }
    }
    let v = builder.into_value();
    proof {
        assert(v == built_value(bs[evs.len() as int]));
    }
    Ok(v)
}

} // verus!
