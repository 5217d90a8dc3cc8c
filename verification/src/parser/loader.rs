//! The value loader: builds the value of each document of a stream from
//! its events, with the byte ranges every node came from, under the
//! limits of a [`ParserConfig`]: nesting depth, sequence and mapping
//! sizes, alias expansions (count and copied bytes), the duplicate-key
//! policy, and `<<` merge keys.
use vstd::prelude::*;
use vstd::string::StringSliceAdditionalSpecFns;

use crate::borrowed::{
    capped, inserted, key_pos, lemma_key_pos, lemma_key_pos_absent, lemma_key_pos_unique, parser_run, parser_start, resolve_scalar, same_value,
    scanned, spec_resolve_scalar, too_long_message, value_size, BorrowedMapping, BorrowedValue,
    BuilderState, Number,
};
use crate::config::{DuplicateKeyPolicy, ParserConfig};
use crate::cst::locate::{range_of, EntrySpans, NodeSpans};
use crate::error::{spec_location_of, Error};
use crate::parser::events::{Event, Parser};
use crate::parser::scanner::tokenize;
use crate::parser::token::{ScalarStyle, ScanError, Span, Token};
use crate::text::{decimal, owned_string, push_char, push_decimal, push_str, same_text};

verus! {

// ── Scalars and keys ─────────────────────────────────────────────────

/// YAML 1.1 words for true.
pub open spec fn yes_word(s: Seq<char>) -> bool {
    s == "yes"@ || s == "Yes"@ || s == "YES"@ || s == "on"@ || s == "On"@ || s == "ON"@ || s
        == "y"@ || s == "Y"@
}

/// YAML 1.1 words for false.
pub open spec fn no_word(s: Seq<char>) -> bool {
    s == "no"@ || s == "No"@ || s == "NO"@ || s == "off"@ || s == "Off"@ || s == "OFF"@ || s
        == "n"@ || s == "N"@
}

/// The capitalised booleans that strict mode reads as strings.
pub open spec fn capital_bool(s: Seq<char>) -> bool {
    s == "True"@ || s == "TRUE"@ || s == "False"@ || s == "FALSE"@
}

/// The value of a scalar event: `!!str` (and the non-specific `!`)
/// give the text, `!!null` gives null; a plain scalar otherwise reads
/// the YAML 1.1 booleans where `legacy`, keeps the capitalised booleans
/// as strings where `strict`, and else resolves by the core schema;
/// any other scalar is its text.
pub open spec fn load_scalar(
    value: String,
    style: ScalarStyle,
    tag: Option<(String, String)>,
    strict: bool,
    legacy: bool,
) -> BorrowedValue {
    let s = value@;
    let text_tag = tag matches Some((h, t)) && ((h@ == "!!"@ && t@ == "str"@) || (h@ == "!"@ && t@
        == ""@));
    let null_tag = tag matches Some((h, t)) && h@ == "!!"@ && t@ == "null"@;
    if text_tag {
        BorrowedValue::String(value)
    } else if null_tag {
        BorrowedValue::Null
    } else if style != ScalarStyle::Plain {
        BorrowedValue::String(value)
    } else if legacy && yes_word(s) {
        BorrowedValue::Bool(true)
    } else if legacy && no_word(s) {
        BorrowedValue::Bool(false)
    } else if strict && capital_bool(s) {
        BorrowedValue::String(value)
    } else {
        spec_resolve_scalar(value, style)
    }
}

/// Law: an untagged plain scalar spelled `true` is the boolean true and
/// one spelled `false` the boolean false under every policy; `True`,
/// `TRUE`, `False` and `FALSE` are booleans too unless booleans are
/// strict, where they stay strings; `yes`, `on` and `y` are true and
/// `no`, `off` and `n` false only under the YAML 1.1 booleans, and
/// otherwise strings; a quoted scalar is always its text.
pub proof fn lemma_loaded_booleans(value: String, style: ScalarStyle, strict: bool, legacy: bool)
    ensures
        style == ScalarStyle::Plain && value@ == seq!['t', 'r', 'u', 'e'] ==> load_scalar(
            value,
            style,
            None,
            strict,
            legacy,
        ) == BorrowedValue::Bool(true),
        style == ScalarStyle::Plain && value@ == seq!['f', 'a', 'l', 's', 'e'] ==> load_scalar(
            value,
            style,
            None,
            strict,
            legacy,
        ) == BorrowedValue::Bool(false),
        style == ScalarStyle::Plain && !strict && (value@ == seq!['T', 'r', 'u', 'e'] || value@ == seq![
            'T',
            'R',
            'U',
            'E',
        ]) ==> load_scalar(value, style, None, strict, legacy) == BorrowedValue::Bool(true),
        style == ScalarStyle::Plain && strict && (value@ == seq!['T', 'r', 'u', 'e'] || value@ == seq![
            'T',
            'R',
            'U',
            'E',
        ] || value@ == seq!['F', 'a', 'l', 's', 'e'] || value@ == seq!['F', 'A', 'L', 'S', 'E'])
            ==> load_scalar(value, style, None, strict, legacy) == BorrowedValue::String(value),
        style == ScalarStyle::Plain && (value@ == seq!['y', 'e', 's'] || value@ == seq!['o', 'n']
            || value@ == seq!['y']) ==> load_scalar(value, style, None, strict, legacy) == if legacy {
            BorrowedValue::Bool(true)
        } else {
            BorrowedValue::String(value)
        },
        style == ScalarStyle::Plain && (value@ == seq!['n', 'o'] || value@ == seq!['o', 'f', 'f']
            || value@ == seq!['n']) ==> load_scalar(value, style, None, strict, legacy) == if legacy {
            BorrowedValue::Bool(false)
        } else {
            BorrowedValue::String(value)
        },
        style != ScalarStyle::Plain ==> load_scalar(value, style, None, strict, legacy)
            == BorrowedValue::String(value),
{
    reveal_strlit("yes");
    reveal_strlit("Yes");
    reveal_strlit("YES");
    reveal_strlit("on");
    reveal_strlit("On");
    reveal_strlit("ON");
    reveal_strlit("y");
    reveal_strlit("Y");
    reveal_strlit("no");
    reveal_strlit("No");
    reveal_strlit("NO");
    reveal_strlit("off");
    reveal_strlit("Off");
    reveal_strlit("OFF");
    reveal_strlit("n");
    reveal_strlit("N");
    reveal_strlit("True");
    reveal_strlit("TRUE");
    reveal_strlit("False");
    reveal_strlit("FALSE");
    assert("yes"@ =~= seq!['y', 'e', 's']);
    assert("on"@ =~= seq!['o', 'n']);
    assert("y"@ =~= seq!['y']);
    assert("no"@ =~= seq!['n', 'o']);
    assert("off"@ =~= seq!['o', 'f', 'f']);
    assert("n"@ =~= seq!['n']);
    assert("True"@ =~= seq!['T', 'r', 'u', 'e']);
    assert("TRUE"@ =~= seq!['T', 'R', 'U', 'E']);
    assert("False"@ =~= seq!['F', 'a', 'l', 's', 'e']);
    assert("FALSE"@ =~= seq!['F', 'A', 'L', 'S', 'E']);
    crate::borrowed::lemma_resolved_words(value, style);
}

/// `s` is one of `words`.
fn is_one_of(s: &str, words: &[&str]) -> (r: bool)
    ensures
        r == exists|i: int| 0 <= i < words@.len() && s@ == (#[trigger] words@[i])@,
{
    let mut i: usize = 0;
    while i < words.len()
        invariant
            i <= words@.len(),
            forall|j: int| 0 <= j < i ==> s@ != (#[trigger] words@[j])@,
        decreases words@.len() - i,
    {
        if same_text(s, words[i]) {
            return true;
        }
        i += 1;
    }
    false
}

/// The value of a scalar event (see [`load_scalar`]).
pub fn resolve_loaded_scalar(
    value: String,
    style: ScalarStyle,
    tag: &Option<(String, String)>,
    strict: bool,
    legacy: bool,
) -> (r: BorrowedValue)
    ensures
        r == load_scalar(value, style, *tag, strict, legacy),
{
    match tag {
        Some((h, t)) => {
            if (same_text(h.as_str(), "!!") && same_text(t.as_str(), "str")) || (same_text(
                h.as_str(),
                "!",
            ) && same_text(t.as_str(), "")) {
                return BorrowedValue::String(value);
            }
            if same_text(h.as_str(), "!!") && same_text(t.as_str(), "null") {
                return BorrowedValue::Null;
            }
        },
        None => {},
    }
    if style != ScalarStyle::Plain {
        return BorrowedValue::String(value);
    }
    let yes = ["yes", "Yes", "YES", "on", "On", "ON", "y", "Y"];
    let no = ["no", "No", "NO", "off", "Off", "OFF", "n", "N"];
    let caps = ["True", "TRUE", "False", "FALSE"];
    proof {
        assert(yes_word(value@) == exists|i: int| 0 <= i < yes@.len() && value@ == (#[trigger] yes@[i])@) by {
            if yes_word(value@) {
                if value@ == "yes"@ { assert(value@ == yes@[0]@); }
                if value@ == "Yes"@ { assert(value@ == yes@[1]@); }
                if value@ == "YES"@ { assert(value@ == yes@[2]@); }
                if value@ == "on"@ { assert(value@ == yes@[3]@); }
                if value@ == "On"@ { assert(value@ == yes@[4]@); }
                if value@ == "ON"@ { assert(value@ == yes@[5]@); }
                if value@ == "y"@ { assert(value@ == yes@[6]@); }
                if value@ == "Y"@ { assert(value@ == yes@[7]@); }
            }
        }
        assert(no_word(value@) == exists|i: int| 0 <= i < no@.len() && value@ == (#[trigger] no@[i])@) by {
            if no_word(value@) {
                if value@ == "no"@ { assert(value@ == no@[0]@); }
                if value@ == "No"@ { assert(value@ == no@[1]@); }
                if value@ == "NO"@ { assert(value@ == no@[2]@); }
                if value@ == "off"@ { assert(value@ == no@[3]@); }
                if value@ == "Off"@ { assert(value@ == no@[4]@); }
                if value@ == "OFF"@ { assert(value@ == no@[5]@); }
                if value@ == "n"@ { assert(value@ == no@[6]@); }
                if value@ == "N"@ { assert(value@ == no@[7]@); }
            }
        }
        assert(capital_bool(value@) == exists|i: int| 0 <= i < caps@.len() && value@ == (#[trigger] caps@[i])@) by {
            if capital_bool(value@) {
                if value@ == "True"@ { assert(value@ == caps@[0]@); }
                if value@ == "TRUE"@ { assert(value@ == caps@[1]@); }
                if value@ == "False"@ { assert(value@ == caps@[2]@); }
                if value@ == "FALSE"@ { assert(value@ == caps@[3]@); }
            }
        }
    }
    if legacy && is_one_of(value.as_str(), &yes) {
        return BorrowedValue::Bool(true);
    }
    if legacy && is_one_of(value.as_str(), &no) {
        return BorrowedValue::Bool(false);
    }
    if strict && is_one_of(value.as_str(), &caps) {
        return BorrowedValue::String(value);
    }
    resolve_scalar(value, style)
}

/// Decimal spelling of the integer `n`, with a `-` before a negative one.
pub open spec fn signed_decimal(n: int) -> Seq<char> {
    if n < 0 {
        seq!['-'] + decimal((-n) as nat)
    } else {
        decimal(n as nat)
    }
}

/// Append the decimal spelling of `n` to `out`.
fn push_decimal_u64(out: &mut String, n: u64)
    ensures
        final(out)@ == old(out)@ + decimal(n as nat),
    decreases n,
{
    if n >= 10 {
        push_decimal_u64(out, n / 10);
    }
    let d: u8 = (n % 10) as u8;
    push_char(out, (d + 48u8) as char);
    proof {
        if n >= 10 {
            assert(old(out)@ + decimal(n as nat) =~= old(out)@ + decimal((n / 10) as nat) + seq![
                crate::text::digit_char((n % 10) as nat),
            ]);
        }
    }
}

/// The text a scalar key is stored under: a string's own text, a
/// number's decimal or float text, `true`/`false`, `null`; a collection
/// cannot be a key.
pub open spec fn key_of(v: BorrowedValue) -> Option<Seq<char>> {
    match v {
        BorrowedValue::String(s) => Some(s@),
        BorrowedValue::Number(Number::Integer(n)) => Some(signed_decimal(n as int)),
        BorrowedValue::Number(Number::Float(t)) => Some(t@),
        BorrowedValue::Bool(b) => Some(
            if b {
                "true"@
            } else {
                "false"@
            },
        ),
        BorrowedValue::Null => Some("null"@),
        _ => None,
    }
}

/// The key text of `v` (see [`key_of`]).
fn key_text(v: BorrowedValue) -> (r: Option<String>)
    ensures
        match key_of(v) {
            Some(k) => r matches Some(t) && t@ == k,
            None => r is None,
        },
{
    match v {
        BorrowedValue::String(s) => Some(s),
        BorrowedValue::Number(Number::Integer(n)) => {
            let mut out = String::new();
            if n < 0 {
                push_char(&mut out, '-');
                let m: u64 = (0i128 - n as i128) as u64;
                push_decimal_u64(&mut out, m);
                assert(out@ =~= seq!['-'] + decimal((-(n as int)) as nat));
            } else {
                push_decimal_u64(&mut out, n as u64);
                assert(out@ =~= decimal(n as nat));
            }
            Some(out)
        },
        BorrowedValue::Number(Number::Float(t)) => Some(t),
        BorrowedValue::Bool(b) => Some(
            if b {
                owned_string("true")
            } else {
                owned_string("false")
            },
        ),
        BorrowedValue::Null => Some(owned_string("null")),
        _ => None,
    }
}

/// The merge key `<<`.
pub open spec fn is_merge_key(k: Seq<char>) -> bool {
    k == "<<"@
}

// ── Frames ───────────────────────────────────────────────────────────

/// A collection still open while the loader reads the events inside it.
pub enum LoadFrame {
    /// A sequence: its items so far and their ranges.
    Sequence { items: Vec<BorrowedValue>, spans: Vec<NodeSpans>, anchor: Option<String>, start: usize },
    /// A mapping waiting for a key; `merges` holds the values under `<<`.
    MappingKey {
        map: BorrowedMapping,
        spans: Vec<EntrySpans>,
        anchor: Option<String>,
        merges: Vec<BorrowedValue>,
        start: usize,
    },
    /// A mapping waiting for the value of `key`.
    MappingValue {
        map: BorrowedMapping,
        spans: Vec<EntrySpans>,
        key: String,
        key_span: (usize, usize),
        anchor: Option<String>,
        merges: Vec<BorrowedValue>,
        start: usize,
    },
}

/// The entries after a mapping entry `(k, v)` under the duplicate-key
/// policy `p`: with `First` a key already there keeps its value; else
/// the later value takes the key's place.
pub open spec fn put_entry(
    es: Seq<(String, BorrowedValue)>,
    k: String,
    v: BorrowedValue,
    p: DuplicateKeyPolicy,
) -> Seq<(String, BorrowedValue)> {
    if p == DuplicateKeyPolicy::First && key_pos(es, k@) is Some {
        es
    } else {
        inserted(es, k, v)
    }
}

/// The entry ranges after a mapping entry: under `First` a repeated key
/// keeps its range; else a repeated key's range is replaced where it
/// has one, and a new key's range goes last.
pub open spec fn put_span(
    es: Seq<(String, BorrowedValue)>,
    spans: Seq<EntrySpans>,
    e: EntrySpans,
    p: DuplicateKeyPolicy,
) -> Seq<EntrySpans> {
    match key_pos(es, e.key@) {
        Some(i) => if p == DuplicateKeyPolicy::First || i >= spans.len() {
            spans
        } else {
            spans.update(i, e)
        },
        None => spans.push(e),
    }
}

/// `f` is the frame `g` with the node `v` (its ranges `t`) added, and
/// `r` what adding it gives: a sequence takes an item; a mapping waiting
/// for a key takes `v` as its key (refused where `v` is a collection,
/// or repeats a key under the `Error` policy); a mapping waiting for a
/// value takes the entry, or the merge value under `<<`.
pub open spec fn frame_added(
    g: LoadFrame,
    v: BorrowedValue,
    t: NodeSpans,
    p: DuplicateKeyPolicy,
    f: LoadFrame,
    r: Result<(), Error>,
) -> bool {
    match g {
        LoadFrame::Sequence { items, spans, anchor, start } => {
            &&& r is Ok
            &&& f matches LoadFrame::Sequence { items: i2, spans: s2, anchor: a2, start: t2 }
            &&& i2@ == items@.push(v)
            &&& s2@ == spans@.push(t)
            &&& a2 == anchor
            &&& t2 == start
        },
        LoadFrame::MappingKey { map, spans, anchor, merges, start } => match key_of(v) {
            None => r matches Err(Error::Invalid(m)) && m@ == "non-scalar key in mapping"@,
            Some(k) => if !is_merge_key(k) && p == DuplicateKeyPolicy::Error && key_pos(
                map.spec_entries(),
                k,
            ) is Some {
                r matches Err(Error::DuplicateKey(d)) && d@ == k
            } else {
                &&& r is Ok
                &&& f matches LoadFrame::MappingValue {
                    map: m2,
                    spans: s2,
                    key,
                    key_span,
                    anchor: a2,
                    merges: g2,
                    start: t2,
                }
                &&& m2 == map
                &&& s2 == spans
                &&& key@ == k
                &&& (key_span.0 as int, key_span.1 as int) == range_of(t)
                &&& a2 == anchor
                &&& g2 == merges
                &&& t2 == start
            },
        },
        LoadFrame::MappingValue { map, spans, key, key_span, anchor, merges, start } => {
            &&& r is Ok
            &&& f matches LoadFrame::MappingKey { map: m2, spans: s2, anchor: a2, merges: g2, start: t2 }
            &&& a2 == anchor
            &&& t2 == start
            &&& if is_merge_key(key@) {
                m2 == map && s2 == spans && g2@ == merges@.push(v)
            } else {
                &&& g2 == merges
                &&& m2.spec_entries() == put_entry(map.spec_entries(), key, v, p)
                &&& s2@ == put_span(
                    map.spec_entries(),
                    spans@,
                    EntrySpans { key: key, key_span: key_span, value: t },
                    p,
                )
            }
        },
    }
}

/// The stack `nst` and finished documents `ndocs` after the node `v`
/// (ranges `t`) is complete: it goes into the innermost open collection
/// (see [`frame_added`]), or at the top level becomes a document.
pub open spec fn node_added(
    st: Seq<LoadFrame>,
    docs: Seq<(BorrowedValue, NodeSpans)>,
    v: BorrowedValue,
    t: NodeSpans,
    p: DuplicateKeyPolicy,
    nst: Seq<LoadFrame>,
    ndocs: Seq<(BorrowedValue, NodeSpans)>,
    r: Result<(), Error>,
) -> bool {
    if st.len() == 0 {
        r is Ok && nst == st && ndocs == docs.push((v, t))
    } else {
        &&& ndocs == docs
        &&& r is Ok ==> nst.len() == st.len() && nst.drop_last() == st.drop_last()
        &&& frame_added(st.last(), v, t, p, if nst.len() > 0 {
            nst.last()
        } else {
            st.last()
        }, r)
    }
}

// ── Merge keys ───────────────────────────────────────────────────────

/// The entries `es` with those of `src` added in order where their key
/// is not yet there (the first source of a key wins).
pub open spec fn absorbed(es: Seq<(String, BorrowedValue)>, src: Seq<(String, BorrowedValue)>) -> Seq<
    (String, BorrowedValue),
>
    decreases src.len(),
{
    if src.len() == 0 {
        es
    } else {
        absorbed(
            if key_pos(es, src[0].0@) is None {
                es.push(src[0])
            } else {
                es
            },
            src.drop_first(),
        )
    }
}

/// [`absorbed`] over a sequence of mappings; `None` where an item is not
/// a mapping.
pub open spec fn absorbed_all(es: Seq<(String, BorrowedValue)>, items: Seq<BorrowedValue>) -> Option<
    Seq<(String, BorrowedValue)>,
>
    decreases items.len(),
{
    if items.len() == 0 {
        Some(es)
    } else {
        match items[0] {
            BorrowedValue::Mapping(m) => absorbed_all(absorbed(es, m.spec_entries()), items.drop_first()),
            _ => None,
        }
    }
}

/// The value under the key `k` among the entries `es`: that of the
/// first entry with that key.
pub open spec fn value_under(es: Seq<(String, BorrowedValue)>, k: Seq<char>) -> Option<BorrowedValue> {
    match key_pos(es, k) {
        Some(i) => Some(es[i].1),
        None => None,
    }
}

/// The value under the key `k` in the earliest mapping of `items` that
/// has that key.
pub open spec fn earliest_holder(items: Seq<BorrowedValue>, k: Seq<char>) -> Option<BorrowedValue>
    decreases items.len(),
{
    if items.len() == 0 {
        None
    } else {
        match items[0] {
            BorrowedValue::Mapping(m) => match value_under(m.spec_entries(), k) {
                Some(v) => Some(v),
                None => earliest_holder(items.drop_first(), k),
            },
            _ => earliest_holder(items.drop_first(), k),
        }
    }
}

proof fn lemma_value_under_push(es: Seq<(String, BorrowedValue)>, e: (String, BorrowedValue), k: Seq<char>)
    ensures
        value_under(es.push(e), k) == match value_under(es, k) {
            Some(v) => Some(v),
            None => if e.0@ == k {
                Some(e.1)
            } else {
                None
            },
        },
{
    let es2 = es.push(e);
    lemma_key_pos(es, k);
    match key_pos(es, k) {
        Some(i) => {
            assert(es2[i] == es[i]);
            assert forall|j: int| 0 <= j < i implies es2[j].0@ != k by {
                assert(es2[j] == es[j]);
            }
            lemma_key_pos_unique(es2, k, i);
        },
        None => {
            if e.0@ == k {
                assert forall|j: int| 0 <= j < es.len() implies es2[j].0@ != k by {
                    assert(es2[j] == es[j]);
                }
                lemma_key_pos_unique(es2, k, es.len() as int);
            } else {
                assert forall|j: int| 0 <= j < es2.len() implies es2[j].0@ != k by {
                    if j < es.len() {
                        assert(es2[j] == es[j]);
                    }
                }
                lemma_key_pos_absent(es2, k);
            }
        },
    }
}

proof fn lemma_value_under_first(src: Seq<(String, BorrowedValue)>, k: Seq<char>)
    requires
        src.len() > 0,
    ensures
        value_under(src, k) == if src[0].0@ == k {
            Some(src[0].1)
        } else {
            value_under(src.drop_first(), k)
        },
{
    let rest = src.drop_first();
    if src[0].0@ != k {
        match key_pos(rest, k) {
            Some(i) => {
                lemma_key_pos(rest, k);
                assert(src[i + 1] == rest[i]);
            },
            None => {},
        }
    }
}

/// Law: merging the entries `src` into `es` keeps every key already
/// there with its value, and gives each missing key the value of its
/// first entry in `src` (the first source of a key wins).
pub proof fn lemma_absorbed_values(es: Seq<(String, BorrowedValue)>, src: Seq<(String, BorrowedValue)>, k: Seq<char>)
    ensures
        value_under(absorbed(es, src), k) == match value_under(es, k) {
            Some(v) => Some(v),
            None => value_under(src, k),
        },
    decreases src.len(),
{
    if src.len() > 0 {
        let rest = src.drop_first();
        let es2 = if key_pos(es, src[0].0@) is None {
            es.push(src[0])
        } else {
            es
        };
        lemma_absorbed_values(es2, rest, k);
        lemma_value_under_first(src, k);
        lemma_value_under_push(es, src[0], k);
        if key_pos(es, src[0].0@) is Some && src[0].0@ == k {
            assert(value_under(es, k) is Some);
        }
    } else {
        assert(key_pos(src, k) is None);
    }
}

/// Law: merging a sequence of mappings succeeds exactly when every item
/// is a mapping, and then keeps every key already there with its value
/// and gives each missing key its value in the earliest mapping of the
/// sequence that has it.
pub proof fn lemma_absorbed_all_values(es: Seq<(String, BorrowedValue)>, items: Seq<BorrowedValue>, k: Seq<char>)
    ensures
        absorbed_all(es, items) is Some <==> forall|i: int| 0 <= i < items.len() ==> #[trigger] items[i] is Mapping,
        absorbed_all(es, items) matches Some(out) ==> value_under(out, k) == match value_under(es, k) {
            Some(v) => Some(v),
            None => earliest_holder(items, k),
        },
    decreases items.len(),
{
    if items.len() > 0 {
        let rest = items.drop_first();
        assert forall|i: int| 0 <= i < rest.len() implies rest[i] == items[i + 1] by {}
        match items[0] {
            BorrowedValue::Mapping(m) => {
                let es2 = absorbed(es, m.spec_entries());
                lemma_absorbed_all_values(es2, rest, k);
                lemma_absorbed_values(es, m.spec_entries(), k);
                if forall|i: int| 0 <= i < rest.len() ==> #[trigger] rest[i] is Mapping {
                    assert forall|i: int| 0 <= i < items.len() implies #[trigger] items[i] is Mapping by {
                        if i > 0 {
                            assert(items[i] == rest[i - 1]);
                        }
                    }
                } else {
                    let j = choose|j: int| 0 <= j < rest.len() && !(#[trigger] rest[j] is Mapping);
                    assert(!(items[j + 1] is Mapping));
                }
            },
            _ => {
                assert(!(items[0] is Mapping));
            },
        }
    }
}

/// The entries of a mapping once the values of its `<<` keys are merged
/// in, in order: a mapping, or a sequence of mappings; `None` where a
/// merge value is anything else.
pub open spec fn merged(es: Seq<(String, BorrowedValue)>, merges: Seq<BorrowedValue>) -> Option<
    Seq<(String, BorrowedValue)>,
>
    decreases merges.len(),
{
    if merges.len() == 0 {
        Some(es)
    } else {
        match merges[0] {
            BorrowedValue::Mapping(m) => merged(absorbed(es, m.spec_entries()), merges.drop_first()),
            BorrowedValue::Sequence(items) => match absorbed_all(es, items@) {
                Some(e2) => merged(e2, merges.drop_first()),
                None => None,
            },
            _ => None,
        }
    }
}

/// The value under the key `k` that the `<<` values `merges` offer, the
/// earliest first: a mapping offers its own value, a sequence that of
/// the earliest mapping in it holding the key.
pub open spec fn merge_holder(merges: Seq<BorrowedValue>, k: Seq<char>) -> Option<BorrowedValue>
    decreases merges.len(),
{
    if merges.len() == 0 {
        None
    } else {
        let here = match merges[0] {
            BorrowedValue::Mapping(m) => value_under(m.spec_entries(), k),
            BorrowedValue::Sequence(items) => earliest_holder(items@, k),
            _ => None,
        };
        match here {
            Some(v) => Some(v),
            None => merge_holder(merges.drop_first(), k),
        }
    }
}

/// Law: once the `<<` values of a mapping are merged in, a key the
/// mapping holds keeps its own value, and a key it lacks takes the value
/// that the earliest merge value holding it offers.
pub proof fn lemma_merged_values(es: Seq<(String, BorrowedValue)>, merges: Seq<BorrowedValue>, k: Seq<char>)
    ensures
        merged(es, merges) matches Some(out) ==> value_under(out, k) == match value_under(es, k) {
            Some(v) => Some(v),
            None => merge_holder(merges, k),
        },
    decreases merges.len(),
{
    if merges.len() > 0 {
        match merges[0] {
            BorrowedValue::Mapping(m) => {
                lemma_absorbed_values(es, m.spec_entries(), k);
                lemma_merged_values(absorbed(es, m.spec_entries()), merges.drop_first(), k);
            },
            BorrowedValue::Sequence(items) => {
                lemma_absorbed_all_values(es, items@, k);
                if let Some(e2) = absorbed_all(es, items@) {
                    lemma_merged_values(e2, merges.drop_first(), k);
                }
            },
            _ => {},
        }
    }
}

/// Add the entries of `src` whose key `map` lacks.
fn absorb(map: &mut BorrowedMapping, src: BorrowedMapping)
    ensures
        final(map).spec_entries() == absorbed(old(map).spec_entries(), src.spec_entries()),
{
    let mut es = src.into_entries();
    let ghost target = absorbed(map.spec_entries(), es@);
    while es.len() > 0
        invariant
            absorbed(map.spec_entries(), es@) == target,
        decreases es@.len(),
    {
        let ghost before = es@;
        let (k, v) = es.remove(0);
        proof {
            assert(es@ =~= before.drop_first());
        }
        if map.position(k.as_str()).is_none() {
            let _ = map.insert(k, v);
        }
    }
}

/// Add the entries of each mapping of `items`; false where an item is
/// not a mapping.
fn absorb_all(map: &mut BorrowedMapping, items: Vec<BorrowedValue>) -> (ok: bool)
    ensures
        ok ==> absorbed_all(old(map).spec_entries(), items@) == Some(final(map).spec_entries()),
        !ok ==> absorbed_all(old(map).spec_entries(), items@) is None,
{
    let ghost orig = items@;
    let mut rest = items;
    let ghost target = absorbed_all(map.spec_entries(), rest@);
    while rest.len() > 0
        invariant
            absorbed_all(map.spec_entries(), rest@) == target,
            target == absorbed_all(old(map).spec_entries(), orig),
            orig == items@,
        decreases rest@.len(),
    {
        let ghost before = rest@;
        let item = rest.remove(0);
        proof {
            assert(rest@ =~= before.drop_first());
        }
        match item {
            BorrowedValue::Mapping(m) => absorb(map, m),
            _ => {
                assert(absorbed_all(map.spec_entries(), before) is None);
                return false;
            },
        }
    }
    true
}

/// Merge the values of the `<<` keys into `map` (see [`merged`]); false
/// where one cannot be merged.
fn merge_into(map: &mut BorrowedMapping, merges: Vec<BorrowedValue>) -> (ok: bool)
    ensures
        ok ==> merged(old(map).spec_entries(), merges@) == Some(final(map).spec_entries()),
        !ok ==> merged(old(map).spec_entries(), merges@) is None,
{
    let ghost orig = merges@;
    let mut rest = merges;
    let ghost target = merged(map.spec_entries(), rest@);
    while rest.len() > 0
        invariant
            merged(map.spec_entries(), rest@) == target,
            target == merged(old(map).spec_entries(), orig),
            orig == merges@,
        decreases rest@.len(),
    {
        let ghost before = rest@;
        let item = rest.remove(0);
        proof {
            assert(rest@ =~= before.drop_first());
        }
        match item {
            BorrowedValue::Mapping(m) => absorb(map, m),
            BorrowedValue::Sequence(items) => {
                let ghost es = map.spec_entries();
                let ghost iv = items@;
                if !absorb_all(map, items) {
                    assert(merged(es, before) is None);
                    return false;
                }
            },
            _ => {
                assert(merged(map.spec_entries(), before) is None);
                return false;
            },
        }
    }
    true
}

// ── The loader ───────────────────────────────────────────────────────

/// Builds the documents of a stream from its events. The collections
/// still open form a stack; anchors name copies of the values they
/// decorate, for the aliases after them in the same document.
pub struct Loader {
    docs: Vec<(BorrowedValue, NodeSpans)>,
    stack: Vec<LoadFrame>,
    anchors: BorrowedMapping,
    alias_count: usize,
    alias_bytes: usize,
    depth: usize,
    in_document: bool,
    max_depth: usize,
    max_document_length: usize,
    max_alias_expansions: usize,
    max_mapping_keys: usize,
    max_sequence_length: usize,
    policy: DuplicateKeyPolicy,
    strict_booleans: bool,
    legacy_booleans: bool,
}

/// The message for a sequence over its limit.
pub open spec fn sequence_limit_message(max: usize) -> Seq<char> {
    "sequence exceeds maximum length of "@ + decimal(max as nat) + " elements"@
}

/// The message for a mapping over its limit.
pub open spec fn mapping_limit_message(max: usize) -> Seq<char> {
    "mapping exceeds maximum of "@ + decimal(max as nat) + " keys"@
}

/// A step's result without its state: success, or the error.
pub open spec fn unit_of(r: Result<BuilderState, Error>) -> Result<(), Error> {
    match r {
        Ok(_) => Ok(()),
        Err(e) => Err(e),
    }
}

impl Loader {
    /// The documents finished so far, each value with its ranges.
    pub closed spec fn spec_docs(&self) -> Seq<(BorrowedValue, NodeSpans)> {
        self.docs@
    }

    /// The open collections, innermost last.
    pub closed spec fn spec_stack(&self) -> Seq<LoadFrame> {
        self.stack@
    }

    /// The anchors of the current document and the copies they name.
    pub closed spec fn spec_anchors(&self) -> Seq<(String, BorrowedValue)> {
        self.anchors.spec_entries()
    }

    /// Aliases expanded in the current document.
    pub closed spec fn spec_alias_count(&self) -> usize {
        self.alias_count
    }

    /// Bytes copied by those expansions (see [`value_size`]).
    pub closed spec fn spec_alias_bytes(&self) -> usize {
        self.alias_bytes
    }

    /// Collections open.
    pub closed spec fn spec_depth(&self) -> usize {
        self.depth
    }

    /// Inside a document.
    pub closed spec fn spec_in_document(&self) -> bool {
        self.in_document
    }

    /// The loader applies the limits and policies of `c`.
    pub closed spec fn follows(&self, c: ParserConfig) -> bool {
        &&& self.max_depth == c.max_depth
        &&& self.max_document_length == c.max_document_length
        &&& self.max_alias_expansions == c.max_alias_expansions
        &&& self.max_mapping_keys == c.max_mapping_keys
        &&& self.max_sequence_length == c.max_sequence_length
        &&& self.policy == c.duplicate_key_policy
        &&& self.strict_booleans == c.strict_booleans
        &&& self.legacy_booleans == c.legacy_booleans
    }

    closed spec fn same_settings(a: Loader, b: Loader) -> bool {
        &&& b.max_depth == a.max_depth
        &&& b.max_document_length == a.max_document_length
        &&& b.max_alias_expansions == a.max_alias_expansions
        &&& b.max_mapping_keys == a.max_mapping_keys
        &&& b.max_sequence_length == a.max_sequence_length
        &&& b.policy == a.policy
        &&& b.strict_booleans == a.strict_booleans
        &&& b.legacy_booleans == a.legacy_booleans
    }

    /// A loader with nothing read, under the limits of `config`.
    pub fn new(config: &ParserConfig) -> (l: Self)
        ensures
            l.follows(*config),
            l.spec_docs().len() == 0,
            l.spec_stack().len() == 0,
            l.spec_anchors().len() == 0,
            l.spec_alias_count() == 0,
            l.spec_alias_bytes() == 0,
            l.spec_depth() == 0,
            !l.spec_in_document(),
    {
        Loader {
            docs: Vec::new(),
            stack: Vec::new(),
            anchors: BorrowedMapping::new(),
            alias_count: 0,
            alias_bytes: 0,
            depth: 0,
            in_document: false,
            max_depth: config.max_depth,
            max_document_length: config.max_document_length,
            max_alias_expansions: config.max_alias_expansions,
            max_mapping_keys: config.max_mapping_keys,
            max_sequence_length: config.max_sequence_length,
            policy: config.duplicate_key_policy,
            strict_booleans: config.strict_booleans,
            legacy_booleans: config.legacy_booleans,
        }
    }

    /// The finished documents.
    pub fn into_docs(self) -> (d: Vec<(BorrowedValue, NodeSpans)>)
        ensures
            d@ == self.spec_docs(),
    {
        self.docs
    }

    /// The node `v` (ranges `t`) is complete, with `stack` open and
    /// `docs` finished: an anchor names a copy of it (a later anchor of
    /// the same name takes the name over), and it goes where it belongs.
    pub closed spec fn finished_with(
        stack: Seq<LoadFrame>,
        docs: Seq<(BorrowedValue, NodeSpans)>,
        anchors: Seq<(String, BorrowedValue)>,
        v: BorrowedValue,
        t: NodeSpans,
        anchor: Option<String>,
        p: DuplicateKeyPolicy,
        new: Loader,
        r: Result<(), Error>,
    ) -> bool {
        &&& node_added(stack, docs, v, t, p, new.stack@, new.docs@, r)
        &&& match anchor {
            None => new.anchors.spec_entries() == anchors,
            Some(name) => exists|u: BorrowedValue|
                same_value(v, u) && new.anchors.spec_entries() == inserted(anchors, name, u),
        }
    }

    /// What the event `ev` (of the input `input`) does to the loader
    /// `old`, giving `new` and `r`:
    /// - the stream's start and end change nothing (the end finishes);
    /// - a document's start forgets the anchors and alias counts;
    /// - a scalar (see [`load_scalar`]) and a collection's end complete
    ///   a node (see [`Self::finished_with`]); a sequence longer than
    ///   `max_sequence_length`, or a mapping with more keys than
    ///   `max_mapping_keys` once its `<<` values are merged (see
    ///   [`merged`]), is refused, as is an end that closes nothing of
    ///   its kind;
    /// - an alias completes a copy of the value its anchor names, after
    ///   counting one more expansion and its copied bytes: more than
    ///   `max_alias_expansions` expansions, or more bytes than
    ///   `max_document_length`, are refused, and so is an unknown anchor;
    /// - a collection's start opens one, refused deeper than `max_depth`.
    pub closed spec fn load_step(
        old: Loader,
        ev: Event,
        input: Seq<u8>,
        new: Loader,
        r: Result<BuilderState, Error>,
    ) -> bool {
        let st = old.stack@;
        let n = st.len();
        let p = old.policy;
        let cont = Ok::<BuilderState, Error>(BuilderState::Continue);
        let up = if old.depth < usize::MAX {
            (old.depth + 1) as usize
        } else {
            usize::MAX
        };
        let down = if old.depth > 0 {
            (old.depth - 1) as usize
        } else {
            0
        };
        &&& Self::same_settings(old, new)
        &&& match ev {
            Event::StreamStart => r == cont && new == old,
            Event::StreamEnd => r == Ok::<BuilderState, Error>(BuilderState::Done) && new == old,
            Event::DocumentStart => {
                &&& r == cont
                &&& new.in_document
                &&& new.anchors.spec_entries().len() == 0
                &&& new.alias_count == 0
                &&& new.alias_bytes == 0
                &&& new.stack == old.stack
                &&& new.docs == old.docs
                &&& new.depth == old.depth
            },
            Event::DocumentEnd => {
                &&& r == cont
                &&& !new.in_document
                &&& new.anchors == old.anchors
                &&& new.alias_count == old.alias_count
                &&& new.alias_bytes == old.alias_bytes
                &&& new.stack == old.stack
                &&& new.docs == old.docs
                &&& new.depth == old.depth
            },
            Event::Scalar { value, style, anchor, tag, span } => {
                &&& new.alias_count == old.alias_count
                &&& new.alias_bytes == old.alias_bytes
                &&& new.depth == old.depth
                &&& new.in_document == old.in_document
                &&& r is Ok ==> r == cont
                &&& Self::finished_with(
                    st,
                    old.docs@,
                    old.anchors.spec_entries(),
                    load_scalar(value, style, tag, old.strict_booleans, old.legacy_booleans),
                    NodeSpans::Leaf(span.start, span.end),
                    anchor,
                    p,
                    new,
                    unit_of(r),
                )
            },
            Event::Alias { anchor: name, span } => {
                let c = if old.alias_count < usize::MAX {
                    (old.alias_count + 1) as usize
                } else {
                    usize::MAX
                };
                &&& new.depth == old.depth
                &&& new.in_document == old.in_document
                &&& if c > old.max_alias_expansions {
                    r == Err::<BuilderState, Error>(Error::RepetitionLimitExceeded)
                } else {
                    match key_pos(old.anchors.spec_entries(), name@) {
                        None => r matches Err(Error::ParseWithLocation { message, location })
                            && message@ == "unknown anchor '"@ + name@ + "'"@ && location
                            == spec_location_of(input, span.start),
                        Some(i) => {
                            let a = old.anchors.spec_entries()[i].1;
                            let b = capped((old.alias_bytes + value_size(a)) as nat);
                            if b > old.max_document_length {
                                r == Err::<BuilderState, Error>(Error::RepetitionLimitExceeded)
                            } else {
                                &&& new.alias_count == c
                                &&& new.alias_bytes == b
                                &&& new.anchors == old.anchors
                                &&& r is Ok ==> r == cont
                                &&& exists|u: BorrowedValue|
                                    same_value(a, u) && node_added(
                                        st,
                                        old.docs@,
                                        u,
                                        NodeSpans::Leaf(span.start, span.end),
                                        p,
                                        new.stack@,
                                        new.docs@,
                                        unit_of(r),
                                    )
                            }
                        },
                    }
                }
            },
            Event::SequenceStart { anchor, span, .. } | Event::MappingStart { anchor, span, .. } => {
                &&& new.depth == up
                &&& if up > old.max_depth {
                    r matches Err(Error::RecursionLimitExceeded { depth }) && depth == up
                } else {
                    &&& r == cont
                    &&& new.docs == old.docs
                    &&& new.anchors == old.anchors
                    &&& new.alias_count == old.alias_count
                    &&& new.alias_bytes == old.alias_bytes
                    &&& new.in_document == old.in_document
                    &&& new.stack@.len() == n + 1
                    &&& new.stack@.drop_last() == st
                    &&& if ev is SequenceStart {
                        new.stack@.last() matches LoadFrame::Sequence { items, spans, anchor: a, start }
                            && items@.len() == 0 && spans@.len() == 0 && a == anchor && start
                            == span.start
                    } else {
                        new.stack@.last() matches LoadFrame::MappingKey {
                            map,
                            spans,
                            anchor: a,
                            merges,
                            start,
                        } && map.spec_entries().len() == 0 && spans@.len() == 0 && merges@.len() == 0
                            && a == anchor && start == span.start
                    }
                }
            },
            Event::SequenceEnd { span } => {
                &&& new.depth == down
                &&& if n > 0 && st.last() is Sequence {
                    match st.last() {
                        LoadFrame::Sequence { items, spans, anchor, start } => if items@.len()
                            > old.max_sequence_length {
                            r matches Err(Error::Parse(m)) && m@ == sequence_limit_message(
                                old.max_sequence_length,
                            )
                        } else {
                            &&& new.alias_count == old.alias_count
                            &&& new.alias_bytes == old.alias_bytes
                            &&& new.in_document == old.in_document
                            &&& r is Ok ==> r == cont
                            &&& Self::finished_with(
                                st.drop_last(),
                                old.docs@,
                                old.anchors.spec_entries(),
                                BorrowedValue::Sequence(items),
                                NodeSpans::Sequence { start, end: span.end, items: spans },
                                anchor,
                                p,
                                new,
                                unit_of(r),
                            )
                        },
                        _ => false,
                    }
                } else {
                    r matches Err(Error::Parse(m)) && m@ == "unexpected sequence end"@
                }
            },
            Event::MappingEnd { span } => {
                &&& new.depth == down
                &&& if n > 0 && st.last() is MappingKey {
                    match st.last() {
                        LoadFrame::MappingKey { map, spans, anchor, merges, start } => match merged(
                            map.spec_entries(),
                            merges@,
                        ) {
                            None => r == Err::<BuilderState, Error>(Error::ScalarInMergeElement),
                            Some(es) => if es.len() > old.max_mapping_keys {
                                r matches Err(Error::Parse(m)) && m@ == mapping_limit_message(
                                    old.max_mapping_keys,
                                )
                            } else {
                                &&& new.alias_count == old.alias_count
                                &&& new.alias_bytes == old.alias_bytes
                                &&& new.in_document == old.in_document
                                &&& r is Ok ==> r == cont
                                &&& exists|m2: BorrowedMapping|
                                    m2.spec_entries() == es && Self::finished_with(
                                        st.drop_last(),
                                        old.docs@,
                                        old.anchors.spec_entries(),
                                        BorrowedValue::Mapping(m2),
                                        NodeSpans::Mapping { start, end: span.end, entries: spans },
                                        anchor,
                                        p,
                                        new,
                                        unit_of(r),
                                    )
                            },
                        },
                        _ => false,
                    }
                } else if n > 0 && st.last() is MappingValue {
                    r matches Err(Error::Parse(m)) && m@
                        == "unexpected mapping end while expecting value"@
                } else {
                    r matches Err(Error::Parse(m)) && m@ == "unexpected mapping end"@
                }
            },
        }
    }

    /// Name a copy of the complete node `value` by its anchor, if it has
    /// one, and put it where it belongs.
    fn finish_node(&mut self, value: BorrowedValue, tree: NodeSpans, anchor: Option<String>) -> (r:
        Result<(), Error>)
        ensures
            Self::finished_with(
                old(self).stack@,
                old(self).docs@,
                old(self).anchors.spec_entries(),
                value,
                tree,
                anchor,
                old(self).policy,
                *final(self),
                r,
            ),
            Self::same_settings(*old(self), *final(self)),
            final(self).alias_count == old(self).alias_count,
            final(self).alias_bytes == old(self).alias_bytes,
            final(self).depth == old(self).depth,
            final(self).in_document == old(self).in_document,
    {
        match anchor {
            Some(name) => {
                let copy = value.duplicate();
                let _ = self.anchors.insert(name, copy);
            },
            None => {},
        }
        self.push_value(value, tree)
    }

    /// Take the event `event` of the input `input` (see [`Self::load_step`]).
    pub fn process_event(&mut self, event: Event, input: &str) -> (r: Result<BuilderState, Error>)
        requires
            input.spec_bytes().len() < usize::MAX,
        ensures
            Self::load_step(*old(self), event, input.spec_bytes(), *final(self), r),
    {
        match event {
            Event::StreamStart => Ok(BuilderState::Continue),
            Event::StreamEnd => Ok(BuilderState::Done),
            Event::DocumentStart => {
                self.in_document = true;
                self.anchors = BorrowedMapping::new();
                self.alias_count = 0;
                self.alias_bytes = 0;
                Ok(BuilderState::Continue)
            },
            Event::DocumentEnd => {
                self.in_document = false;
                Ok(BuilderState::Continue)
            },
            Event::Scalar { value, style, anchor, tag, span } => {
                let v = resolve_loaded_scalar(
                    value,
                    style,
                    &tag,
                    self.strict_booleans,
                    self.legacy_booleans,
                );
                match self.finish_node(v, NodeSpans::Leaf(span.start, span.end), anchor) {
                    Ok(()) => Ok(BuilderState::Continue),
                    Err(e) => Err(e),
                }
            },
            Event::Alias { anchor, span } => {
                self.alias_count = self.alias_count.saturating_add(1);
                if self.alias_count > self.max_alias_expansions {
                    return Err(Error::RepetitionLimitExceeded);
                }
                proof {
                    lemma_key_pos(self.anchors.spec_entries(), anchor@);
                }
                let (size, copy) = match self.anchors.get(anchor.as_str()) {
                    Some(v) => (v.estimated_size(), v.duplicate()),
                    None => {
                        let mut m = owned_string("unknown anchor '");
                        push_str(&mut m, anchor.as_str());
                        push_str(&mut m, "'");
                        return Err(Error::parse_at(m, input, span.start));
                    },
                };
                self.alias_bytes = self.alias_bytes.saturating_add(size);
                if self.alias_bytes > self.max_document_length {
                    return Err(Error::RepetitionLimitExceeded);
                }
                match self.push_value(copy, NodeSpans::Leaf(span.start, span.end)) {
                    Ok(()) => Ok(BuilderState::Continue),
                    Err(e) => Err(e),
                }
            },
            Event::SequenceStart { anchor, span, .. } => {
                self.depth = self.depth.saturating_add(1);
                if self.depth > self.max_depth {
                    return Err(Error::RecursionLimitExceeded { depth: self.depth });
                }
                let ghost st = self.stack@;
                self.stack.push(
                    LoadFrame::Sequence { items: Vec::new(), spans: Vec::new(), anchor, start: span.start },
                );
                proof {
                    assert(self.stack@.drop_last() =~= st);
                }
                Ok(BuilderState::Continue)
            },
            Event::MappingStart { anchor, span, .. } => {
                self.depth = self.depth.saturating_add(1);
                if self.depth > self.max_depth {
                    return Err(Error::RecursionLimitExceeded { depth: self.depth });
                }
                let ghost st = self.stack@;
                self.stack.push(
                    LoadFrame::MappingKey {
                        map: BorrowedMapping::new(),
                        spans: Vec::new(),
                        anchor,
                        merges: Vec::new(),
                        start: span.start,
                    },
                );
                proof {
                    assert(self.stack@.drop_last() =~= st);
                }
                Ok(BuilderState::Continue)
            },
            Event::SequenceEnd { span } => {
                self.depth = self.depth.saturating_sub(1);
                let ghost st = self.stack@;
                match self.stack.pop() {
                    Some(LoadFrame::Sequence { items, spans, anchor, start }) => {
                        proof {
                            assert(self.stack@ =~= st.drop_last());
                        }
                        if items.len() > self.max_sequence_length {
                            let mut m = owned_string("sequence exceeds maximum length of ");
                            push_decimal(&mut m, self.max_sequence_length);
                            push_str(&mut m, " elements");
                            return Err(Error::Parse(m));
                        }
                        let t = NodeSpans::Sequence { start, end: span.end, items: spans };
                        match self.finish_node(BorrowedValue::Sequence(items), t, anchor) {
                            Ok(()) => Ok(BuilderState::Continue),
                            Err(e) => Err(e),
                        }
                    },
                    _ => Err(Error::Parse(owned_string("unexpected sequence end"))),
                }
            },
            Event::MappingEnd { span } => {
                self.depth = self.depth.saturating_sub(1);
                let ghost st = self.stack@;
                match self.stack.pop() {
                    Some(LoadFrame::MappingKey { mut map, spans, anchor, merges, start }) => {
                        proof {
                            assert(self.stack@ =~= st.drop_last());
                        }
                        let ghost fm = map;
                        let ghost fg = merges@;
                        if !merge_into(&mut map, merges) {
                            return Err(Error::ScalarInMergeElement);
                        }
                        if map.len() > self.max_mapping_keys {
                            let mut m = owned_string("mapping exceeds maximum of ");
                            push_decimal(&mut m, self.max_mapping_keys);
                            push_str(&mut m, " keys");
                            return Err(Error::Parse(m));
                        }
                        let t = NodeSpans::Mapping { start, end: span.end, entries: spans };
                        let ghost m2 = map;
                        let ghost gt = t;
                        let ghost ga = anchor;
                        let ghost before = *self;
                        let res = self.finish_node(BorrowedValue::Mapping(map), t, anchor);
                        proof {
                            assert(Self::finished_with(
                                before.stack@,
                                before.docs@,
                                before.anchors.spec_entries(),
                                BorrowedValue::Mapping(m2),
                                gt,
                                ga,
                                before.policy,
                                *self,
                                res,
                            ));
                        }
                        let r = match res {
                            Ok(()) => Ok(BuilderState::Continue),
                            Err(e) => Err(e),
                        };
                        proof {
                            assert(merged(fm.spec_entries(), fg) == Some(m2.spec_entries()));
                            assert(Self::finished_with(
                                st.drop_last(),
                                before.docs@,
                                before.anchors.spec_entries(),
                                BorrowedValue::Mapping(m2),
                                gt,
                                ga,
                                before.policy,
                                *self,
                                unit_of(r),
                            ));
                        }
                        r
                    },
                    Some(LoadFrame::MappingValue { .. }) => Err(
                        Error::Parse(owned_string("unexpected mapping end while expecting value")),
                    ),
                    _ => Err(Error::Parse(owned_string("unexpected mapping end"))),
                }
            },
        }
    }

    /// Put the complete node `value` (ranges `tree`) where it belongs:
    /// into the innermost open collection, or as a finished document.
    fn push_value(&mut self, value: BorrowedValue, tree: NodeSpans) -> (r: Result<(), Error>)
        ensures
            node_added(
                old(self).stack@,
                old(self).docs@,
                value,
                tree,
                old(self).policy,
                final(self).stack@,
                final(self).docs@,
                r,
            ),
            Self::same_settings(*old(self), *final(self)),
            final(self).anchors == old(self).anchors,
            final(self).alias_count == old(self).alias_count,
            final(self).alias_bytes == old(self).alias_bytes,
            final(self).depth == old(self).depth,
            final(self).in_document == old(self).in_document,
    {
        let n = self.stack.len();
        if n == 0 {
            self.docs.push((value, tree));
            return Ok(());
        }
        let ghost st = self.stack@;
        let top = self.stack.pop().unwrap();
        proof {
            assert(self.stack@ =~= st.drop_last());
            assert(top == st.last());
        }
        match top {
            LoadFrame::Sequence { mut items, mut spans, anchor, start } => {
                items.push(value);
                spans.push(tree);
                self.stack.push(LoadFrame::Sequence { items, spans, anchor, start });
                proof {
                    assert(self.stack@.drop_last() =~= st.drop_last());
                }
                Ok(())
            },
            LoadFrame::MappingKey { map, spans, anchor, merges, start } => {
                let key_span = match &tree {
                    NodeSpans::Leaf(s, e) => (*s, *e),
                    NodeSpans::Sequence { start, end, .. } => (*start, *end),
                    NodeSpans::Mapping { start, end, .. } => (*start, *end),
                };
                let key = match key_text(value) {
                    Some(k) => k,
                    None => {
                        return Err(Error::Invalid(owned_string("non-scalar key in mapping")));
                    },
                };
                if !same_text(key.as_str(), "<<") && self.policy == DuplicateKeyPolicy::Error
                    && map.position(key.as_str()).is_some() {
                    return Err(Error::DuplicateKey(key));
                }
                self.stack.push(
                    LoadFrame::MappingValue { map, spans, key, key_span, anchor, merges, start },
                );
                proof {
                    assert(self.stack@.drop_last() =~= st.drop_last());
                }
                Ok(())
            },
            LoadFrame::MappingValue { mut map, mut spans, key, key_span, anchor, mut merges, start } => {
                if same_text(key.as_str(), "<<") {
                    merges.push(value);
                } else {
                    let ghost es = map.spec_entries();
                    let ghost sp = spans@;
                    let entry = EntrySpans { key: key.clone(), key_span, value: tree };
                    let found = map.position(key.as_str());
                    match found {
                        Some(i) => {
                            if self.policy != DuplicateKeyPolicy::First {
                                if i < spans.len() {
                                    spans.set(i, entry);
                                }
                                let _ = map.insert(key, value);
                            }
                        },
                        None => {
                            spans.push(entry);
                            let _ = map.insert(key, value);
                        },
                    }
                }
                self.stack.push(LoadFrame::MappingKey { map, spans, anchor, merges, start });
                proof {
                    assert(self.stack@.drop_last() =~= st.drop_last());
                }
                Ok(())
            },
        }
    }
}

// ── Loading a stream ─────────────────────────────────────────────────

/// A loader with nothing read, under the limits of `config`.
pub open spec fn loader_start(l: Loader, config: ParserConfig) -> bool {
    &&& l.follows(config)
    &&& l.spec_docs().len() == 0
    &&& l.spec_stack().len() == 0
    &&& l.spec_anchors().len() == 0
    &&& l.spec_alias_count() == 0
    &&& l.spec_alias_bytes() == 0
    &&& l.spec_depth() == 0
    &&& !l.spec_in_document()
}

/// `ls` are the loader's states as it takes the events `evs` of the
/// input `input`: every event but the last lets it go on, the last ends
/// the stream.
pub open spec fn loader_run(ls: Seq<Loader>, evs: Seq<Event>, input: Seq<u8>) -> bool {
    &&& ls.len() == evs.len() + 1
    &&& evs.len() > 0
    &&& forall|i: int|
        0 <= i < evs.len() - 1 ==> Loader::load_step(
            #[trigger] ls[i],
            evs[i],
            input,
            ls[i + 1],
            Ok::<BuilderState, Error>(BuilderState::Continue),
        )
    &&& Loader::load_step(
        ls[evs.len() - 1],
        evs[evs.len() - 1],
        input,
        ls[evs.len() as int],
        Ok::<BuilderState, Error>(BuilderState::Done),
    )
}

/// `docs` are the documents that the tokens `toks` of `input` load to:
/// the parser's run over them from the stream's start, fed to a loader
/// under `config`, through the stream's end.
pub open spec fn loaded_from_tokens(
    toks: Seq<Token>,
    end: ScanError,
    input: Seq<u8>,
    config: ParserConfig,
    docs: Seq<(BorrowedValue, NodeSpans)>,
) -> bool {
    exists|ps: Seq<Parser>, evs: Seq<Event>, ls: Seq<Loader>|
        {
            &&& parser_run(ps, evs)
            &&& parser_start(ps[0], toks, end)
            &&& loader_run(ls, evs, input)
            &&& loader_start(ls[0], config)
            &&& docs == ls[evs.len() as int].spec_docs()
        }
}

/// The loader refuses the tokens `toks` of `input` with `e`: the
/// parser's run over them from the stream's start gives events that a
/// loader under `config` takes in, until it refuses the last of them.
#[verifier::opaque]
pub open spec fn refused_from_tokens(
    toks: Seq<Token>,
    end: ScanError,
    input: Seq<u8>,
    config: ParserConfig,
    e: Error,
) -> bool {
    exists|ps: Seq<Parser>, evs: Seq<Event>, ls: Seq<Loader>, last: Loader|
        {
            &&& parser_run(ps, evs)
            &&& parser_start(ps[0], toks, end)
            &&& evs.len() > 0
            &&& ls.len() == evs.len()
            &&& loader_start(ls[0], config)
            &&& forall|i: int|
                0 <= i < evs.len() - 1 ==> Loader::load_step(
                    #[trigger] ls[i],
                    evs[i],
                    input,
                    ls[i + 1],
                    Ok::<BuilderState, Error>(BuilderState::Continue),
                )
            &&& Loader::load_step(ls.last(), evs.last(), input, last, Err::<BuilderState, Error>(e))
        }
}

/// A run that ends in a refusal witnesses [`refused_from_tokens`].
proof fn lemma_refused(
    ps: Seq<Parser>,
    evs: Seq<Event>,
    ls: Seq<Loader>,
    p_next: Parser,
    ev: Event,
    last: Loader,
    toks: Seq<Token>,
    end: ScanError,
    input: Seq<u8>,
    config: ParserConfig,
    e: Error,
)
    requires
        parser_run(ps, evs),
        parser_start(ps[0], toks, end),
        ls.len() == evs.len() + 1,
        loader_start(ls[0], config),
        forall|i: int|
            0 <= i < evs.len() ==> Loader::load_step(
                #[trigger] ls[i],
                evs[i],
                input,
                ls[i + 1],
                Ok::<BuilderState, Error>(BuilderState::Continue),
            ),
        Parser::event_step(ps.last(), ev, p_next),
        Loader::load_step(ls.last(), ev, input, last, Err::<BuilderState, Error>(e)),
    ensures
        refused_from_tokens(toks, end, input, config, e),
{
    reveal(refused_from_tokens);
    let ps2 = ps.push(p_next);
    let evs2 = evs.push(ev);
    assert forall|i: int| 0 <= i < evs2.len() implies Parser::event_step(#[trigger] ps2[i], evs2[i], ps2[i + 1]) by {
        if i < evs.len() {
            assert(ps2[i] == ps[i] && evs2[i] == evs[i] && ps2[i + 1] == ps[i + 1]);
        }
    }
    assert(parser_run(ps2, evs2));
    assert(ls.last() == ls[evs2.len() - 1]);
    assert(evs2.last() == ev);
    assert forall|i: int| 0 <= i < evs2.len() - 1 implies Loader::load_step(
        #[trigger] ls[i],
        evs2[i],
        input,
        ls[i + 1],
        Ok::<BuilderState, Error>(BuilderState::Continue),
    ) by {
        assert(evs2[i] == evs[i]);
    }
}

/// The documents of `input`, scanned into `tokens` (with `end`, what
/// the scanner reports past them), each value with the byte ranges of
/// its nodes, under the limits of `config`: an input longer than
/// `max_document_length` is refused, a scanning or parse error is
/// reported at its place, and the loader's refusals (see
/// [`Loader::load_step`]) stop the load.
pub fn load_tokens(input: &str, tokens: Vec<Token>, end: ScanError, config: &ParserConfig) -> (r:
    Result<Vec<(BorrowedValue, NodeSpans)>, Error>)
    requires
        input.spec_bytes().len() < usize::MAX,
    ensures
        r matches Err(Error::Parse(m)) && m@ == too_long_message(config.max_document_length)
            <== input.spec_bytes().len() > config.max_document_length,
        r is Ok ==> input.spec_bytes().len() <= config.max_document_length,
        r matches Ok(docs) ==> loaded_from_tokens(tokens@, end, input.spec_bytes(), *config, docs@),
        r matches Err(e) ==> (e is ParseWithLocation || input.spec_bytes().len() > config.max_document_length
            || refused_from_tokens(tokens@, end, input.spec_bytes(), *config, e)),
{
    if input.as_bytes().len() > config.max_document_length {
        let mut m = owned_string("document exceeds maximum length of ");
        push_decimal(&mut m, config.max_document_length);
        push_str(&mut m, " bytes");
        return Err(Error::Parse(m));
    }
    let ghost toks = tokens@;
    let ghost e0 = end;
    let mut parser = Parser::new(tokens, end);
    let mut loader = Loader::new(config);
    let ghost mut ps: Seq<Parser> = seq![parser];
    let ghost mut evs: Seq<Event> = Seq::empty();
    let ghost mut ls: Seq<Loader> = seq![loader];
    loop
        invariant_except_break
            forall|i: int|
                0 <= i < evs.len() ==> Loader::load_step(
                    #[trigger] ls[i],
                    evs[i],
                    input.spec_bytes(),
                    ls[i + 1],
                    Ok::<BuilderState, Error>(BuilderState::Continue),
                ),
        invariant
            parser.wf(),
            input.spec_bytes().len() < usize::MAX,
            input.spec_bytes().len() <= config.max_document_length,
            parser_run(ps, evs),
            parser_start(ps[0], toks, e0),
            toks == tokens@,
            e0 == end,
            ps.last() == parser,
            ls.len() == evs.len() + 1,
            loader_start(ls[0], *config),
            ls.last() == loader,
        ensures
            parser_run(ps, evs),
            parser_start(ps[0], toks, e0),
            loader_run(ls, evs, input.spec_bytes()),
            loader_start(ls[0], *config),
            ls.last() == loader,
        decreases parser.remaining(), parser.potential(),
    {
        let ghost p_before = parser;
        let event = match parser.next_event() {
            Ok(ev) => ev,
            Err(e) => {
                return Err(Error::parse_at(e.message, input, e.index));
            },
        };
        let ghost ev = event;
        let ghost p_after = parser;
        match loader.process_event(event, input) {
            Ok(BuilderState::Continue) => {
                proof {
                    ps = ps.push(p_after);
                    evs = evs.push(ev);
                    ls = ls.push(loader);
                }
            },
            Ok(BuilderState::Done) => {
                proof {
                    ps = ps.push(p_after);
                    evs = evs.push(ev);
                    ls = ls.push(loader);
                }
                break ;
            },
            Err(e) => {
                proof {
                    assert(Parser::event_step(ps.last(), ev, p_after));
                    assert(Loader::load_step(ls.last(), ev, input.spec_bytes(), loader, Err::<BuilderState, Error>(e)));
                    lemma_refused(ps, evs, ls, p_after, ev, loader, toks, e0, input.spec_bytes(), *config, e);
                }
                return Err(e);
            },
        }
    }
    Ok(loader.into_docs())
}

/// The documents of `input` (see [`load_tokens`]).
pub fn load_all(input: &str, config: &ParserConfig) -> (r: Result<Vec<(BorrowedValue, NodeSpans)>, Error>)
    requires
        input.spec_bytes().len() <= isize::MAX,
    ensures
        r matches Err(Error::Parse(m)) && m@ == too_long_message(config.max_document_length)
            <== input.spec_bytes().len() > config.max_document_length,
        r matches Ok(docs) ==> exists|toks: Seq<Token>, end: ScanError|
            scanned(input.spec_bytes(), toks, end) && loaded_from_tokens(
                toks,
                end,
                input.spec_bytes(),
                *config,
                docs@,
            ),
        r matches Err(e) ==> (e is ParseWithLocation || input.spec_bytes().len() > config.max_document_length
            || exists|toks: Seq<Token>, end: ScanError|
            scanned(input.spec_bytes(), toks, end) && refused_from_tokens(
                toks,
                end,
                input.spec_bytes(),
                *config,
                e,
            )),
{
    if input.as_bytes().len() > config.max_document_length {
        let mut m = owned_string("document exceeds maximum length of ");
        push_decimal(&mut m, config.max_document_length);
        push_str(&mut m, " bytes");
        return Err(Error::Parse(m));
    }
    let (tokens, end) = tokenize(input);
    let ghost toks = tokens@;
    let ghost e0 = end;
    proof {
        assert(scanned(input.spec_bytes(), toks, e0));
    }
    load_tokens(input, tokens, end, config)
}

/// The first document of `input` with the ranges of its nodes; an
/// empty or comment-only input is null at the empty range `0..0`.
pub fn load(input: &str, config: &ParserConfig) -> (r: Result<(BorrowedValue, NodeSpans), Error>)
    requires
        input.spec_bytes().len() <= isize::MAX,
    ensures
        r matches Err(Error::Parse(m)) && m@ == too_long_message(config.max_document_length)
            <== input.spec_bytes().len() > config.max_document_length,
        r matches Ok(d) ==> exists|toks: Seq<Token>, end: ScanError, docs: Seq<(BorrowedValue, NodeSpans)>|
            scanned(input.spec_bytes(), toks, end) && loaded_from_tokens(
                toks,
                end,
                input.spec_bytes(),
                *config,
                docs,
            ) && if docs.len() == 0 {
                d.0 == BorrowedValue::Null && d.1 == NodeSpans::Leaf(0, 0)
            } else {
                d == docs[0]
            },
        r matches Err(e) ==> (e is ParseWithLocation || input.spec_bytes().len() > config.max_document_length
            || exists|toks: Seq<Token>, end: ScanError|
            scanned(input.spec_bytes(), toks, end) && refused_from_tokens(
                toks,
                end,
                input.spec_bytes(),
                *config,
                e,
            )),
{
    let docs = load_all(input, config)?;
    let ghost all = docs@;
    let mut docs = docs;
    if docs.len() == 0 {
        return Ok((BorrowedValue::Null, NodeSpans::Leaf(0, 0)));
    }
    let first = docs.remove(0);
    assert(first == all[0]);
    Ok(first)
}

/// The value of the first document of `input`, without its ranges (see
/// [`load`]).
pub fn load_value(input: &str, config: &ParserConfig) -> (r: Result<BorrowedValue, Error>)
    requires
        input.spec_bytes().len() <= isize::MAX,
    ensures
        r matches Err(Error::Parse(m)) && m@ == too_long_message(config.max_document_length)
            <== input.spec_bytes().len() > config.max_document_length,
        r matches Ok(v) ==> exists|toks: Seq<Token>, end: ScanError, docs: Seq<(BorrowedValue, NodeSpans)>|
            scanned(input.spec_bytes(), toks, end) && loaded_from_tokens(
                toks,
                end,
                input.spec_bytes(),
                *config,
                docs,
            ) && if docs.len() == 0 {
                v == BorrowedValue::Null
            } else {
                v == docs[0].0
            },
{
    match load(input, config) {
        Ok((v, _)) => Ok(v),
        Err(e) => Err(e),
    }
}

} // verus!
