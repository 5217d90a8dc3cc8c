//! Error types: source locations, the library's error enum, and the
//! "did you mean" suggestion used by alias diagnostics.
use vstd::prelude::*;
use vstd::string::StringSliceAdditionalSpecFns;

use std::sync::Arc;

use crate::text::{decimal, owned_string, push_char, push_decimal, push_spaces, push_str, spaces};

verus! {

// ── Edit distance and name suggestions ─────────────────────────────

/// The smallest of three numbers.
pub open spec fn min3(x: nat, y: nat, z: nat) -> nat {
    if x <= y && x <= z {
        x
    } else if y <= z {
        y
    } else {
        z
    }
}

/// Levenshtein distance between two byte strings: the least number
/// of single-byte insertions, deletions and substitutions turning
/// `a` into `b`.
pub open spec fn edit_distance(a: Seq<u8>, b: Seq<u8>) -> nat
    decreases a.len() + b.len(),
{
    if a.len() == 0 {
        b.len()
    } else if b.len() == 0 {
        a.len()
    } else {
        min3(
            edit_distance(a.drop_last(), b) + 1,
            edit_distance(a, b.drop_last()) + 1,
            edit_distance(a.drop_last(), b.drop_last()) + if a.last() == b.last() {
                0nat
            } else {
                1nat
            },
        )
    }
}

/// Law: edit distance does not depend on the order of its arguments.
pub proof fn lemma_edit_distance_symmetric(a: Seq<u8>, b: Seq<u8>)
    ensures
        edit_distance(a, b) == edit_distance(b, a),
    decreases a.len() + b.len(),
{
    if a.len() > 0 && b.len() > 0 {
        lemma_edit_distance_symmetric(a.drop_last(), b);
        lemma_edit_distance_symmetric(a, b.drop_last());
        lemma_edit_distance_symmetric(a.drop_last(), b.drop_last());
    }
}

/// Edit distance never exceeds the longer length.
pub proof fn lemma_edit_distance_bound(a: Seq<u8>, b: Seq<u8>)
    ensures
        edit_distance(a, b) <= if a.len() >= b.len() {
            a.len()
        } else {
            b.len()
        },
    decreases a.len() + b.len(),
{
    if a.len() > 0 && b.len() > 0 {
        lemma_edit_distance_bound(a.drop_last(), b.drop_last());
    }
}

/// Classic Levenshtein distance over the bytes of `a` and `b`, computed
/// row by row in `O(min(m, n))` space.
fn levenshtein(a: &str, b: &str) -> (d: usize)
    requires
        a.spec_bytes().len() < usize::MAX,
        b.spec_bytes().len() < usize::MAX,
    ensures
        d == edit_distance(a.spec_bytes(), b.spec_bytes()),
{
    let (a, b) = if a.len() < b.len() {
        (b, a)
    } else {
        (a, b)
    };
    proof {
        lemma_edit_distance_symmetric(a.spec_bytes(), b.spec_bytes());
    }
    let a_bytes = a.as_bytes();
    let b_bytes = b.as_bytes();
    let ghost sa = a_bytes@;
    let ghost sb = b_bytes@;
    let m = a_bytes.len();
    let n = b_bytes.len();
    if n == 0 {
        return m;
    }
    let mut prev: Vec<usize> = Vec::new();
    let mut j: usize = 0;
    while j <= n
        invariant
            n == sb.len(),
            n < usize::MAX,
            0 <= j <= n + 1,
            prev@.len() == j,
            forall|k: int| 0 <= k < j ==> #[trigger] prev@[k] == k,
        decreases n + 1 - j,
    {
        prev.push(j);
        j += 1;
    }
    proof {
        assert forall|k: int| 0 <= k <= n implies #[trigger] prev@[k] == edit_distance(
            sa.take(0),
            sb.take(k),
        ) by {
            assert(sa.take(0).len() == 0);
        }
    }
    let mut curr: Vec<usize> = Vec::new();
    let mut j: usize = 0;
    while j <= n
        invariant
            n < usize::MAX,
            0 <= j <= n + 1,
            curr@.len() == j,
        decreases n + 1 - j,
    {
        curr.push(0);
        j += 1;
    }
    let mut i: usize = 0;
    while i < m
        invariant
            a_bytes@ == sa,
            b_bytes@ == sb,
            m == sa.len(),
            n == sb.len(),
            0 < n <= m,
            m < usize::MAX,
            0 <= i <= m,
            prev@.len() == n + 1,
            curr@.len() == n + 1,
            forall|k: int| 0 <= k <= n ==> #[trigger] prev@[k] == edit_distance(sa.take(i as int), sb.take(k)),
        decreases m - i,
    {
        let ac = a_bytes[i];
        curr.set(0, i + 1);
        proof {
            assert(sb.take(0).len() == 0);
        }
        let mut j: usize = 0;
        while j < n
            invariant
                a_bytes@ == sa,
                b_bytes@ == sb,
                m == sa.len(),
                n == sb.len(),
                0 < n <= m,
                m < usize::MAX,
                0 <= i < m,
                ac == sa[i as int],
                0 <= j <= n,
                prev@.len() == n + 1,
                curr@.len() == n + 1,
                forall|k: int| 0 <= k <= n ==> #[trigger] prev@[k] == edit_distance(sa.take(i as int), sb.take(k)),
                forall|k: int| 0 <= k <= j ==> #[trigger] curr@[k] == edit_distance(sa.take(i + 1), sb.take(k)),
            decreases n - j,
        {
            let bc = b_bytes[j];
            let cost: usize = if ac != bc {
                1
            } else {
                0
            };
            proof {
                lemma_edit_distance_bound(sa.take(i + 1), sb.take(j as int));
                lemma_edit_distance_bound(sa.take(i as int), sb.take(j + 1));
                lemma_edit_distance_bound(sa.take(i as int), sb.take(j as int));
            }
            let ins = curr[j] + 1;
            let del = prev[j + 1] + 1;
            let sub = prev[j] + cost;
            let mut best = ins;
            if del < best {
                best = del;
            }
            if sub < best {
                best = sub;
            }
            proof {
                let x = sa.take(i + 1);
                let y = sb.take(j + 1);
                assert(x.drop_last() =~= sa.take(i as int));
                assert(y.drop_last() =~= sb.take(j as int));
                assert(x.last() == ac);
                assert(y.last() == bc);
            }
            curr.set(j + 1, best);
            j += 1;
        }
        std::mem::swap(&mut prev, &mut curr);
        i += 1;
    }
    proof {
        assert(sa.take(m as int) =~= sa);
        assert(sb.take(n as int) =~= sb);
    }
    prev[n]
}

/// Largest distance a suggestion may be from `target`: 1 for names of
/// at most three bytes, 2 otherwise.
pub open spec fn suggestion_threshold(target: Seq<u8>) -> nat {
    if target.len() <= 3 {
        1
    } else {
        2
    }
}

/// `c` is close enough to `target` to be suggested.
pub open spec fn within_threshold(target: Seq<u8>, c: Seq<u8>) -> bool {
    let t = suggestion_threshold(target);
    &&& (if c.len() >= target.len() {
        c.len() - target.len()
    } else {
        target.len() - c.len()
    }) <= t
    &&& edit_distance(target, c) <= t
}

/// The closest candidate to `target` within a small, length-aware edit
/// distance, if any. Among equally close candidates the first one
/// wins. Used by alias diagnostics to suggest a likely typo fix.
pub fn closest_name<'a>(target: &str, candidates: &[&'a str]) -> (res: Option<&'a str>)
    requires
        target.spec_bytes().len() < usize::MAX,
        forall|k: int|
            0 <= k < candidates@.len() ==> (#[trigger] candidates@[k]).spec_bytes().len()
                < usize::MAX,
    ensures
        match res {
            None => forall|k: int|
                0 <= k < candidates@.len() ==> !within_threshold(
                    target.spec_bytes(),
                    (#[trigger] candidates@[k]).spec_bytes(),
                ),
            Some(c) => exists|j: int|
                #![trigger candidates@[j]]
                0 <= j < candidates@.len() && candidates@[j] == c && within_threshold(
                    target.spec_bytes(),
                    c.spec_bytes(),
                ) && (forall|k: int|
                    0 <= k < candidates@.len() && within_threshold(
                        target.spec_bytes(),
                        (#[trigger] candidates@[k]).spec_bytes(),
                    ) ==> edit_distance(target.spec_bytes(), c.spec_bytes()) <= edit_distance(
                        target.spec_bytes(),
                        candidates@[k].spec_bytes(),
                    ) && (k < j ==> edit_distance(target.spec_bytes(), c.spec_bytes())
                        < edit_distance(target.spec_bytes(), candidates@[k].spec_bytes()))),
        },
{
    let ghost t = target.spec_bytes();
    let lt = target.len();
    let max_dist: usize = if lt <= 3 {
        1
    } else {
        2
    };
    let mut best: Option<(usize, usize)> = None;
    let mut k: usize = 0;
    while k < candidates.len()
        invariant
            t == target.spec_bytes(),
            lt == t.len(),
            max_dist == suggestion_threshold(t),
            0 <= k <= candidates@.len(),
            forall|q: int|
                0 <= q < candidates@.len() ==> (#[trigger] candidates@[q]).spec_bytes().len()
                    < usize::MAX,
            t.len() < usize::MAX,
            match best {
                None => forall|q: int|
                    0 <= q < k ==> !within_threshold(t, (#[trigger] candidates@[q]).spec_bytes()),
                Some((bd, bj)) => {
                    &&& 0 <= bj < k
                    &&& bd == edit_distance(t, candidates@[bj as int].spec_bytes())
                    &&& within_threshold(t, candidates@[bj as int].spec_bytes())
                    &&& forall|q: int|
                        0 <= q < k && within_threshold(t, (#[trigger] candidates@[q]).spec_bytes())
                            ==> bd <= edit_distance(t, candidates@[q].spec_bytes()) && (q < bj ==> bd
                            < edit_distance(t, candidates@[q].spec_bytes()))
                },
            },
        decreases candidates@.len() - k,
    {
        let cand = candidates[k];
        let lc = cand.len();
        let diff = if lc >= lt {
            lc - lt
        } else {
            lt - lc
        };
        if diff <= max_dist {
            let d = levenshtein(target, cand);
            let better = match best {
                None => true,
                Some((bd, _)) => d < bd,
            };
            if d <= max_dist && better {
                best = Some((d, k));
            }
        }
        k += 1;
    }
    match best {
        None => None,
        Some((_, j)) => Some(candidates[j]),
    }
}

// ── Source locations ───────────────────────────────────────────────

/// Line (1-based) reached after reading the bytes `b`: one more than
/// the number of line feeds among them.
pub open spec fn line_after(b: Seq<u8>) -> nat
    decreases b.len(),
{
    if b.len() == 0 {
        1
    } else {
        line_after(b.drop_last()) + if b.last() == 0x0au8 {
            1nat
        } else {
            0nat
        }
    }
}

/// Column (1-based, in characters) reached after reading the bytes
/// `b`: one more than the number of characters after the last line
/// feed. A character is counted at its first byte; UTF-8 continuation
/// bytes (`0b10xx_xxxx`) do not start one.
pub open spec fn column_after(b: Seq<u8>) -> nat
    decreases b.len(),
{
    if b.len() == 0 {
        1
    } else if b.last() == 0x0au8 {
        1
    } else if 0x80u8 <= b.last() && b.last() < 0xc0u8 {
        column_after(b.drop_last())
    } else {
        column_after(b.drop_last()) + 1
    }
}

/// A location within a YAML document: 1-based line and column and the
/// byte index in the source.
#[derive(Debug, Clone, Copy, PartialEq, Eq, Hash, Structural)]
pub struct Location {
    line: usize,
    column: usize,
    index: usize,
}

impl Location {
    /// The line number (1-based).
    pub closed spec fn spec_line(&self) -> nat {
        self.line as nat
    }

    /// The column number (1-based).
    pub closed spec fn spec_column(&self) -> nat {
        self.column as nat
    }

    /// The byte index in the source.
    pub closed spec fn spec_index(&self) -> nat {
        self.index as nat
    }

    /// Creates a new location.
    pub fn new(line: usize, column: usize, index: usize) -> (r: Self)
        ensures
            r.spec_line() == line,
            r.spec_column() == column,
            r.spec_index() == index,
    {
        Location { line, column, index }
    }

    /// Returns the line number (1-based).
    pub fn line(&self) -> (r: usize)
        ensures
            r == self.spec_line(),
    {
        self.line
    }

    /// Returns the column number (1-based).
    pub fn column(&self) -> (r: usize)
        ensures
            r == self.spec_column(),
    {
        self.column
    }

    /// Returns the byte index in the source.
    pub fn index(&self) -> (r: usize)
        ensures
            r == self.spec_index(),
    {
        self.index
    }

    /// The location of byte `index` in `source`: every character that
    /// starts before `index` is read; a line feed starts a new line.
    pub fn from_index(source: &str, index: usize) -> (r: Self)
        requires
            source.spec_bytes().len() < usize::MAX,
        ensures
            ({
                let upto = if index <= source.spec_bytes().len() {
                    index as int
                } else {
                    source.spec_bytes().len() as int
                };
                &&& r.spec_line() == line_after(source.spec_bytes().take(upto))
                &&& r.spec_column() == column_after(source.spec_bytes().take(upto))
                &&& r.spec_index() == index
            }),
    {
        let bytes = source.as_bytes();
        let ghost b = bytes@;
        let n = bytes.len();
        let upto = if index <= n {
            index
        } else {
            n
        };
        let mut line: usize = 1;
        let mut column: usize = 1;
        let mut p: usize = 0;
        while p < upto
            invariant
                bytes@ == b,
                n == b.len(),
                n < usize::MAX,
                upto <= n,
                0 <= p <= upto,
                line == line_after(b.take(p as int)),
                column == column_after(b.take(p as int)),
                1 <= line <= p + 1,
                1 <= column <= p + 1,
            decreases upto - p,
        {
            let c = bytes[p];
            assert(b.take(p + 1).drop_last() =~= b.take(p as int));
            if c == 0x0au8 {
                line += 1;
                column = 1;
            } else if !(0x80u8 <= c && c < 0xc0u8) {
                column += 1;
            }
            p += 1;
        }
        Location { line, column, index }
    }

    /// `"line {line}, column {column}"`.
    pub fn to_string(&self) -> (s: String)
        ensures
            s@ == location_text(*self),
    {
        let mut s = String::new();
        push_str(&mut s, "line ");
        push_decimal(&mut s, self.line);
        push_str(&mut s, ", column ");
        push_decimal(&mut s, self.column);
        proof {
            assert(s@ =~= location_text(*self));
        }
        s
    }
}

/// The text of a location: `line {line}, column {column}`.
pub open spec fn location_text(l: Location) -> Seq<char> {
    "line "@ + decimal(l.spec_line()) + ", column "@ + decimal(l.spec_column())
}


impl Default for Location {
    /// Line, column and index all zero.
    fn default() -> (r: Self)
        ensures
            r.spec_line() == 0,
            r.spec_column() == 0,
            r.spec_index() == 0,
    {
        Location { line: 0, column: 0, index: 0 }
    }
}

// ── The error enum ─────────────────────────────────────────────────

#[verifier::external_type_specification]
#[verifier::external_body]
pub struct ExIoError(std::io::Error);

/// `<std::io::Error as Display>::fmt`, through `to_string`.
#[verifier::external_body]
fn io_error_text(e: &std::io::Error) -> String {
    e.to_string()
}

/// Errors that can occur during YAML serialization or deserialization.
#[derive(Debug)]
#[non_exhaustive]
pub enum Error {
    /// Error during YAML parsing.
    Parse(String),
    /// Error during YAML parsing with location information.
    ParseWithLocation {
        /// The error message.
        message: String,
        /// The location in the source where the error occurred.
        location: Location,
    },
    /// Error during serialization.
    Serialize(String),
    /// Error during deserialization.
    Deserialize(String),
    /// Error during deserialization with location information.
    DeserializeWithLocation {
        /// The error message.
        message: String,
        /// The location in the source where the error occurred.
        location: Location,
    },
    /// I/O error.
    Io(std::io::Error),
    /// Invalid YAML structure.
    Invalid(String),
    /// Type mismatch during deserialization.
    TypeMismatch {
        /// Expected type.
        expected: &'static str,
        /// Found type.
        found: String,
    },
    /// Missing field during deserialization.
    MissingField(String),
    /// Unknown field during deserialization.
    UnknownField(String),
    /// Recursion limit exceeded during parsing.
    RecursionLimitExceeded {
        /// The depth at which the limit was exceeded.
        depth: usize,
    },
    /// Repetition limit exceeded during parsing (an anchor expanded too
    /// many times).
    RepetitionLimitExceeded,
    /// Unknown anchor referenced in YAML.
    UnknownAnchor(String),
    /// Unknown anchor with source location and optional typo suggestion.
    UnknownAnchorAt {
        /// The anchor name the alias tried to reference.
        name: String,
        /// Source location of the alias site.
        location: Location,
        /// A similarly named anchor that was defined, and where.
        suggestion: Option<(String, Location)>,
    },
    /// Scalar value found where a mapping was expected in a merge.
    ScalarInMerge,
    /// Tagged value found in a merge operation.
    TaggedInMerge,
    /// Scalar value found in a merge element.
    ScalarInMergeElement,
    /// Sequence value found in a merge element.
    SequenceInMergeElement,
    /// Empty YAML tag.
    EmptyTag,
    /// Failed to parse a number from YAML.
    FailedToParseNumber(String),
    /// End of stream reached unexpectedly.
    EndOfStream,
    /// More than one document found when only one was expected.
    MoreThanOneDocument,
    /// Duplicate key found during deserialization.
    DuplicateKey(String),
    /// Custom error message.
    Custom(String),
    /// A shared error that can be cloned across thread boundaries.
    Shared(Arc<Error>),
}

/// The location an error carries, looking through shared wrappers.
pub open spec fn error_location(e: Error) -> Option<Location>
    decreases e,
{
    match e {
        Error::ParseWithLocation { location, .. } => Some(location),
        Error::DeserializeWithLocation { location, .. } => Some(location),
        Error::UnknownAnchorAt { location, .. } => Some(location),
        Error::Shared(a) => error_location(*a),
        _ => None,
    }
}

/// The display text of an error. `None` for an I/O error (alone or
/// shared), whose text comes from the operating system.
pub open spec fn error_text(e: Error) -> Option<Seq<char>>
    decreases e,
{
    match e {
        Error::Parse(m) => Some("YAML parse error: "@ + m@),
        Error::ParseWithLocation { message, location } => Some(
            "YAML parse error at "@ + location_text(location) + ": "@ + message@,
        ),
        Error::Serialize(m) => Some("serialization error: "@ + m@),
        Error::Deserialize(m) => Some("deserialization error: "@ + m@),
        Error::DeserializeWithLocation { message, location } => Some(
            "deserialization error at "@ + location_text(location) + ": "@ + message@,
        ),
        Error::Io(_) => None,
        Error::Invalid(m) => Some("invalid YAML: "@ + m@),
        Error::TypeMismatch { expected, found } => Some(
            "type mismatch: expected "@ + expected@ + ", found "@ + found@,
        ),
        Error::MissingField(m) => Some("missing field: "@ + m@),
        Error::UnknownField(m) => Some("unknown field: "@ + m@),
        Error::RecursionLimitExceeded { depth } => Some(
            "recursion limit exceeded at depth "@ + decimal(depth as nat),
        ),
        Error::RepetitionLimitExceeded => Some("repetition limit exceeded"@),
        Error::UnknownAnchor(m) => Some("unknown anchor: "@ + m@),
        Error::UnknownAnchorAt { name, .. } => Some("unknown anchor: "@ + name@),
        Error::ScalarInMerge => Some(
            "expected a mapping or list of mappings for merging, but found scalar"@,
        ),
        Error::TaggedInMerge => Some("unexpected tagged value in merge"@),
        Error::ScalarInMergeElement => Some("expected a mapping for merging, but found scalar"@),
        Error::SequenceInMergeElement => Some(
            "expected a mapping for merging, but found sequence"@,
        ),
        Error::EmptyTag => Some("empty YAML tag is not allowed"@),
        Error::FailedToParseNumber(m) => Some("failed to parse YAML number: "@ + m@),
        Error::EndOfStream => Some("unexpected end of YAML stream"@),
        Error::MoreThanOneDocument => Some(
            "expected a single YAML document, but found multiple documents"@,
        ),
        Error::DuplicateKey(m) => Some("duplicate key: "@ + m@),
        Error::Custom(m) => Some(m@),
        Error::Shared(a) => error_text(*a),
    }
}

/// The diagnostic code of an error, looking through shared wrappers.
pub open spec fn error_code(e: Error) -> Seq<char>
    decreases e,
{
    match e {
        Error::Parse(_) | Error::ParseWithLocation { .. } => "noyalib::parse"@,
        Error::Serialize(_) => "noyalib::serialize"@,
        Error::Deserialize(_) | Error::DeserializeWithLocation { .. } => "noyalib::deserialize"@,
        Error::TypeMismatch { .. } => "noyalib::type_mismatch"@,
        Error::MissingField(_) => "noyalib::missing_field"@,
        Error::UnknownField(_) => "noyalib::unknown_field"@,
        Error::RecursionLimitExceeded { .. } => "noyalib::recursion_limit"@,
        Error::RepetitionLimitExceeded => "noyalib::repetition_limit"@,
        Error::UnknownAnchor(_) | Error::UnknownAnchorAt { .. } => "noyalib::unknown_anchor"@,
        Error::DuplicateKey(_) => "noyalib::duplicate_key"@,
        Error::EndOfStream => "noyalib::eof"@,
        Error::MoreThanOneDocument => "noyalib::multi_document"@,
        Error::Io(_) => "noyalib::io"@,
        Error::Shared(a) => error_code(*a),
        _ => "noyalib::error"@,
    }
}

/// The fixed advice that goes with an error's kind, if any.
pub open spec fn fixed_help(e: Error) -> Option<Seq<char>> {
    match e {
        Error::RecursionLimitExceeded { .. } => Some(
            "Increase ParserConfig::max_depth or simplify the document structure"@,
        ),
        Error::RepetitionLimitExceeded => Some(
            "Increase ParserConfig::max_alias_expansions or reduce alias usage"@,
        ),
        Error::DuplicateKey(_) => Some("Use DuplicateKeyPolicy::Last to accept duplicate keys"@),
        Error::MoreThanOneDocument => Some(
            "Use noyalib::load_all() to parse multi-document streams"@,
        ),
        Error::UnknownAnchor(_) => Some("Define the anchor (&name) before referencing it"@),
        _ => None,
    }
}

/// The advice shown with an error: the fixed advice of its kind, or
/// for an unknown anchor with a similarly named one defined, a
/// "did you mean" naming it. A shared wrapper gives none.
pub open spec fn error_help(e: Error) -> Option<Seq<char>> {
    match fixed_help(e) {
        Some(h) => Some(h),
        None => match e {
            Error::UnknownAnchorAt { suggestion, .. } => match suggestion {
                Some(sg) => Some("did you mean '&"@ + sg.0@ + "'?"@),
                None => Some("Define the anchor (&name) before referencing it"@),
            },
            _ => None,
        },
    }
}

/// The labelled source offsets shown with an error: the alias site
/// and, when a similarly named anchor exists, its definition, for an
/// unknown anchor; otherwise the error's location, marked "here".
pub open spec fn error_labels(e: Error) -> Option<Seq<(nat, Seq<char>)>> {
    match e {
        Error::UnknownAnchorAt { location, suggestion, name } => {
            let alias = (location.spec_index(), "unknown anchor '"@ + name@ + "'"@);
            match suggestion {
                Some(sg) => Some(
                    seq![
                        alias,
                        (sg.1.spec_index(), "did you mean this anchor '&"@ + sg.0@ + "'?"@),
                    ],
                ),
                None => Some(seq![alias]),
            }
        },
        _ => match error_location(e) {
            Some(l) => Some(seq![(l.spec_index(), "here"@)]),
            None => None,
        },
    }
}

/// Sharing keeps what an error says: wrapping the result of
/// [`Error::into_shared`] back with [`Error::from_shared`] gives an
/// error with the same location, display text and diagnostic code,
/// however often it was shared before.
pub proof fn lemma_shared_keeps_meaning(e: Error, a: Arc<Error>)
    requires
        match e {
            Error::Shared(b) => a == b,
            _ => *a == e,
        },
    ensures
        error_location(Error::Shared(a)) == error_location(e),
        error_text(Error::Shared(a)) == error_text(e),
        error_code(Error::Shared(a)) == error_code(e),
{
}

/// `a`, then `b`, then `c`, in a new string.
fn concat3(a: &str, b: &str, c: &str) -> (s: String)
    ensures
        s@ == a@ + b@ + c@,
{
    let mut s = String::new();
    push_str(&mut s, a);
    push_str(&mut s, b);
    push_str(&mut s, c);
    assert(s@ =~= a@ + b@ + c@);
    s
}

/// Append `prefix` and then `rest` to a new string.
fn concat2(prefix: &str, rest: &str) -> (s: String)
    ensures
        s@ == prefix@ + rest@,
{
    let mut s = String::new();
    push_str(&mut s, prefix);
    push_str(&mut s, rest);
    assert(s@ =~= prefix@ + rest@);
    s
}

impl Error {
    /// Returns the location of the error, if available. For shared
    /// errors, this delegates to the inner error.
    pub fn location(&self) -> (r: Option<Location>)
        ensures
            r == error_location(*self),
        decreases self,
    {
        match self {
            Error::ParseWithLocation { location, .. } => Some(*location),
            Error::DeserializeWithLocation { location, .. } => Some(*location),
            Error::UnknownAnchorAt { location, .. } => Some(*location),
            Error::Shared(arc) => {
                let inner: &Error = &**arc;
                inner.location()
            },
            _ => None,
        }
    }

    /// A parse error for a path with no entry.
    pub fn entry_not_found(path: &str) -> (e: Self)
        ensures
            e matches Error::Parse(m) && m@ == "entry not found at path: "@ + path@,
    {
        Error::Parse(concat2("entry not found at path: ", path))
    }

    /// The diagnostic code of the error (see [`error_code`]).
    pub fn code(&self) -> (c: &'static str)
        ensures
            c@ == error_code(*self),
        decreases self,
    {
        match self {
            Error::Parse(_) | Error::ParseWithLocation { .. } => "noyalib::parse",
            Error::Serialize(_) => "noyalib::serialize",
            Error::Deserialize(_) | Error::DeserializeWithLocation { .. } => "noyalib::deserialize",
            Error::TypeMismatch { .. } => "noyalib::type_mismatch",
            Error::MissingField(_) => "noyalib::missing_field",
            Error::UnknownField(_) => "noyalib::unknown_field",
            Error::RecursionLimitExceeded { .. } => "noyalib::recursion_limit",
            Error::RepetitionLimitExceeded => "noyalib::repetition_limit",
            Error::UnknownAnchor(_) | Error::UnknownAnchorAt { .. } => "noyalib::unknown_anchor",
            Error::DuplicateKey(_) => "noyalib::duplicate_key",
            Error::EndOfStream => "noyalib::eof",
            Error::MoreThanOneDocument => "noyalib::multi_document",
            Error::Io(_) => "noyalib::io",
            Error::Shared(arc) => {
                let inner: &Error = &**arc;
                inner.code()
            },
            _ => "noyalib::error",
        }
    }

    /// The advice to show with the error (see [`error_help`]).
    pub fn help(&self) -> (h: Option<String>)
        ensures
            match h {
                Some(t) => error_help(*self) == Some(t@),
                None => error_help(*self) is None,
            },
    {
        let fixed: Option<&str> = match self {
            Error::RecursionLimitExceeded { .. } => Some(
                "Increase ParserConfig::max_depth or simplify the document structure",
            ),
            Error::RepetitionLimitExceeded => Some(
                "Increase ParserConfig::max_alias_expansions or reduce alias usage",
            ),
            Error::DuplicateKey(_) => Some("Use DuplicateKeyPolicy::Last to accept duplicate keys"),
            Error::MoreThanOneDocument => Some(
                "Use noyalib::load_all() to parse multi-document streams",
            ),
            Error::UnknownAnchor(_) => Some("Define the anchor (&name) before referencing it"),
            _ => None,
        };
        if let Some(t) = fixed {
            return Some(owned_string(t));
        }
        if let Error::UnknownAnchorAt { suggestion, .. } = self {
            if let Some((name, _)) = suggestion {
                return Some(concat3("did you mean '&", name.as_str(), "'?"));
            }
            return Some(owned_string("Define the anchor (&name) before referencing it"));
        }
        None
    }

    /// The labelled source offsets to show with the error (see
    /// [`error_labels`]).
    pub fn labels(&self) -> (r: Option<Vec<(usize, String)>>)
        ensures
            match r {
                Some(v) => error_labels(*self) == Some(
                    v@.map_values(|p: (usize, String)| (p.0 as nat, p.1@)),
                ),
                None => error_labels(*self) is None,
            },
    {
        if let Error::UnknownAnchorAt { location, suggestion, name } = self {
            let mut v: Vec<(usize, String)> = Vec::new();
            v.push((location.index(), concat3("unknown anchor '", name.as_str(), "'")));
            if let Some((sugg_name, sugg_loc)) = suggestion {
                v.push(
                    (
                        sugg_loc.index(),
                        concat3("did you mean this anchor '&", sugg_name.as_str(), "'?"),
                    ),
                );
            }
            proof {
                let m = v@.map_values(|p: (usize, String)| (p.0 as nat, p.1@));
                assert(m =~= error_labels(*self)->0);
            }
            return Some(v);
        }
        let loc = match self.location() {
            Some(l) => l,
            None => {
                return None;
            },
        };
        let mut v: Vec<(usize, String)> = Vec::new();
        v.push((loc.index(), owned_string("here")));
        proof {
            let m = v@.map_values(|p: (usize, String)| (p.0 as nat, p.1@));
            assert(m =~= error_labels(*self)->0);
        }
        Some(v)
    }

    /// The error's display text (`Display` for the error).
    pub fn to_string(&self) -> (s: String)
        ensures
            error_text(*self) matches Some(t) ==> s@ == t,
        decreases self,
    {
        match self {
            Error::Parse(m) => concat2("YAML parse error: ", m.as_str()),
            Error::ParseWithLocation { message, location } => {
                let mut s = String::new();
                push_str(&mut s, "YAML parse error at ");
                let l = location.to_string();
                push_str(&mut s, l.as_str());
                push_str(&mut s, ": ");
                push_str(&mut s, message.as_str());
                proof {
                    assert(s@ =~= "YAML parse error at "@ + location_text(*location) + ": "@ + message@);
                }
                s
            },
            Error::Serialize(m) => concat2("serialization error: ", m.as_str()),
            Error::Deserialize(m) => concat2("deserialization error: ", m.as_str()),
            Error::DeserializeWithLocation { message, location } => {
                let mut s = String::new();
                push_str(&mut s, "deserialization error at ");
                let l = location.to_string();
                push_str(&mut s, l.as_str());
                push_str(&mut s, ": ");
                push_str(&mut s, message.as_str());
                proof {
                    assert(s@ =~= "deserialization error at "@ + location_text(*location) + ": "@ + message@);
                }
                s
            },
            Error::Io(e) => {
                let t = io_error_text(e);
                concat2("I/O error: ", t.as_str())
            },
            Error::Invalid(m) => concat2("invalid YAML: ", m.as_str()),
            Error::TypeMismatch { expected, found } => {
                let mut s = String::new();
                push_str(&mut s, "type mismatch: expected ");
                push_str(&mut s, expected);
                push_str(&mut s, ", found ");
                push_str(&mut s, found.as_str());
                proof {
                    assert(s@ =~= "type mismatch: expected "@ + expected@ + ", found "@ + found@);
                }
                s
            },
            Error::MissingField(m) => concat2("missing field: ", m.as_str()),
            Error::UnknownField(m) => concat2("unknown field: ", m.as_str()),
            Error::RecursionLimitExceeded { depth } => {
                let mut s = String::new();
                push_str(&mut s, "recursion limit exceeded at depth ");
                push_decimal(&mut s, *depth);
                proof {
                    assert(s@ =~= "recursion limit exceeded at depth "@ + decimal(*depth as nat));
                }
                s
            },
            Error::RepetitionLimitExceeded => owned_string("repetition limit exceeded"),
            Error::UnknownAnchor(m) => concat2("unknown anchor: ", m.as_str()),
            Error::UnknownAnchorAt { name, .. } => concat2("unknown anchor: ", name.as_str()),
            Error::ScalarInMerge => owned_string("expected a mapping or list of mappings for merging, but found scalar"),
            Error::TaggedInMerge => owned_string("unexpected tagged value in merge"),
            Error::ScalarInMergeElement => owned_string("expected a mapping for merging, but found scalar"),
            Error::SequenceInMergeElement => owned_string("expected a mapping for merging, but found sequence"),
            Error::EmptyTag => owned_string("empty YAML tag is not allowed"),
            Error::FailedToParseNumber(m) => concat2("failed to parse YAML number: ", m.as_str()),
            Error::EndOfStream => owned_string("unexpected end of YAML stream"),
            Error::MoreThanOneDocument => owned_string("expected a single YAML document, but found multiple documents"),
            Error::DuplicateKey(m) => concat2("duplicate key: ", m.as_str()),
            Error::Custom(m) => owned_string(m.as_str()),
            Error::Shared(arc) => {
                let inner: &Error = &**arc;
                inner.to_string()
            },
        }
    }
}


// ── Source excerpts ────────────────────────────────────────────────

/// `l` without one trailing carriage return.
pub open spec fn strip_cr(l: Seq<char>) -> Seq<char> {
    if l.len() > 0 && l.last() == '\r' {
        l.drop_last()
    } else {
        l
    }
}

/// Lines finished so far and the unfinished line, after reading `s`.
pub open spec fn line_split(s: Seq<char>) -> (Seq<Seq<char>>, Seq<char>)
    decreases s.len(),
{
    if s.len() == 0 {
        (Seq::empty(), Seq::empty())
    } else {
        let (done, cur) = line_split(s.drop_last());
        if s.last() == '\n' {
            (done.push(strip_cr(cur)), Seq::empty())
        } else {
            (done, cur.push(s.last()))
        }
    }
}

/// The lines of `s` as `str::lines` yields them: split at `\n`, a
/// `\r` just before the `\n` dropped, no empty line after a final
/// line break.
pub open spec fn text_lines(s: Seq<char>) -> Seq<Seq<char>> {
    let (done, cur) = line_split(s);
    if cur.len() > 0 {
        done.push(cur)
    } else {
        done
    }
}


/// The excerpt `format_with_source` renders for an error with display
/// text `head` at `l`, whose source line is `line`.
pub open spec fn excerpt(head: Seq<char>, l: Location, line: Seq<char>) -> Seq<char> {
    let num = decimal(l.spec_line());
    let width: nat = if num.len() >= 3 {
        num.len()
    } else {
        3
    };
    let col: nat = if l.spec_column() >= 1 {
        (l.spec_column() - 1) as nat
    } else {
        0
    };
    "error: "@ + head + "\n"@ + spaces(width) + "--> line "@ + num + ":"@ + decimal(
        l.spec_column(),
    ) + "\n"@ + spaces(width) + " |\n"@ + spaces((width - num.len()) as nat) + num + " | "@ + line
        + "\n"@ + spaces(width) + " | "@ + spaces(col) + "^"@
}

/// A new string holding the first `n` characters of `v`.
fn string_of_chars(v: &Vec<char>, n: usize) -> (s: String)
    requires
        n <= v@.len(),
    ensures
        s@ == v@.take(n as int),
{
    let mut s = String::new();
    let mut k: usize = 0;
    while k < n
        invariant
            n <= v@.len(),
            0 <= k <= n,
            s@ == v@.take(k as int),
        decreases n - k,
    {
        push_char(&mut s, v[k]);
        assert(v@.take(k + 1) =~= v@.take(k as int).push(v@[k as int]));
        k += 1;
    }
    s
}

/// The lines of `source`, as `str::lines` yields them.
fn source_lines(source: &str) -> (r: Vec<String>)
    ensures
        r@.len() == text_lines(source@).len(),
        forall|k: int| 0 <= k < r@.len() ==> (#[trigger] r@[k])@ == text_lines(source@)[k],
{
    let mut done: Vec<String> = Vec::new();
    let mut cur: Vec<char> = Vec::new();
    let ghost all = source@;
    for c in iter: source.chars()
        invariant
            iter.seq() == all,
            done@.len() == line_split(all.take(iter.index() as int)).0.len(),
            forall|k: int|
                0 <= k < done@.len() ==> (#[trigger] done@[k])@ == line_split(
                    all.take(iter.index() as int),
                ).0[k],
            cur@ == line_split(all.take(iter.index() as int)).1,
    {
        let ghost pre = all.take(iter.index() as int);
        assert(all.take(iter.index() + 1).drop_last() =~= pre);
        if c == '\n' {
            let n = cur.len();
            let keep = if n > 0 && cur[n - 1] == '\r' {
                n - 1
            } else {
                n
            };
            let line = string_of_chars(&cur, keep);
            proof {
                assert(cur@.take(keep as int) =~= strip_cr(cur@));
            }
            done.push(line);
            cur = Vec::new();
        } else {
            cur.push(c);
        }
    }
    assert(all.take(all.len() as int) =~= all);
    if cur.len() > 0 {
        let n = cur.len();
        let line = string_of_chars(&cur, n);
        assert(cur@.take(n as int) =~= cur@);
        done.push(line);
    }
    done
}

impl Error {
    /// Create a parse error located at byte `index` of `source`.
    pub fn parse_at(message: String, source: &str, index: usize) -> (e: Self)
        requires
            source.spec_bytes().len() < usize::MAX,
        ensures
            e matches Error::ParseWithLocation { message: m, location } && m == message
                && location == spec_location_of(source.spec_bytes(), index),
    {
        let location = Location::from_index(source, index);
        Error::ParseWithLocation { message, location }
    }

    /// Create a deserialization error located at byte `index` of `source`.
    pub fn deserialize_at(message: String, source: &str, index: usize) -> (e: Self)
        requires
            source.spec_bytes().len() < usize::MAX,
        ensures
            e matches Error::DeserializeWithLocation { message: m, location } && m == message
                && location == spec_location_of(source.spec_bytes(), index),
    {
        let location = Location::from_index(source, index);
        Error::DeserializeWithLocation { message, location }
    }

    /// Wrap this error in an `Arc` so it can be shared; an error that
    /// is already shared hands back its own `Arc`.
    pub fn into_shared(self) -> (r: Arc<Error>)
        ensures
            match self {
                Error::Shared(a) => r == a,
                _ => *r == self,
            },
    {
        match self {
            Error::Shared(arc) => arc,
            other => Arc::new(other),
        }
    }

    /// Wrap a shared error.
    pub fn from_shared(arc: Arc<Error>) -> (e: Error)
        ensures
            e == Error::Shared(arc),
    {
        Error::Shared(arc)
    }

    /// `true` if this is a shared error.
    pub fn is_shared(&self) -> (r: bool)
        ensures
            r == (*self is Shared),
    {
        match self {
            Error::Shared(_) => true,
            _ => false,
        }
    }

    /// For a shared error, the error inside; `None` otherwise.
    pub fn as_inner(&self) -> (r: Option<&Error>)
        ensures
            match *self {
                Error::Shared(a) => r == Some(&*a),
                _ => r is None,
            },
    {
        match self {
            Error::Shared(arc) => Some(&**arc),
            _ => None,
        }
    }

    /// The error with the source line it points at and a `^` marker
    /// under its column; just the error text when the error has no
    /// location or its line is not in `source`.
    pub fn format_with_source(&self, source: &str) -> (out: String)
        ensures
            match error_location(*self) {
                None => error_text(*self) matches Some(t) ==> out@ == t,
                Some(l) => {
                    let idx = if l.spec_line() >= 1 {
                        l.spec_line() - 1
                    } else {
                        0
                    };
                    let ls = text_lines(source@);
                    if idx >= ls.len() {
                        error_text(*self) matches Some(t) ==> out@ == t
                    } else {
                        error_text(*self) matches Some(t) ==> out@ == excerpt(t, l, ls[idx])
                    }
                },
            },
    {
        let location = match self.location() {
            Some(loc) => loc,
            None => return self.to_string(),
        };
        let lines = source_lines(source);
        let line = location.line();
        let column = location.column();
        let line_idx = if line >= 1 {
            line - 1
        } else {
            0
        };
        if line_idx >= lines.len() {
            return self.to_string();
        }
        let head = self.to_string();
        let num = crate::text::decimal_string(line);
        let num_len = crate::text::char_count(num.as_str());
        let width = if num_len >= 3 {
            num_len
        } else {
            3
        };
        let col = if column >= 1 {
            column - 1
        } else {
            0
        };
        let mut out = String::new();
        push_str(&mut out, "error: ");
        push_str(&mut out, head.as_str());
        push_str(&mut out, "\n");
        push_spaces(&mut out, width);
        push_str(&mut out, "--> line ");
        push_decimal(&mut out, line);
        push_str(&mut out, ":");
        push_decimal(&mut out, column);
        push_str(&mut out, "\n");
        push_spaces(&mut out, width);
        push_str(&mut out, " |\n");
        push_spaces(&mut out, width - num_len);
        push_str(&mut out, num.as_str());
        push_str(&mut out, " | ");
        push_str(&mut out, lines[line_idx].as_str());
        push_str(&mut out, "\n");
        push_spaces(&mut out, width);
        push_str(&mut out, " | ");
        push_spaces(&mut out, col);
        push_str(&mut out, "^");
        proof {
            let t = error_text(*self);
            if t is Some {
                assert(out@ =~= excerpt(t->0, location, text_lines(source@)[line_idx as int]));
            }
        }
        out
    }
}

/// The location of byte `index` in a source with bytes `b`.
pub open spec fn spec_location_of(b: Seq<u8>, index: usize) -> Location {
    let upto = if index <= b.len() {
        index as int
    } else {
        b.len() as int
    };
    choose|l: Location|
        l.spec_line() == line_after(b.take(upto)) && l.spec_column() == column_after(b.take(upto))
            && l.spec_index() == index
}

} // verus!
