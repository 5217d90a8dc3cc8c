//! Paths to locations inside a YAML document, and the query-path
//! syntax (`a.b`, `items[0]`, `items[*]`, `..name`).
use vstd::prelude::*;

use crate::text::{chars_of, decimal, push_char, push_decimal, push_str};

verus! {

/// A path from the document root to a value, linked through borrowed
/// parents. Used to say where in a document an error occurred.
#[derive(Copy, Clone, Debug, PartialEq, Eq)]
pub enum Path<'a> {
    /// The root of the document; shown as `.`.
    Root,
    /// An index into a sequence.
    Sequence {
        /// The parent path (the sequence itself).
        parent: &'a Path<'a>,
        /// The index within the sequence (zero-based).
        index: usize,
    },
    /// A key in a mapping.
    Mapping {
        /// The parent path (the mapping itself).
        parent: &'a Path<'a>,
        /// The key within the mapping.
        key: &'a str,
    },
    /// Following an alias reference.
    Alias {
        /// The parent path before the alias.
        parent: &'a Path<'a>,
    },
    /// Unknown or unspecified location.
    Unknown {
        /// The parent path.
        parent: &'a Path<'a>,
    },
}

/// Number of segments from the root.
pub open spec fn path_depth(p: Path) -> nat
    decreases p,
{
    match p {
        Path::Root => 0,
        Path::Sequence { parent, .. } => 1 + path_depth(*parent),
        Path::Mapping { parent, .. } => 1 + path_depth(*parent),
        Path::Alias { parent } => 1 + path_depth(*parent),
        Path::Unknown { parent } => 1 + path_depth(*parent),
    }
}

/// The display text of a path: `.` for the root; otherwise keys
/// joined by `.`, indices as `[n]` right after their sequence, `?`
/// for an unknown segment, and nothing for an alias step.
pub open spec fn path_text(p: Path) -> Seq<char>
    decreases p, 0nat,
{
    match p {
        Path::Root => "."@,
        Path::Sequence { parent, index } => parent_text(*parent, false) + "["@ + decimal(index as nat)
            + "]"@,
        Path::Mapping { parent, key } => parent_text(*parent, true) + key@,
        Path::Alias { parent } => parent_text(*parent, true),
        Path::Unknown { parent } => parent_text(*parent, true) + "?"@,
    }
}

/// How a parent prefixes its child: nothing for the root, otherwise
/// its text, followed by `.` when `dot`.
pub open spec fn parent_text(p: Path, dot: bool) -> Seq<char>
    decreases p, 1nat,
{
    match p {
        Path::Root => Seq::empty(),
        _ => if dot {
            path_text(p) + "."@
        } else {
            path_text(p)
        },
    }
}

impl<'a> Default for Path<'a> {
    /// The root path.
    fn default() -> (p: Self)
        ensures
            p == Path::<'a>::Root,
    {
        Path::Root
    }
}

impl<'a> Path<'a> {
    /// The path of element `index` of the sequence at `self`.
    pub fn index(&'a self, index: usize) -> (p: Path<'a>)
        ensures
            p == (Path::Sequence { parent: self, index }),
    {
        Path::Sequence { parent: self, index }
    }

    /// The path of `key` in the mapping at `self`.
    pub fn key(&'a self, key: &'a str) -> (p: Path<'a>)
        ensures
            p == (Path::Mapping { parent: self, key }),
    {
        Path::Mapping { parent: self, key }
    }

    /// The path reached by following an alias at `self`.
    pub fn alias(&'a self) -> (p: Path<'a>)
        ensures
            p == (Path::Alias { parent: self }),
    {
        Path::Alias { parent: self }
    }

    /// An unknown location below `self`.
    pub fn unknown(&'a self) -> (p: Path<'a>)
        ensures
            p == (Path::Unknown { parent: self }),
    {
        Path::Unknown { parent: self }
    }

    /// `true` if this is the root path.
    pub fn is_root(&self) -> (r: bool)
        ensures
            r == (*self is Root),
    {
        match self {
            Path::Root => true,
            _ => false,
        }
    }

    /// The parent path; `None` for the root.
    pub fn parent(&self) -> (r: Option<&Path<'a>>)
        ensures
            match *self {
                Path::Root => r is None,
                Path::Sequence { parent, .. } => r == Some(parent),
                Path::Mapping { parent, .. } => r == Some(parent),
                Path::Alias { parent } => r == Some(parent),
                Path::Unknown { parent } => r == Some(parent),
            },
    {
        match self {
            Path::Root => None,
            Path::Sequence { parent, .. } => Some(*parent),
            Path::Mapping { parent, .. } => Some(*parent),
            Path::Alias { parent } => Some(*parent),
            Path::Unknown { parent } => Some(*parent),
        }
    }

    /// Number of segments from the root.
    pub fn depth(&self) -> (d: usize)
        requires
            path_depth(*self) <= usize::MAX,
        ensures
            d == path_depth(*self),
        decreases *self,
    {
        match self {
            Path::Root => 0,
            Path::Sequence { parent, .. } => 1 + parent.depth(),
            Path::Mapping { parent, .. } => 1 + parent.depth(),
            Path::Alias { parent } => 1 + parent.depth(),
            Path::Unknown { parent } => 1 + parent.depth(),
        }
    }

    /// Append the display text of `self` to `out`.
    fn write_text(&self, out: &mut String)
        ensures
            final(out)@ == old(out)@ + path_text(*self),
        decreases *self, 0nat,
    {
        match self {
            Path::Root => push_str(out, "."),
            Path::Sequence { parent, index } => {
                parent.write_parent(out, false);
                push_str(out, "[");
                push_decimal(out, *index);
                push_str(out, "]");
                assert(out@ =~= old(out)@ + path_text(*self));
            },
            Path::Mapping { parent, key } => {
                parent.write_parent(out, true);
                push_str(out, key);
                assert(out@ =~= old(out)@ + path_text(*self));
            },
            Path::Alias { parent } => {
                parent.write_parent(out, true);
            },
            Path::Unknown { parent } => {
                parent.write_parent(out, true);
                push_str(out, "?");
                assert(out@ =~= old(out)@ + path_text(*self));
            },
        }
    }

    /// Append how `self` prefixes a child segment to `out`.
    fn write_parent(&self, out: &mut String, dot: bool)
        ensures
            final(out)@ == old(out)@ + parent_text(*self, dot),
        decreases *self, 1nat,
    {
        match self {
            Path::Root => {
                assert(old(out)@ + Seq::<char>::empty() =~= old(out)@);
            },
            _ => {
                self.write_text(out);
                if dot {
                    push_str(out, ".");
                    assert(out@ =~= old(out)@ + parent_text(*self, dot));
                }
            },
        }
    }

    /// The display text of the path (`Display` for the path).
    pub fn to_string(&self) -> (s: String)
        ensures
            s@ == path_text(*self),
    {
        let mut s = String::new();
        self.write_text(&mut s);
        assert(Seq::<char>::empty() + path_text(*self) =~= path_text(*self));
        s
    }
}

/// Law: a child path is one level deeper than its parent, and its
/// parent is the path it was built from.
pub proof fn lemma_child_depth(p: Path, index: usize, key: &str)
    ensures
        path_depth(Path::Sequence { parent: &p, index }) == path_depth(p) + 1,
        path_depth(Path::Mapping { parent: &p, key }) == path_depth(p) + 1,
        path_depth(Path::Alias { parent: &p }) == path_depth(p) + 1,
        path_depth(Path::Unknown { parent: &p }) == path_depth(p) + 1,
{
}

/// Law: only the root has depth zero.
pub proof fn lemma_depth_zero_iff_root(p: Path)
    ensures
        (path_depth(p) == 0) == (p is Root),
{
}

// ── Query paths ────────────────────────────────────────────────────

/// A segment in a query path expression.
#[derive(Debug, Clone)]
pub enum QuerySegment {
    /// A key in a mapping.
    Key(String),
    /// An index in a sequence.
    Index(usize),
    /// Wildcard: matches all keys or all indices.
    Wildcard,
    /// Recursive descent: matches at any depth.
    RecursiveDescent,
}

/// A query segment with its key as characters.
pub enum SegmentView {
    /// A key in a mapping.
    Key(Seq<char>),
    /// An index in a sequence.
    Index(usize),
    /// Wildcard.
    Wildcard,
    /// Recursive descent.
    RecursiveDescent,
}

impl View for QuerySegment {
    type V = SegmentView;

    open spec fn view(&self) -> SegmentView {
        match self {
            QuerySegment::Key(k) => SegmentView::Key(k@),
            QuerySegment::Index(i) => SegmentView::Index(*i),
            QuerySegment::Wildcard => SegmentView::Wildcard,
            QuerySegment::RecursiveDescent => SegmentView::RecursiveDescent,
        }
    }
}

/// `c` is an ASCII decimal digit.
pub open spec fn is_digit(c: char) -> bool {
    '0' <= c && c <= '9'
}

/// Value of a string of decimal digits.
pub open spec fn digits_value(s: Seq<char>) -> nat
    decreases s.len(),
{
    if s.len() == 0 {
        0
    } else {
        (digits_value(s.drop_last()) * 10 + (s.last() as int - '0' as int)) as nat
    }
}

/// The digits part of an unsigned number: `s` without one leading `+`.
pub open spec fn unsigned_digits(s: Seq<char>) -> Seq<char> {
    if s.len() > 0 && s[0] == '+' {
        s.skip(1)
    } else {
        s
    }
}

/// Every character of `d` is a decimal digit.
pub open spec fn all_digits(d: Seq<char>) -> bool {
    forall|i: int| 0 <= i < d.len() ==> is_digit(#[trigger] d[i])
}

/// What `str::parse::<usize>` gives for `s`: an optional `+`, then at
/// least one decimal digit and nothing else, with a value that fits.
pub open spec fn spec_parse_usize(s: Seq<char>) -> Option<usize> {
    let d = unsigned_digits(s);
    if d.len() > 0 && all_digits(d) && digits_value(d) <= usize::MAX {
        Some(digits_value(d) as usize)
    } else {
        None
    }
}

/// Parse a decimal `usize` the way `str::parse::<usize>` does.
pub fn parse_usize(s: &[char]) -> (r: Option<usize>)
    ensures
        r == spec_parse_usize(s@),
{
    let n = s.len();
    let start: usize = if n > 0 && s[0] == '+' {
        1
    } else {
        0
    };
    let ghost d = if n > 0 && s@[0] == '+' {
        s@.skip(1)
    } else {
        s@
    };
    assert(d =~= s@.skip(start as int));
    if start >= n {
        return None;
    }
    let mut v: usize = 0;
    let mut k: usize = start;
    while k < n
        invariant
            n == s@.len(),
            start <= k <= n,
            start < n,
            d =~= s@.skip(start as int),
            d == unsigned_digits(s@),
            forall|i: int| start <= i < k ==> is_digit(#[trigger] s@[i]),
            v == digits_value(s@.subrange(start as int, k as int)),
        decreases n - k,
    {
        let c = s[k];
        if !('0' <= c && c <= '9') {
            proof {
                assert(d[k - start] == c);
                assert(!is_digit(d[k - start]));
                assert(0 <= k - start < d.len());
            }
            return None;
        }
        let dig: usize = ((c as u32) - ('0' as u32)) as usize;
        assert(s@.subrange(start as int, k + 1).drop_last() =~= s@.subrange(start as int, k as int));
        assert(digits_value(s@.subrange(start as int, k + 1)) == v * 10 + dig);
        let m = v.checked_mul(10);
        match m {
            None => {
                proof {
                    assert(d.take((k + 1 - start) as int) =~= s@.subrange(start as int, k + 1));
                    if all_digits(d) {
                        lemma_digits_value_prefix_bound(d, (k + 1 - start) as int);
                    }
                }
                return None;
            },
            Some(m) => {
                match m.checked_add(dig) {
                    None => {
                        proof {
                            assert(d.take((k + 1 - start) as int) =~= s@.subrange(start as int, k + 1));
                            if all_digits(d) {
                                lemma_digits_value_prefix_bound(d, (k + 1 - start) as int);
                            }
                        }
                        return None;
                    },
                    Some(w) => {
                        v = w;
                    },
                }
            },
        }
        k += 1;
    }
    proof {
        assert(s@.subrange(start as int, n as int) =~= d);
        assert forall|i: int| 0 <= i < d.len() implies is_digit(#[trigger] d[i]) by {
            assert(d[i] == s@[start + i]);
        }
    }
    Some(v)
}

/// A digit string's value is at least the value of any prefix of it.
proof fn lemma_digits_value_prefix_bound(d: Seq<char>, k: int)
    requires
        0 <= k <= d.len(),
        forall|i: int| 0 <= i < d.len() ==> is_digit(#[trigger] d[i]),
    ensures
        digits_value(d.take(k)) <= digits_value(d),
    decreases d.len(),
{
    if k < d.len() {
        lemma_digits_value_prefix_bound(d.drop_last(), k);
        assert(d.drop_last().take(k) =~= d.take(k));
        assert(is_digit(d[d.len() - 1]));
    } else {
        assert(d.take(k) =~= d);
    }
}

/// The pending key, as a segment list (empty when there is no key).
pub open spec fn flush_key(cur: Seq<char>) -> Seq<SegmentView> {
    if cur.len() > 0 {
        seq![SegmentView::Key(cur)]
    } else {
        Seq::empty()
    }
}

/// Position of the first `]` in `s`, or `s.len()` when there is none.
pub open spec fn close_bracket(s: Seq<char>) -> nat
    decreases s.len(),
{
    if s.len() == 0 {
        0
    } else if s[0] == ']' {
        0
    } else {
        1 + close_bracket(s.skip(1))
    }
}

/// The segment a bracket's content stands for: `*` is a wildcard, a
/// number an index; anything else is dropped.
pub open spec fn bracket_segment(content: Seq<char>) -> Seq<SegmentView> {
    if content == seq!['*'] {
        seq![SegmentView::Wildcard]
    } else {
        match spec_parse_usize(content) {
            Some(i) => seq![SegmentView::Index(i)],
            None => Seq::empty(),
        }
    }
}

/// The segments of the rest `s` of a query path, given the key
/// characters `cur` collected so far. `.` ends a key and `..` also
/// adds a recursive descent; `[..]` ends a key and adds its bracket
/// segment; a stray `]` is ignored; `*` ends a key and adds a
/// wildcard; any other character extends the key.
pub open spec fn query_segments(s: Seq<char>, cur: Seq<char>) -> Seq<SegmentView>
    decreases s.len(),
{
    if s.len() == 0 {
        flush_key(cur)
    } else if s[0] == '.' {
        if s.len() > 1 && s[1] == '.' {
            flush_key(cur) + seq![SegmentView::RecursiveDescent] + query_segments(s.skip(2), Seq::empty())
        } else {
            flush_key(cur) + query_segments(s.skip(1), Seq::empty())
        }
    } else if s[0] == '[' {
        let rest = s.skip(1);
        let k = close_bracket(rest);
        let content = rest.take(k as int);
        let after = if k < rest.len() {
            rest.skip(k + 1int)
        } else {
            Seq::empty()
        };
        flush_key(cur) + bracket_segment(content) + query_segments(after, Seq::empty())
    } else if s[0] == ']' {
        query_segments(s.skip(1), cur)
    } else if s[0] == '*' {
        flush_key(cur) + seq![SegmentView::Wildcard] + query_segments(s.skip(1), Seq::empty())
    } else {
        query_segments(s.skip(1), cur.push(s[0]))
    }
}

/// The views of a list of segments.
pub open spec fn segment_views(v: Seq<QuerySegment>) -> Seq<SegmentView> {
    v.map_values(|q: QuerySegment| q@)
}

/// A string holding `v[from..to]`.
fn string_of_range(v: &Vec<char>, from: usize, to: usize) -> (s: String)
    requires
        from <= to <= v@.len(),
    ensures
        s@ == v@.subrange(from as int, to as int),
{
    let mut s = String::new();
    let mut k = from;
    while k < to
        invariant
            from <= k <= to <= v@.len(),
            s@ == v@.subrange(from as int, k as int),
        decreases to - k,
    {
        push_char(&mut s, v[k]);
        assert(v@.subrange(from as int, k + 1) =~= v@.subrange(from as int, k as int).push(v@[k as int]));
        k += 1;
    }
    s
}

/// Push the pending key, if any, onto `segs`, and clear it.
fn flush(segs: &mut Vec<QuerySegment>, cur: &mut Vec<char>)
    ensures
        segment_views(final(segs)@) == segment_views(old(segs)@) + flush_key(old(cur)@),
        final(cur)@ == Seq::<char>::empty(),
{
    let n = cur.len();
    if n > 0 {
        let k = string_of_range(cur, 0, n);
        assert(cur@.subrange(0, n as int) =~= cur@);
        segs.push(QuerySegment::Key(k));
    }
    assert(segment_views(segs@) =~= segment_views(old(segs)@) + flush_key(old(cur)@));
    *cur = Vec::new();
}

/// Parse a query path string into segments: dot notation (`a.b`),
/// brackets (`items[0]`, `items[*]`), a bare `*` wildcard, and `..`
/// for recursive descent. Bracket content that is neither `*` nor an
/// index is dropped.
pub fn parse_query_path(path: &str) -> (segs: Vec<QuerySegment>)
    ensures
        segment_views(segs@) == query_segments(path@, Seq::empty()),
{
    let chars = chars_of(path);
    let n = chars.len();
    let ghost all = chars@;
    let mut segs: Vec<QuerySegment> = Vec::new();
    let mut cur: Vec<char> = Vec::new();
    let mut i: usize = 0;
    proof {
        assert(all.skip(0) =~= all);
        assert(segment_views(segs@) =~= Seq::<SegmentView>::empty());
        assert(Seq::<SegmentView>::empty() + query_segments(all, Seq::empty()) =~= query_segments(all, Seq::empty()));
    }
    while i < n
        invariant
            chars@ == all,
            n == all.len(),
            0 <= i <= n,
            query_segments(all, Seq::empty()) == segment_views(segs@) + query_segments(
                all.skip(i as int),
                cur@,
            ),
        decreases n - i,
    {
        let ghost rest = all.skip(i as int);
        let ghost pending = cur@;
        let ghost before = segment_views(segs@);
        let c = chars[i];
        assert(rest[0] == c);
        if c == '.' {
            flush(&mut segs, &mut cur);
            if i + 1 < n && chars[i + 1] == '.' {
                segs.push(QuerySegment::RecursiveDescent);
                proof {
                    assert(rest[1] == chars@[i + 1]);
                    assert(rest.skip(2) =~= all.skip(i + 2));
                    assert(segment_views(segs@) =~= before + flush_key(pending) + seq![SegmentView::RecursiveDescent]);
                }
                i += 2;
            } else {
                proof {
                    if i + 1 < n {
                        assert(rest[1] == chars@[i + 1]);
                    }
                    assert(rest.skip(1) =~= all.skip(i + 1));
                }
                i += 1;
            }
        } else if c == '[' {
            flush(&mut segs, &mut cur);
            let open = i + 1;
            let mut j = open;
            while j < n && chars[j] != ']'
                invariant
                    chars@ == all,
                    n == all.len(),
                    open <= j <= n,
                    forall|q: int| open <= q < j ==> all[q] != ']',
                decreases n - j,
            {
                j += 1;
            }
            proof {
                assert(all.skip(open as int) =~= rest.skip(1));
                assert forall|q: int| 0 <= q < j - open implies rest.skip(1)[q] != ']' by {
                    assert(rest.skip(1)[q] == all[open + q]);
                }
                if j < n {
                    assert(rest.skip(1)[j - open] == all[j as int]);
                }
                lemma_close_bracket(rest.skip(1), (j - open) as int);
            }
            let content_len = j - open;
            let is_star = content_len == 1 && chars[open] == '*';
            let ghost content = rest.skip(1).take(content_len as int);
            if is_star {
                segs.push(QuerySegment::Wildcard);
                proof {
                    assert(content =~= seq!['*']);
                }
            } else {
                let parsed = parse_usize(&chars.as_slice()[open..j]);
                proof {
                    assert(chars@.subrange(open as int, j as int) =~= content);
                    if content_len == 1 {
                        assert(content[0] == chars@[open as int]);
                        assert(content != seq!['*']);
                    } else {
                        assert(content.len() != seq!['*'].len());
                    }
                }
                match parsed {
                    Some(idx) => {
                        segs.push(QuerySegment::Index(idx));
                    },
                    None => {},
                }
            }
            proof {
                assert(segment_views(segs@) =~= before + flush_key(pending) + bracket_segment(content));
            }
            if j < n {
                i = j + 1;
                proof {
                    assert(rest.skip(1).skip(content_len + 1) =~= all.skip(j + 1));
                }
            } else {
                i = n;
                proof {
                    assert(all.skip(n as int) =~= Seq::<char>::empty());
                }
            }
        } else if c == ']' {
            proof {
                assert(rest.skip(1) =~= all.skip(i + 1));
            }
            i += 1;
        } else if c == '*' {
            flush(&mut segs, &mut cur);
            segs.push(QuerySegment::Wildcard);
            proof {
                assert(rest.skip(1) =~= all.skip(i + 1));
                assert(segment_views(segs@) =~= before + flush_key(pending) + seq![SegmentView::Wildcard]);
            }
            i += 1;
        } else {
            cur.push(c);
            proof {
                assert(rest.skip(1) =~= all.skip(i + 1));
            }
            i += 1;
        }
    }
    proof {
        assert(all.skip(n as int) =~= Seq::<char>::empty());
    }
    let ghost before = segment_views(segs@);
    flush(&mut segs, &mut cur);
    segs
}

proof fn lemma_close_bracket(s: Seq<char>, k: int)
    requires
        0 <= k <= s.len(),
        forall|q: int| 0 <= q < k ==> s[q] != ']',
        k == s.len() || s[k] == ']',
    ensures
        close_bracket(s) == k,
    decreases s.len(),
{
    if s.len() > 0 && s[0] != ']' {
        assert(k > 0);
        lemma_close_bracket(s.skip(1), k - 1);
    }
}

} // verus!
