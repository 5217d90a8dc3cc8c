//! Path-shaped handles on a parsed document: an entry records a path,
//! reads the node there, and computes the edits at it. A child path is
//! joined to its parent's with a `.`, except that an index segment
//! (`[n]`) attaches directly.
use vstd::prelude::*;
use vstd::string::StringSliceAdditionalSpecFns;

use crate::cst::annotated::{comments_at, spec_comments_at, Comment, CommentBundle};
use crate::cst::edit::{
    checked_edit, get, insert_after, path_segments, push_back, remove, spec_insert_after, spec_push_back,
    spec_replace_span, spec_span_at, span_at,
};
use crate::cst::locate::{spans_fit, spec_entry_line_span, spec_resolve_span, NodeSpans};
use crate::error::Error;
use crate::text::{on_boundary, owned_string, push_char, push_str, starts_with_text};

verus! {

/// The path of `child` under `parent`: `child` alone under the root,
/// `parent[n]` for an index segment, `parent.child` otherwise.
pub open spec fn spec_compose_path(parent: Seq<char>, child: Seq<char>) -> Seq<char> {
    if parent.len() == 0 {
        child
    } else if child.len() > 0 && child[0] == '[' {
        parent + child
    } else {
        parent + seq!['.'] + child
    }
}

/// Join a child path segment to its parent path (see
/// [`spec_compose_path`]).
pub fn compose_path(parent: &str, child: &str) -> (p: String)
    ensures
        p@ == spec_compose_path(parent@, child@),
{
    let empty = crate::text::byte_len(parent) == 0;
    proof {
        crate::text::lemma_chars_le_bytes(parent@);
        assert(parent.spec_bytes() == vstd::utf8::encode_utf8(parent@));
        if parent@.len() == 0 {
            assert(vstd::utf8::encode_utf8(parent@) =~= Seq::<u8>::empty());
        }
    }
    if empty {
        return owned_string(child);
    }
    let index = starts_with_text(child, "[");
    proof {
        reveal_strlit("[");
        if child@.len() > 0 && child@[0] == '[' {
            assert(child@.take(1) =~= "["@);
        }
        if index {
            assert(child@.take(1)[0] == child@[0]);
        }
    }
    let mut p = owned_string(parent);
    if !index {
        push_char(&mut p, '.');
    }
    push_str(&mut p, child);
    proof {
        if index {
            assert(p@ =~= parent@ + child@);
        } else {
            assert(p@ =~= parent@ + seq!['.'] + child@);
        }
    }
    p
}


/// A handle on the node at a path of a parsed document: the spans of the
/// document's nodes, its source, and the path.
pub struct Entry<'a> {
    tree: &'a NodeSpans,
    source: &'a str,
    path: String,
}

impl<'a> Entry<'a> {
    /// The spans lie within the source.
    #[verifier::type_invariant]
    closed spec fn fits(self) -> bool {
        spans_fit(*self.tree, self.source.spec_bytes().len() as int)
    }

    /// The spans of the document's nodes.
    pub closed spec fn spec_tree(self) -> NodeSpans {
        *self.tree
    }

    /// The document's source.
    pub closed spec fn spec_source(self) -> &'a str {
        self.source
    }

    /// The recorded path.
    pub closed spec fn spec_path(self) -> Seq<char> {
        self.path@
    }

    /// A handle on `path` in the document whose nodes span `tree` in
    /// `source`. The path is recorded, not resolved.
    pub fn new(tree: &'a NodeSpans, source: &'a str, path: String) -> (e: Self)
        requires
            spans_fit(*tree, source.spec_bytes().len() as int),
        ensures
            e.spec_tree() == *tree,
            e.spec_source() == source,
            e.spec_path() == path@,
    {
        Entry { tree, source, path }
    }

    /// The path this entry represents.
    pub fn path(&self) -> (p: &str)
        ensures
            p@ == self.spec_path(),
    {
        self.path.as_str()
    }

    /// A node exists at this path.
    pub fn node_exists(&self) -> (r: bool)
        ensures
            r == spec_span_at(self.spec_tree(), self.spec_source().spec_bytes(), self.spec_path()) is Some,
    {
        proof {
            use_type_invariant(self);
        }
        span_at(self.tree, self.source, self.path.as_str()).is_some()
    }

    /// The byte range of the value at this path (see [`span_at`]).
    pub fn span_at(&self) -> (r: Option<(usize, usize)>)
        ensures
            match spec_span_at(self.spec_tree(), self.spec_source().spec_bytes(), self.spec_path()) {
                Some((s, e)) => r == Some((s as usize, e as usize)),
                None => r is None,
            },
    {
        proof {
            use_type_invariant(self);
        }
        span_at(self.tree, self.source, self.path.as_str())
    }

    /// The source text of the value at this path (see [`get`]).
    pub fn get(&self) -> (r: Option<&'a str>)
        requires
            spec_resolve_span(self.spec_tree(), path_segments(self.spec_path())) matches Some((s, e))
                ==> on_boundary(self.spec_source(), s) && on_boundary(self.spec_source(), e),
        ensures
            match spec_span_at(self.spec_tree(), self.spec_source().spec_bytes(), self.spec_path()) {
                Some((s, e)) => r matches Some(t) && t.spec_bytes() == self.spec_source().spec_bytes().subrange(
                    s,
                    e,
                ),
                None => r is None,
            },
    {
        proof {
            use_type_invariant(self);
        }
        get(self.tree, self.source, self.path.as_str())
    }

    /// The comments that decorate the node at this path, given the
    /// comments scanned from the source (see [`comments_at`]).
    pub fn comments(&self, scanned: &[Comment]) -> (r: CommentBundle)
        ensures
            (r.before@, r.inline) == spec_comments_at(
                self.spec_source().spec_bytes(),
                match spec_span_at(self.spec_tree(), self.spec_source().spec_bytes(), self.spec_path()) {
                    Some((s, e)) => Some((s as usize, e as usize)),
                    None => None,
                },
                scanned@,
            ),
    {
        proof {
            use_type_invariant(self);
            crate::cst::edit::lemma_span_at_bounds(*self.tree, self.source, self.path@);
        }
        // The source's length as the machine holds it bounds the span.
        let _source_len = crate::text::byte_len(self.source);
        let p = self.path.as_str();
        assert(p@ == self.path@);
        let span = span_at(self.tree, self.source, p);
        comments_at(self.source, span, scanned)
    }

    /// The new source after putting `fragment` in place of the value at
    /// this path (see [`crate::cst::edit::set`]).
    pub fn set(self, fragment: &str) -> (r: Result<String, Error>)
        ensures
            checked_edit(r, match spec_span_at(self.spec_tree(), self.spec_source().spec_bytes(), self.spec_path()) {
                Some((s, e)) => spec_replace_span(self.spec_source(), s as usize, e as usize, fragment@),
                None => Err("path not found: "@ + self.spec_path()),
            }),
    {
        proof {
            use_type_invariant(&self);
        }
        crate::cst::edit::set(self.tree, self.source, self.path.as_str(), fragment)
    }

    /// The new source after removing the whole entry at this path (see
    /// [`remove`]).
    pub fn remove(self) -> (r: Result<String, Error>)
        ensures
            checked_edit(r, match spec_entry_line_span(
                self.spec_tree(),
                self.spec_source().spec_bytes(),
                path_segments(self.spec_path()),
            ) {
                Ok((s, e)) => spec_replace_span(self.spec_source(), s as usize, e as usize, Seq::empty()),
                Err(m) => Err(m),
            }),
    {
        proof {
            use_type_invariant(&self);
        }
        remove(self.tree, self.source, self.path.as_str())
    }

    /// The new source after appending `fragment` to the block sequence
    /// at this path (see [`push_back`]).
    pub fn push_back(self, fragment: &str) -> (r: Result<String, Error>)
        ensures
            checked_edit(r, spec_push_back(self.spec_tree(), self.spec_source(), self.spec_path(), fragment@)),
    {
        proof {
            use_type_invariant(&self);
        }
        push_back(self.tree, self.source, self.path.as_str(), fragment)
    }

    /// The new source after inserting `fragment` as a sequence item after
    /// the one at this path (see [`insert_after`]).
    pub fn insert_after(self, fragment: &str) -> (r: Result<String, Error>)
        ensures
            checked_edit(r, spec_insert_after(self.spec_tree(), self.spec_source(), self.spec_path(), fragment@)),
    {
        proof {
            use_type_invariant(&self);
        }
        insert_after(self.tree, self.source, self.path.as_str(), fragment)
    }

    /// The handle on `child` under this path (see [`compose_path`]).
    pub fn entry(self, child: &str) -> (e: Entry<'a>)
        ensures
            e.spec_tree() == self.spec_tree(),
            e.spec_source() == self.spec_source(),
            e.spec_path() == spec_compose_path(self.spec_path(), child@),
    {
        proof {
            use_type_invariant(&self);
        }
        let combined = compose_path(self.path.as_str(), child);
        Entry { tree: self.tree, source: self.source, path: combined }
    }
}

} // verus!
