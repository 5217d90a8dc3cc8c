//! Formatting wrappers that request a YAML output style per value
//! (flow collections, literal or folded block scalars, trailing
//! comments, blank lines). Each wraps its value transparently.
use vstd::prelude::*;

verus! {

/// Newtype-struct name the serializer reads as "emit in flow style
/// (sequence)".
pub const MAGIC_FLOW_SEQ: &'static str = "__noya_flow_seq";

/// Newtype-struct name the serializer reads as "emit in flow style
/// (mapping)".
pub const MAGIC_FLOW_MAP: &'static str = "__noya_flow_map";

/// Newtype-struct name the serializer reads as "emit as a literal
/// block scalar".
pub const MAGIC_LIT_STR: &'static str = "__noya_lit_str";

/// Newtype-struct name the serializer reads as "emit as a folded block
/// scalar".
pub const MAGIC_FOLD_STR: &'static str = "__noya_fold_str";

/// Newtype-struct name the serializer reads as "emit with a trailing
/// comment".
pub const MAGIC_COMMENTED: &'static str = "__noya_commented";

/// Newtype-struct name the serializer reads as "emit a blank line
/// after".
pub const MAGIC_SPACE_AFTER: &'static str = "__noya_space_after";



/// Emit the wrapped sequence in flow style (`[a, b, c]`).
#[derive(Clone, PartialEq, Eq, Hash, Debug)]
pub struct FlowSeq<T>(pub T);

impl<T> FlowSeq<T> {
    /// The wrapped value.
    pub fn into_inner(self) -> (v: T)
        ensures
            v == self.0,
    {
        self.0
    }
}

/// Emit the wrapped mapping in flow style (`{a: 1, b: 2}`).
#[derive(Clone, PartialEq, Eq, Hash, Debug)]
pub struct FlowMap<T>(pub T);

impl<T> FlowMap<T> {
    /// The wrapped value.
    pub fn into_inner(self) -> (v: T)
        ensures
            v == self.0,
    {
        self.0
    }
}

/// Emit the borrowed string as a literal block scalar (`|`).
#[derive(Clone, PartialEq, Eq, Hash, Debug)]
pub struct LitStr<'a>(pub &'a str);

impl<'a> LitStr<'a> {
    /// The wrapped string.
    pub fn as_str(&self) -> (s: &str)
        ensures
            s == self.0,
    {
        self.0
    }

    /// The wrapped string.
    pub fn into_inner(self) -> (s: &'a str)
        ensures
            s == self.0,
    {
        self.0
    }
}

/// Emit the owned string as a literal block scalar (`|`).
#[derive(Clone, PartialEq, Eq, Hash, Debug)]
pub struct LitString(pub String);

impl LitString {
    /// The wrapped string.
    pub fn into_inner(self) -> (s: String)
        ensures
            s == self.0,
    {
        self.0
    }
}

/// Emit the borrowed string as a folded block scalar (`>`).
#[derive(Clone, PartialEq, Eq, Hash, Debug)]
pub struct FoldStr<'a>(pub &'a str);

impl<'a> FoldStr<'a> {
    /// The wrapped string.
    pub fn as_str(&self) -> (s: &str)
        ensures
            s == self.0,
    {
        self.0
    }

    /// The wrapped string.
    pub fn into_inner(self) -> (s: &'a str)
        ensures
            s == self.0,
    {
        self.0
    }
}

/// Emit the owned string as a folded block scalar (`>`).
#[derive(Clone, PartialEq, Eq, Hash, Debug)]
pub struct FoldString(pub String);

impl FoldString {
    /// The wrapped string.
    pub fn into_inner(self) -> (s: String)
        ensures
            s == self.0,
    {
        self.0
    }
}

/// A value with a comment emitted after it. The comment is output
/// metadata only: reading YAML back gives an empty comment.
#[derive(Clone, PartialEq, Eq, Hash, Debug)]
pub struct Commented<T> {
    /// The wrapped value.
    pub value: T,
    /// The comment text (without the leading `#`).
    pub comment: String,
}

impl<T> Commented<T> {
    /// Wrap `value` with `comment`.
    pub fn new(value: T, comment: String) -> (c: Self)
        ensures
            c.value == value,
            c.comment == comment,
    {
        Commented { value, comment }
    }

    /// The wrapped value.
    pub fn into_inner(self) -> (v: T)
        ensures
            v == self.value,
    {
        self.value
    }
}

/// Emit a blank line after the wrapped value.
#[derive(Clone, PartialEq, Eq, Hash, Debug)]
pub struct SpaceAfter<T>(pub T);

impl<T> SpaceAfter<T> {
    /// The wrapped value.
    pub fn into_inner(self) -> (v: T)
        ensures
            v == self.0,
    {
        self.0
    }
}

} // verus!
