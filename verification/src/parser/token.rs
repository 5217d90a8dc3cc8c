//! The tokens the scanner produces and the parser consumes.
use vstd::prelude::*;

verus! {

/// A byte range of the input.
#[derive(Debug, Clone, Copy, PartialEq, Eq, Structural)]
pub struct Span {
    pub start: usize,
    pub end: usize,
}

/// How a scalar was written.
#[derive(Debug, Clone, Copy, PartialEq, Eq, Structural)]
pub enum ScalarStyle {
    Plain,
    SingleQuoted,
    DoubleQuoted,
    Literal,
    Folded,
}

/// A token's kind, with its text where it carries some.
#[derive(Debug)]
pub enum TokenKind {
    StreamStart,
    StreamEnd,
    DocumentStart,
    DocumentEnd,
    BlockSequenceStart,
    BlockMappingStart,
    BlockEnd,
    FlowSequenceStart,
    FlowSequenceEnd,
    FlowMappingStart,
    FlowMappingEnd,
    BlockEntry,
    FlowEntry,
    Key,
    Value,
    Anchor(String),
    Alias(String),
    Tag(String, String),
    Scalar(ScalarStyle, String),
}

impl Clone for TokenKind {
    fn clone(&self) -> (r: Self)
        ensures
            r == *self,
    {
        match self {
            TokenKind::StreamStart => TokenKind::StreamStart,
            TokenKind::StreamEnd => TokenKind::StreamEnd,
            TokenKind::DocumentStart => TokenKind::DocumentStart,
            TokenKind::DocumentEnd => TokenKind::DocumentEnd,
            TokenKind::BlockSequenceStart => TokenKind::BlockSequenceStart,
            TokenKind::BlockMappingStart => TokenKind::BlockMappingStart,
            TokenKind::BlockEnd => TokenKind::BlockEnd,
            TokenKind::FlowSequenceStart => TokenKind::FlowSequenceStart,
            TokenKind::FlowSequenceEnd => TokenKind::FlowSequenceEnd,
            TokenKind::FlowMappingStart => TokenKind::FlowMappingStart,
            TokenKind::FlowMappingEnd => TokenKind::FlowMappingEnd,
            TokenKind::BlockEntry => TokenKind::BlockEntry,
            TokenKind::FlowEntry => TokenKind::FlowEntry,
            TokenKind::Key => TokenKind::Key,
            TokenKind::Value => TokenKind::Value,
            TokenKind::Anchor(a) => TokenKind::Anchor(a.clone()),
            TokenKind::Alias(a) => TokenKind::Alias(a.clone()),
            TokenKind::Tag(h, s) => TokenKind::Tag(h.clone(), s.clone()),
            TokenKind::Scalar(st, v) => TokenKind::Scalar(*st, v.clone()),
        }
    }
}

/// A token and where it lies in the input.
#[derive(Debug)]
pub struct Token {
    pub kind: TokenKind,
    pub span: Span,
}

impl Clone for Token {
    fn clone(&self) -> (r: Self)
        ensures
            r == *self,
    {
        Token { kind: self.kind.clone(), span: self.span }
    }
}

/// Why scanning or parsing stopped, and where.
#[derive(Debug)]
pub struct ScanError {
    pub message: String,
    pub index: usize,
}

impl Clone for ScanError {
    fn clone(&self) -> (r: Self)
        ensures
            r == *self,
    {
        ScanError { message: self.message.clone(), index: self.index }
    }
}

} // verus!
