//! The passive data model: token kinds, tokens, and the error taxonomy.

use vstd::prelude::*;

verus! {

/// The kind of JSON element a token describes.
#[derive(Debug, Copy, Clone, PartialEq, Eq, Structural)]
pub enum TokenKind {
    /// An unused slot in the token pool.
    Undefined,
    /// A `{ ... }` container.
    Object,
    /// A `[ ... ]` container.
    Array,
    /// A string; its range excludes the surrounding quotes.
    Str,
    /// Any other value (number, boolean, `null`), kept as a raw byte range.
    Primitive,
}

impl Default for TokenKind {
    fn default() -> (r: Self)
        ensures
            r == TokenKind::Undefined,
    {
        TokenKind::Undefined
    }
}

/// One JSON element: its kind, its byte range in the input, and the count of
/// immediate child tokens attributed to it.
///
/// `end == -1` marks a token that is still open (its closing bracket has not
/// been seen yet); `start == -1 && end == -1` marks an unused pool slot.
#[derive(Debug, Copy, Clone, PartialEq, Eq, Structural)]
pub struct Token {
    pub kind: TokenKind,
    pub start: isize,
    pub end: isize,
    pub size: usize,
}

/// The mathematical image of a [`Token`]: the same fields over unbounded
/// integers, which the specification model and the contracts speak of.
pub ghost struct SpecToken {
    pub kind: TokenKind,
    pub start: int,
    pub end: int,
    pub size: int,
}

impl View for Token {
    type V = SpecToken;

    open spec fn view(&self) -> SpecToken {
        SpecToken {
            kind: self.kind,
            start: self.start as int,
            end: self.end as int,
            size: self.size as int,
        }
    }
}

impl Token {
    /// A token with the given kind and range and no children.
    pub fn new(kind: TokenKind, start: isize, end: isize) -> (r: Self)
        ensures
            r@ == (SpecToken { kind, start: start as int, end: end as int, size: 0 }),
    {
        Self::with_size(kind, start, end, 0)
    }

    /// A token with the given kind, range and child count.
    pub fn with_size(kind: TokenKind, start: isize, end: isize, size: usize) -> (r: Self)
        ensures
            r@ == (SpecToken { kind, start: start as int, end: end as int, size: size as int }),
    {
        Self { kind, start, end, size }
    }
}

impl Default for Token {
    fn default() -> (r: Self)
        ensures
            r@ == (SpecToken { kind: TokenKind::Undefined, start: 0, end: 0, size: 0 }),
    {
        Self { kind: TokenKind::Undefined, start: 0, end: 0, size: 0 }
    }
}

/// The mathematical image of a whole token pool.
pub open spec fn toks_view(ts: Seq<Token>) -> Seq<SpecToken> {
    ts.map_values(|t: Token| t@)
}

/// The image of a pool has the pool's length.
pub broadcast proof fn lemma_toks_view_len(ts: Seq<Token>)
    ensures
        #[trigger] toks_view(ts).len() == ts.len(),
{
}

/// The image of a pool holds the image of each of its tokens.
pub broadcast proof fn lemma_toks_view_index(ts: Seq<Token>, i: int)
    requires
        0 <= i < ts.len(),
    ensures
        #[trigger] toks_view(ts)[i] == ts[i]@,
{
}

/// Replacing one token of a pool replaces its image in the pool's image.
pub broadcast proof fn lemma_toks_view_update(ts: Seq<Token>, i: int, t: Token)
    requires
        0 <= i < ts.len(),
    ensures
        #[trigger] toks_view(ts.update(i, t)) == toks_view(ts).update(i, t@),
{
    assert(toks_view(ts.update(i, t)) =~= toks_view(ts).update(i, t@));
}

/// Why a call to [`crate::JsonParser::parse`] did not return a token count.
#[derive(Debug, Copy, Clone, PartialEq, Eq, Structural)]
pub enum Error {
    /// The input is not a full JSON packet; more bytes are expected.
    Part,
    /// The input cannot be JSON: mismatched brackets, an illegal byte inside
    /// a primitive, a bad escape, or an unexpected character.
    Invalid,
    /// The token pool is exhausted; a larger token array is needed.
    NoMemory,
}

} // verus!
