use vstd::prelude::*;

verus! {

/// Everything that can go wrong while turning text into tokens.
///
/// `Io` and `Utf8` describe failures of whoever acquired the text (a message,
/// and the number of bytes that were valid); the tokenizer itself never
/// produces them.
#[derive(Debug, Clone, PartialEq, Eq)]
pub enum LexError {
    Io(String),
    Utf8(usize),
    /// The input ended inside a token or a comment.
    UnexpectedEof,
    IndexOutOfRange,
    /// A numeric literal is malformed or does not fit in 64 signed bits.
    FailedToParseNumber,
    /// No rule starts with this character; the offset is where it stands.
    UnsupportedCharacter(char, usize),
}

impl LexError {
    /// Whether the tokenizer itself can report this error.
    pub open spec fn is_lexical(self) -> bool {
        match self {
            LexError::UnexpectedEof => true,
            LexError::FailedToParseNumber => true,
            LexError::UnsupportedCharacter(_, _) => true,
            _ => false,
        }
    }
}

} // verus!
