use vstd::prelude::*;

verus! {

/// One lexical unit.
///
/// A `Float` carries the text of its literal, digits and point, exactly as
/// written: turning that into a binary floating-point number is left to the
/// reader of the token.
#[derive(Debug, Clone, PartialEq)]
pub enum Token {
    Fun,
    Module,
    Use,
    Struct,
    LeftParen,
    RightParen,
    Priv,
    Pub,
    Colon,
    Semicolon,
    LeftBrace,
    RightBrace,
    Assign,
    CompoundPlus,
    CompoundMinus,
    CompoundStar,
    CompoundSlash,
    CompoundMod,
    Let,
    LeftSquareBracket,
    RightSquareBracket,
    Star,
    Slash,
    Plus,
    Minus,
    Mod,
    Match,
    And,
    Or,
    Xor,
    Enum,
    LeftArrow,
    RightArrow,
    Greater,
    Less,
    Equals,
    NotEquals,
    LessEquals,
    GreaterEquals,
    Comma,
    Dot,
    Not,
    Integer(i64),
    Float(String),
    Identifier(String),
    String(String),
    Boolean(bool),
    For,
}

/// What a `Token` is, mathematically: the same alternatives, with texts as
/// sequences of characters and integers unbounded.
pub ghost enum TokenView {
    Fun,
    Module,
    Use,
    Struct,
    LeftParen,
    RightParen,
    Priv,
    Pub,
    Colon,
    Semicolon,
    LeftBrace,
    RightBrace,
    Assign,
    CompoundPlus,
    CompoundMinus,
    CompoundStar,
    CompoundSlash,
    CompoundMod,
    Let,
    LeftSquareBracket,
    RightSquareBracket,
    Star,
    Slash,
    Plus,
    Minus,
    Mod,
    Match,
    And,
    Or,
    Xor,
    Enum,
    LeftArrow,
    RightArrow,
    Greater,
    Less,
    Equals,
    NotEquals,
    LessEquals,
    GreaterEquals,
    Comma,
    Dot,
    Not,
    Integer(int),
    Float(Seq<char>),
    Identifier(Seq<char>),
    String(Seq<char>),
    Boolean(bool),
    For,
}

impl View for Token {
    type V = TokenView;

    open spec fn view(&self) -> TokenView {
        match *self {
            Token::Fun => TokenView::Fun,
            Token::Module => TokenView::Module,
            Token::Use => TokenView::Use,
            Token::Struct => TokenView::Struct,
            Token::LeftParen => TokenView::LeftParen,
            Token::RightParen => TokenView::RightParen,
            Token::Priv => TokenView::Priv,
            Token::Pub => TokenView::Pub,
            Token::Colon => TokenView::Colon,
            Token::Semicolon => TokenView::Semicolon,
            Token::LeftBrace => TokenView::LeftBrace,
            Token::RightBrace => TokenView::RightBrace,
            Token::Assign => TokenView::Assign,
            Token::CompoundPlus => TokenView::CompoundPlus,
            Token::CompoundMinus => TokenView::CompoundMinus,
            Token::CompoundStar => TokenView::CompoundStar,
            Token::CompoundSlash => TokenView::CompoundSlash,
            Token::CompoundMod => TokenView::CompoundMod,
            Token::Let => TokenView::Let,
            Token::LeftSquareBracket => TokenView::LeftSquareBracket,
            Token::RightSquareBracket => TokenView::RightSquareBracket,
            Token::Star => TokenView::Star,
            Token::Slash => TokenView::Slash,
            Token::Plus => TokenView::Plus,
            Token::Minus => TokenView::Minus,
            Token::Mod => TokenView::Mod,
            Token::Match => TokenView::Match,
            Token::And => TokenView::And,
            Token::Or => TokenView::Or,
            Token::Xor => TokenView::Xor,
            Token::Enum => TokenView::Enum,
            Token::LeftArrow => TokenView::LeftArrow,
            Token::RightArrow => TokenView::RightArrow,
            Token::Greater => TokenView::Greater,
            Token::Less => TokenView::Less,
            Token::Equals => TokenView::Equals,
            Token::NotEquals => TokenView::NotEquals,
            Token::LessEquals => TokenView::LessEquals,
            Token::GreaterEquals => TokenView::GreaterEquals,
            Token::Comma => TokenView::Comma,
            Token::Dot => TokenView::Dot,
            Token::Not => TokenView::Not,
            Token::Integer(n) => TokenView::Integer(n as int),
            Token::Float(text) => TokenView::Float(text@),
            Token::Identifier(text) => TokenView::Identifier(text@),
            Token::String(text) => TokenView::String(text@),
            Token::Boolean(b) => TokenView::Boolean(b),
            Token::For => TokenView::For,
        }
    }
}

/// The half-open range of offsets `[start, end)` that a token covers.
#[derive(Debug, Clone, Copy, PartialEq, Eq)]
pub struct Span {
    pub start: usize,
    pub end: usize,
}

impl Span {
    /// A span does not end before it starts.
    pub open spec fn wf(self) -> bool {
        self.start <= self.end
    }

    pub fn new(start: usize, end: usize) -> (span: Span)
        ensures
            span.start == start,
            span.end == end,
    {
        Span { start, end }
    }
}

/// A token together with the place where it stands.
#[derive(Debug, Clone, PartialEq)]
pub struct SpannedToken {
    pub token: Token,
    pub span: Span,
}

/// What a `SpannedToken` is, mathematically.
pub ghost struct SpannedTokenView {
    pub token: TokenView,
    pub start: int,
    pub end: int,
}

impl View for SpannedToken {
    type V = SpannedTokenView;

    open spec fn view(&self) -> SpannedTokenView {
        SpannedTokenView { token: self.token@, start: self.span.start as int, end: self.span.end as int }
    }
}

impl SpannedToken {
    pub fn new(token: Token, span: Span) -> (spanned: SpannedToken)
        ensures
            spanned.token == token,
            spanned.span == span,
    {
        SpannedToken { token, span }
    }

    /// A token that covers the one character at `span_start`.
    pub fn new_single_char(token: Token, span_start: usize) -> (spanned: SpannedToken)
        requires
            span_start < usize::MAX,
        ensures
            spanned.token == token,
            spanned.span.start == span_start,
            spanned.span.end == span_start + 1,
    {
        SpannedToken { token, span: Span::new(span_start, span_start + 1) }
    }
}

/// The views of a sequence of tokens, one by one.
pub open spec fn views(tokens: Seq<SpannedToken>) -> Seq<SpannedTokenView> {
    tokens.map_values(|t: SpannedToken| t@)
}

/// The tokens of a sequence without their places.
pub open spec fn kinds(tokens: Seq<SpannedTokenView>) -> Seq<TokenView> {
    tokens.map_values(|t: SpannedTokenView| t.token)
}

} // verus!
