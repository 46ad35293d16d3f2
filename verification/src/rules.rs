use vstd::prelude::*;
use crate::chars::{is_digit_in, is_identifier_char};
use crate::errors::LexError;
use crate::number::parsed_integer;
use crate::token::{SpannedTokenView, TokenView};

verus! {

/// What reading one token, blank or comment amounts to. `Emit` and `Skip`
/// give the number of characters taken after the first; `Fail` gives the
/// error and the offset at which reading stops.
pub ghost enum Step {
    Emit(TokenView, nat),
    Skip(nat),
    Fail(LexError, int),
}

impl Step {
    /// The number of characters taken after the first; zero for a failure.
    pub open spec fn more(self) -> nat {
        match self {
            Step::Emit(_, more) => more,
            Step::Skip(more) => more,
            Step::Fail(_, _) => 0,
        }
    }
}

/// The digits of a base, as a class of characters.
pub open spec fn digits_of(radix: int) -> spec_fn(char) -> bool {
    |c: char| is_digit_in(c, radix)
}

/// The characters that may stand in an identifier.
pub open spec fn identifier_chars() -> spec_fn(char) -> bool {
    |c: char| is_identifier_char(c)
}

/// Every character but one.
pub open spec fn all_but(stop: char) -> spec_fn(char) -> bool {
    |c: char| c != stop
}

/// How many characters from offset `i` on belong to `class` without a gap.
pub open spec fn run_len(s: Seq<char>, i: int, class: spec_fn(char) -> bool) -> nat
    decreases s.len() - i,
{
    if 0 <= i < s.len() && class(s[i]) {
        1 + run_len(s, i + 1, class)
    } else {
        0
    }
}

/// Whether the character at offset `i` exists and is `c`.
pub open spec fn next_is(s: Seq<char>, i: int, c: char) -> bool {
    0 <= i < s.len() && s[i] == c
}

/// The reserved word that a text spells, if it spells one.
pub open spec fn keyword_of(text: Seq<char>) -> Option<TokenView> {
    if text == seq!['f', 'u', 'n'] {
        Some(TokenView::Fun)
    } else if text == seq!['f', 'o', 'r'] {
        Some(TokenView::For)
    } else if text == seq!['m', 'a', 't', 'c', 'h'] {
        Some(TokenView::Match)
    } else if text == seq!['u', 's', 'e'] {
        Some(TokenView::Use)
    } else if text == seq!['s', 't', 'r', 'u', 'c', 't'] {
        Some(TokenView::Struct)
    } else if text == seq!['e', 'n', 'u', 'm'] {
        Some(TokenView::Enum)
    } else if text == seq!['l', 'e', 't'] {
        Some(TokenView::Let)
    } else if text == seq!['p', 'u', 'b'] {
        Some(TokenView::Pub)
    } else if text == seq!['p', 'r', 'i', 'v'] {
        Some(TokenView::Priv)
    } else if text == seq!['m', 'o', 'd', 'u', 'l', 'e'] {
        Some(TokenView::Mod)
    } else {
        None
    }
}

/// An operator that becomes another one when `=` follows it.
pub open spec fn with_equals(s: Seq<char>, i: int, compound: TokenView, plain: TokenView) -> Step {
    if next_is(s, i + 1, '=') {
        Step::Emit(compound, 1)
    } else {
        Step::Emit(plain, 0)
    }
}

/// An operator that exists only doubled, as `&&` and `||` do.
pub open spec fn doubled(s: Seq<char>, i: int, token: TokenView) -> Step {
    if next_is(s, i + 1, s[i]) {
        Step::Emit(token, 1)
    } else {
        Step::Fail(LexError::UnsupportedCharacter(s[i], i as usize), i + 1)
    }
}

/// A comment: two strokes and everything through the end of the line.
pub open spec fn slash_comment(s: Seq<char>, i: int) -> Step {
    let n = run_len(s, i + 2, all_but('\n'));
    if i + 2 + n < s.len() {
        Step::Skip(n + 2)
    } else {
        Step::Fail(LexError::UnexpectedEof, s.len() as int)
    }
}

/// `/`, `/=`, or a comment.
pub open spec fn slash(s: Seq<char>, i: int) -> Step {
    if next_is(s, i + 1, '/') {
        slash_comment(s, i)
    } else {
        with_equals(s, i, TokenView::CompoundSlash, TokenView::Slash)
    }
}

/// A text between two double quotes, taken as it stands.
pub open spec fn string_literal(s: Seq<char>, i: int) -> Step {
    let n = run_len(s, i + 1, all_but('"'));
    if i + 1 + n < s.len() {
        Step::Emit(TokenView::String(s.subrange(i + 1, i + 1 + n)), n + 1)
    } else {
        Step::Fail(LexError::UnexpectedEof, s.len() as int)
    }
}

/// A number written with a two-character prefix and digits of its base.
pub open spec fn radix_number(s: Seq<char>, i: int, radix: int) -> Step {
    let n = run_len(s, i + 2, digits_of(radix));
    match parsed_integer(s.subrange(i + 2, i + 2 + n), radix) {
        Some(value) => Step::Emit(TokenView::Integer(value), n + 1),
        None => Step::Fail(LexError::FailedToParseNumber, i + 2 + n),
    }
}

/// A decimal number: digits, and at most one point with digits behind it.
pub open spec fn decimal_number(s: Seq<char>, i: int) -> Step {
    let whole = run_len(s, i + 1, digits_of(10));
    if next_is(s, i + 1 + whole, '.') {
        let fraction = run_len(s, i + 2 + whole, digits_of(10));
        if next_is(s, i + 2 + whole + fraction, '.') {
            Step::Fail(LexError::FailedToParseNumber, i + 2 + whole + fraction)
        } else {
            Step::Emit(
                TokenView::Float(s.subrange(i, i + 2 + whole + fraction)),
                whole + 1 + fraction,
            )
        }
    } else {
        match parsed_integer(s.subrange(i, i + 1 + whole), 10) {
            Some(value) => Step::Emit(TokenView::Integer(value), whole),
            None => Step::Fail(LexError::FailedToParseNumber, i + 1 + whole),
        }
    }
}

/// A number, told apart by how it begins.
pub open spec fn number(s: Seq<char>, i: int) -> Step {
    if s[i] == '0' && next_is(s, i + 1, 'x') {
        radix_number(s, i, 16)
    } else if s[i] == '0' && next_is(s, i + 1, 'b') {
        radix_number(s, i, 2)
    } else if s[i] == '0' && next_is(s, i + 1, 'o') {
        radix_number(s, i, 8)
    } else {
        decimal_number(s, i)
    }
}

/// A reserved word or an identifier.
pub open spec fn word(s: Seq<char>, i: int) -> Step {
    let n = run_len(s, i + 1, identifier_chars());
    let text = s.subrange(i, i + 1 + n);
    match keyword_of(text) {
        Some(keyword) => Step::Emit(keyword, n),
        None => Step::Emit(TokenView::Identifier(text), n),
    }
}

/// Whether a character only separates tokens.
pub open spec fn is_blank(c: char) -> bool {
    c == ' ' || c == '\t' || c == '\n' || c == '\0'
}

/// The token that a character is by itself, whatever follows it.
pub open spec fn single(c: char) -> Option<TokenView> {
    if c == ':' {
        Some(TokenView::Colon)
    } else if c == ';' {
        Some(TokenView::Semicolon)
    } else if c == '^' {
        Some(TokenView::Xor)
    } else if c == '[' {
        Some(TokenView::LeftSquareBracket)
    } else if c == ']' {
        Some(TokenView::RightSquareBracket)
    } else if c == '(' {
        Some(TokenView::LeftParen)
    } else if c == ')' {
        Some(TokenView::RightParen)
    } else if c == '{' {
        Some(TokenView::LeftBrace)
    } else if c == '}' {
        Some(TokenView::RightBrace)
    } else if c == '.' {
        Some(TokenView::Dot)
    } else if c == ',' {
        Some(TokenView::Comma)
    } else {
        None
    }
}

/// For an operator that `=` may follow: the token that the two characters
/// make, and the token that the operator is alone.
pub open spec fn before_equals(c: char) -> Option<(TokenView, TokenView)> {
    if c == '+' {
        Some((TokenView::CompoundPlus, TokenView::Plus))
    } else if c == '-' {
        Some((TokenView::CompoundMinus, TokenView::Minus))
    } else if c == '*' {
        Some((TokenView::CompoundStar, TokenView::Star))
    } else if c == '!' {
        Some((TokenView::NotEquals, TokenView::Not))
    } else if c == '=' {
        Some((TokenView::Equals, TokenView::Assign))
    } else if c == '>' {
        Some((TokenView::GreaterEquals, TokenView::Greater))
    } else if c == '<' {
        Some((TokenView::LessEquals, TokenView::Less))
    } else {
        None
    }
}

/// What the character at offset `i` begins.
pub open spec fn step_at(s: Seq<char>, i: int) -> Step
    recommends
        0 <= i < s.len(),
{
    let c = s[i];
    if let Some(token) = single(c) {
        Step::Emit(token, 0)
    } else if let Some(pair) = before_equals(c) {
        with_equals(s, i, pair.0, pair.1)
    } else if c == '/' {
        slash(s, i)
    } else if c == '&' {
        doubled(s, i, TokenView::And)
    } else if c == '|' {
        doubled(s, i, TokenView::Or)
    } else if c == '"' {
        string_literal(s, i)
    } else if is_blank(c) {
        Step::Skip(0)
    } else if is_digit_in(c, 10) {
        number(s, i)
    } else if is_identifier_char(c) {
        word(s, i)
    } else {
        Step::Fail(LexError::UnsupportedCharacter(c, i as usize), i + 1)
    }
}

/// How many characters stand at offset `i` and after it.
pub open spec fn remaining(s: Seq<char>, i: int) -> nat {
    if 0 <= i <= s.len() {
        (s.len() - i) as nat
    } else {
        0
    }
}

/// The tokens from offset `i` to the end of the text, or the first error.
pub open spec fn lex_from(s: Seq<char>, i: int) -> Result<Seq<SpannedTokenView>, LexError>
    decreases remaining(s, i),
{
    if !(0 <= i < s.len()) {
        Ok(Seq::empty())
    } else {
        let step = step_at(s, i);
        let next = i + 1 + step.more();
        match step {
            Step::Fail(error, _) => Err(error),
            Step::Skip(_) => lex_from(s, next),
            Step::Emit(token, _) => match lex_from(s, next) {
                Ok(rest) => Ok(seq![SpannedTokenView { token, start: i, end: next }] + rest),
                Err(error) => Err(error),
            },
        }
    }
}

/// The offset at which reading from offset `i` comes to rest: the end of the
/// text, or the place where the first error was met.
pub open spec fn stop_from(s: Seq<char>, i: int) -> int
    decreases remaining(s, i),
{
    if !(0 <= i < s.len()) {
        i
    } else {
        let step = step_at(s, i);
        match step {
            Step::Fail(_, at) => at,
            _ => stop_from(s, i + 1 + step.more()),
        }
    }
}

/// The tokens of a whole text, or the first error in it.
pub open spec fn lex(s: Seq<char>) -> Result<Seq<SpannedTokenView>, LexError> {
    lex_from(s, 0)
}

/// How many line ends stand before offset `i`.
pub open spec fn line_of(s: Seq<char>, i: int) -> nat
    decreases i,
{
    if i <= 0 || i > s.len() {
        0
    } else if s[i - 1] == '\n' {
        line_of(s, i - 1) + 1
    } else {
        line_of(s, i - 1)
    }
}

/// How many characters stand between the last line end before offset `i`
/// and that offset.
pub open spec fn column_of(s: Seq<char>, i: int) -> nat
    decreases i,
{
    if i <= 0 || i > s.len() {
        0
    } else if s[i - 1] == '\n' {
        0
    } else {
        column_of(s, i - 1) + 1
    }
}

/// Neither count exceeds the offset it is taken at.
pub proof fn lemma_line_column_bounded(s: Seq<char>, i: int)
    ensures
        line_of(s, i) <= i || i < 0,
        column_of(s, i) <= i || i < 0,
    decreases i,
{
    if 0 < i <= s.len() {
        lemma_line_column_bounded(s, i - 1);
    }
}

/// A run ends inside the text.
pub proof fn lemma_run_within(s: Seq<char>, i: int, class: spec_fn(char) -> bool)
    requires
        0 <= i <= s.len(),
    ensures
        i + run_len(s, i, class) <= s.len(),
        forall|k: int| i <= k < i + run_len(s, i, class) ==> class(#[trigger] s[k]),
        i + run_len(s, i, class) < s.len() ==> !class(s[i + run_len(s, i, class)]),
    decreases s.len() - i,
{
    if i < s.len() && class(s[i]) {
        lemma_run_within(s, i + 1, class);
    }
}

/// No step reaches beyond the end of the text.
pub proof fn lemma_step_within(s: Seq<char>, i: int)
    requires
        0 <= i < s.len(),
    ensures
        match step_at(s, i) {
            Step::Emit(_, more) => i + 1 + more <= s.len(),
            Step::Skip(more) => i + 1 + more <= s.len(),
            Step::Fail(_, at) => i < at <= s.len(),
        },
{
    lemma_run_within(s, i + 1, all_but('"'));
    lemma_run_within(s, i + 1, digits_of(10));
    lemma_run_within(s, i + 1, identifier_chars());
    if i + 1 < s.len() {
        lemma_run_within(s, i + 2, all_but('\n'));
        lemma_run_within(s, i + 2, digits_of(16));
        lemma_run_within(s, i + 2, digits_of(2));
        lemma_run_within(s, i + 2, digits_of(8));
        let whole = run_len(s, i + 1, digits_of(10));
        if i + 1 + whole < s.len() {
            lemma_run_within(s, i + 2 + whole, digits_of(10));
        }
    }
}

/// Reading comes to rest inside the text.
pub proof fn lemma_stop_within(s: Seq<char>, i: int)
    requires
        0 <= i <= s.len(),
    ensures
        i <= stop_from(s, i) <= s.len(),
        lex_from(s, i).is_ok() ==> stop_from(s, i) == s.len(),
    decreases s.len() - i,
{
    if i < s.len() {
        lemma_step_within(s, i);
        match step_at(s, i) {
            Step::Fail(_, _) => {},
            Step::Skip(more) => lemma_stop_within(s, i + 1 + more),
            Step::Emit(_, more) => lemma_stop_within(s, i + 1 + more),
        }
    }
}

} // verus!
