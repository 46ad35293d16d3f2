use vstd::prelude::*;
use crate::chars::{digit_in, identifier_char, push_char};
use crate::cursor::Cursor;
use crate::errors::LexError;
use crate::number::parse_integer;
use crate::rules::{
    all_but, before_equals, column_of, decimal_number, digits_of, identifier_chars, keyword_of,
    lemma_line_column_bounded, lemma_step_within, lemma_stop_within, lex_from, line_of, next_is,
    radix_number, run_len, single, slash_comment, step_at, stop_from, string_literal,
    with_equals, word, Step,
};
use crate::token::{views, Span, SpannedToken, SpannedTokenView, Token};

verus! {

/// Turns a text into tokens, keeping count of lines and columns on the way.
pub struct Lexer<'cursor> {
    line: usize,
    column: usize,
    cursor: Cursor<'cursor>,
    tokens: Vec<SpannedToken>,
}

/// What a `Lexer` is, mathematically: its text, how far it has read, the
/// line and column of that place, and the tokens it has gathered.
pub ghost struct LexerView {
    pub code: Seq<char>,
    pub position: int,
    pub line: int,
    pub column: int,
    pub buffered: Seq<SpannedTokenView>,
}

impl LexerView {
    /// The read position lies in the text, and line and column are those of
    /// the read position.
    pub open spec fn wf(self) -> bool {
        &&& 0 <= self.position <= self.code.len()
        &&& self.line == line_of(self.code, self.position)
        &&& self.column == column_of(self.code, self.position)
    }

    /// A lexer that has read nothing of `code` yet.
    pub open spec fn fresh(code: Seq<char>) -> LexerView {
        LexerView { code, position: 0, line: 0, column: 0, buffered: Seq::empty() }
    }

    /// The same lexer with its read position at `position`.
    pub open spec fn moved_to(self, position: int) -> LexerView {
        LexerView {
            position,
            line: line_of(self.code, position) as int,
            column: column_of(self.code, position) as int,
            ..self
        }
    }

    /// The same lexer with one more token gathered.
    pub open spec fn pushed(self, token: SpannedTokenView) -> LexerView {
        LexerView { buffered: self.buffered.push(token), ..self }
    }

    /// The same lexer with no token gathered.
    pub open spec fn emptied(self) -> LexerView {
        LexerView { buffered: Seq::empty(), ..self }
    }

    /// The lexer after `cleanup`: a new lexer on the same text.
    pub open spec fn cleaned(self) -> LexerView {
        LexerView::fresh(self.code)
    }

    /// What `tokenize` hands out: the tokens gathered before, then those of
    /// the text from the read position on; or the first error in that text.
    pub open spec fn handed_out(self) -> Result<Seq<SpannedTokenView>, LexError> {
        gathered(self.buffered, lex_from(self.code, self.position))
    }

    /// The lexer after `tokenize`: at rest where reading ended, with no
    /// token left in it.
    pub open spec fn after_tokenize(self) -> LexerView {
        self.moved_to(stop_from(self.code, self.position)).emptied()
    }

    /// The lexer after the step that begins at its read position.
    pub open spec fn after_step(self, step: Step) -> LexerView {
        let next = self.position + 1 + step.more();
        match step {
            Step::Emit(token, _) => self.moved_to(next).pushed(
                SpannedTokenView { token, start: self.position, end: next },
            ),
            Step::Skip(_) => self.moved_to(next),
            Step::Fail(_, at) => self.moved_to(at),
        }
    }

    /// How a scanner that was entered just behind a token's first character
    /// leaves the lexer, and what it hands back, when the token read from
    /// that character on is `step`.
    pub open spec fn scanned(
        self,
        after: LexerView,
        handed: Result<SpannedToken, LexError>,
        step: Step,
    ) -> bool {
        let start = self.position - 1;
        match step {
            Step::Emit(token, more) => {
                &&& after == self.moved_to(start + 1 + more)
                &&& handed is Ok
                &&& handed->Ok_0@ == SpannedTokenView { token, start, end: start + 1 + more }
            },
            Step::Skip(_) => false,
            Step::Fail(error, at) => after == self.moved_to(at) && handed == Err::<
                SpannedToken,
                LexError,
            >(error),
        }
    }
}

/// What a step hands to the caller: nothing, or its error.
pub open spec fn outcome(step: Step) -> Result<(), LexError> {
    match step {
        Step::Fail(error, _) => Err(error),
        _ => Ok(()),
    }
}

/// The tokens gathered so far, followed by what is still to come.
pub open spec fn gathered(
    buffered: Seq<SpannedTokenView>,
    coming: Result<Seq<SpannedTokenView>, LexError>,
) -> Result<Seq<SpannedTokenView>, LexError> {
    match coming {
        Ok(rest) => Ok(buffered + rest),
        Err(error) => Err(error),
    }
}

impl<'cursor> View for Lexer<'cursor> {
    type V = LexerView;

    closed spec fn view(&self) -> LexerView {
        LexerView {
            code: self.cursor.code@,
            position: self.cursor.current as int,
            line: self.line as int,
            column: self.column as int,
            buffered: views(self.tokens@),
        }
    }
}

/// The characters `code[from..to]` as a text of their own.
fn text_of(code: &[char], from: usize, to: usize) -> (text: String)
    requires
        from <= to <= code@.len(),
    ensures
        text@ == code@.subrange(from as int, to as int),
{
    let mut text = String::new();
    let mut k: usize = from;
    while k < to
        invariant
            from <= k <= to <= code@.len(),
            text@ == code@.subrange(from as int, k as int),
        decreases to - k,
    {
        push_char(&mut text, code[k]);
        k += 1;
        assert(text@ =~= code@.subrange(from as int, k as int));
    }
    text
}

/// The reserved word that `code[from..to]` spells, if it spells one.
fn keyword(code: &[char], from: usize, to: usize) -> (found: Option<Token>)
    requires
        from <= to <= code@.len(),
    ensures
        match keyword_of(code@.subrange(from as int, to as int)) {
            Some(word) => found is Some && found->Some_0@ == word,
            None => found is None,
        },
{
    let ghost text = code@.subrange(from as int, to as int);
    let n: usize = to - from;
    proof {
        assert(seq!['f', 'u', 'n'].len() == 3 && seq!['f', 'o', 'r'].len() == 3);
        assert(seq!['u', 's', 'e'].len() == 3 && seq!['l', 'e', 't'].len() == 3);
        assert(seq!['p', 'u', 'b'].len() == 3 && seq!['e', 'n', 'u', 'm'].len() == 4);
        assert(seq!['p', 'r', 'i', 'v'].len() == 4 && seq!['m', 'a', 't', 'c', 'h'].len() == 5);
        assert(seq!['s', 't', 'r', 'u', 'c', 't'].len() == 6);
        assert(seq!['m', 'o', 'd', 'u', 'l', 'e'].len() == 6);
    }
    if n == 3 {
        let a = code[from];
        let b = code[from + 1];
        let c = code[from + 2];
        assert(text[0] == a && text[1] == b && text[2] == c);
        assert(text =~= seq![a, b, c]);
        assert(seq!['f', 'u', 'n'][0] == 'f' && seq!['f', 'u', 'n'][1] == 'u' && seq!['f', 'u', 'n'][2] == 'n');
        assert(seq!['f', 'o', 'r'][0] == 'f' && seq!['f', 'o', 'r'][1] == 'o' && seq!['f', 'o', 'r'][2] == 'r');
        assert(seq!['u', 's', 'e'][0] == 'u' && seq!['u', 's', 'e'][1] == 's' && seq!['u', 's', 'e'][2] == 'e');
        assert(seq!['l', 'e', 't'][0] == 'l' && seq!['l', 'e', 't'][1] == 'e' && seq!['l', 'e', 't'][2] == 't');
        assert(seq!['p', 'u', 'b'][0] == 'p' && seq!['p', 'u', 'b'][1] == 'u' && seq!['p', 'u', 'b'][2] == 'b');
        if a == 'f' && b == 'u' && c == 'n' {
            Some(Token::Fun)
        } else if a == 'f' && b == 'o' && c == 'r' {
            Some(Token::For)
        } else if a == 'u' && b == 's' && c == 'e' {
            Some(Token::Use)
        } else if a == 'l' && b == 'e' && c == 't' {
            Some(Token::Let)
        } else if a == 'p' && b == 'u' && c == 'b' {
            Some(Token::Pub)
        } else {
            None
        }
    } else if n == 4 {
        let a = code[from];
        let b = code[from + 1];
        let c = code[from + 2];
        let d = code[from + 3];
        assert(text[0] == a && text[1] == b && text[2] == c && text[3] == d);
        assert(text =~= seq![a, b, c, d]);
        assert(seq!['e', 'n', 'u', 'm'][0] == 'e' && seq!['e', 'n', 'u', 'm'][1] == 'n'
            && seq!['e', 'n', 'u', 'm'][2] == 'u' && seq!['e', 'n', 'u', 'm'][3] == 'm');
        assert(seq!['p', 'r', 'i', 'v'][0] == 'p' && seq!['p', 'r', 'i', 'v'][1] == 'r'
            && seq!['p', 'r', 'i', 'v'][2] == 'i' && seq!['p', 'r', 'i', 'v'][3] == 'v');
        if a == 'e' && b == 'n' && c == 'u' && d == 'm' {
            Some(Token::Enum)
        } else if a == 'p' && b == 'r' && c == 'i' && d == 'v' {
            Some(Token::Priv)
        } else {
            None
        }
    } else if n == 5 {
        let a = code[from];
        let b = code[from + 1];
        let c = code[from + 2];
        let d = code[from + 3];
        let e = code[from + 4];
        assert(text[0] == a && text[1] == b && text[2] == c && text[3] == d && text[4] == e);
        assert(text =~= seq![a, b, c, d, e]);
        let ghost the_match = seq!['m', 'a', 't', 'c', 'h'];
        assert(the_match[0] == 'm' && the_match[1] == 'a' && the_match[2] == 't'
            && the_match[3] == 'c' && the_match[4] == 'h');
        if a == 'm' && b == 'a' && c == 't' && d == 'c' && e == 'h' {
            Some(Token::Match)
        } else {
            None
        }
    } else if n == 6 {
        let a = code[from];
        let b = code[from + 1];
        let c = code[from + 2];
        let d = code[from + 3];
        let e = code[from + 4];
        let f = code[from + 5];
        assert(text[0] == a && text[1] == b && text[2] == c && text[3] == d && text[4] == e
            && text[5] == f);
        assert(text =~= seq![a, b, c, d, e, f]);
        let ghost the_struct = seq!['s', 't', 'r', 'u', 'c', 't'];
        let ghost the_module = seq!['m', 'o', 'd', 'u', 'l', 'e'];
        assert(the_struct[0] == 's' && the_struct[1] == 't' && the_struct[2] == 'r'
            && the_struct[3] == 'u' && the_struct[4] == 'c' && the_struct[5] == 't');
        assert(the_module[0] == 'm' && the_module[1] == 'o' && the_module[2] == 'd'
            && the_module[3] == 'u' && the_module[4] == 'l' && the_module[5] == 'e');
        if a == 's' && b == 't' && c == 'r' && d == 'u' && e == 'c' && f == 't' {
            Some(Token::Struct)
        } else if a == 'm' && b == 'o' && c == 'd' && d == 'u' && e == 'l' && f == 'e' {
            Some(Token::Mod)
        } else {
            None
        }
    } else {
        None
    }
}

/// The token that a character is by itself, if it is one.
fn single_token(c: char) -> (found: Option<Token>)
    ensures
        match single(c) {
            Some(token) => found is Some && found->Some_0@ == token,
            None => found is None,
        },
{
    if c == ':' {
        Some(Token::Colon)
    } else if c == ';' {
        Some(Token::Semicolon)
    } else if c == '^' {
        Some(Token::Xor)
    } else if c == '[' {
        Some(Token::LeftSquareBracket)
    } else if c == ']' {
        Some(Token::RightSquareBracket)
    } else if c == '(' {
        Some(Token::LeftParen)
    } else if c == ')' {
        Some(Token::RightParen)
    } else if c == '{' {
        Some(Token::LeftBrace)
    } else if c == '}' {
        Some(Token::RightBrace)
    } else if c == '.' {
        Some(Token::Dot)
    } else if c == ',' {
        Some(Token::Comma)
    } else {
        None
    }
}

/// For an operator that `=` may follow: the token that the two characters
/// make, and the token that the operator is alone.
fn tokens_before_equals(c: char) -> (found: Option<(Token, Token)>)
    ensures
        match before_equals(c) {
            Some(pair) => found is Some && found->Some_0.0@ == pair.0 && found->Some_0.1@
                == pair.1,
            None => found is None,
        },
{
    if c == '+' {
        Some((Token::CompoundPlus, Token::Plus))
    } else if c == '-' {
        Some((Token::CompoundMinus, Token::Minus))
    } else if c == '*' {
        Some((Token::CompoundStar, Token::Star))
    } else if c == '!' {
        Some((Token::NotEquals, Token::Not))
    } else if c == '=' {
        Some((Token::Equals, Token::Assign))
    } else if c == '>' {
        Some((Token::GreaterEquals, Token::Greater))
    } else if c == '<' {
        Some((Token::LessEquals, Token::Less))
    } else {
        None
    }
}

impl<'cursor> Lexer<'cursor> {
    /// A lexer at the beginning of `code`, with nothing gathered.
    pub fn new(code: &'cursor [char]) -> (lexer: Self)
        ensures
            lexer@ == LexerView::fresh(code@),
            lexer@.wf(),
    {
        let lexer = Lexer { line: 0, column: 0, cursor: Cursor::new(code), tokens: Vec::new() };
        assert(views(lexer.tokens@) =~= Seq::empty());
        lexer
    }

    /// The offset of the next character to read.
    pub fn position(&self) -> (position: usize)
        ensures
            position == self@.position,
    {
        self.cursor.current
    }

    /// The number of line ends read so far.
    pub fn line(&self) -> (line: usize)
        ensures
            line == self@.line,
    {
        self.line
    }

    /// The number of characters read since the last line end.
    pub fn column(&self) -> (column: usize)
        ensures
            column == self@.column,
    {
        self.column
    }

    /// Puts the lexer back to the beginning of its text, with nothing
    /// gathered: the state of a new lexer on that text.
    pub fn cleanup(&mut self)
        ensures
            final(self)@ == old(self)@.cleaned(),
            final(self)@.wf(),
    {
        self.cursor.current = 0;
        self.line = 0;
        self.column = 0;
        self.tokens.clear();
        assert(views(self.tokens@) =~= Seq::empty());
    }

    /// Reads one character and counts it.
    fn advance(&mut self) -> (read: Result<char, LexError>)
        requires
            old(self)@.wf(),
        ensures
            old(self)@.position < old(self)@.code.len() ==> read == Ok::<char, LexError>(
                old(self)@.code[old(self)@.position],
            ) && final(self)@ == old(self)@.moved_to(old(self)@.position + 1),
            old(self)@.position >= old(self)@.code.len() ==> read == Err::<char, LexError>(
                LexError::UnexpectedEof,
            ) && final(self)@ == old(self)@,
            final(self)@.wf(),
    {
        match self.cursor.peek() {
            None => Err(LexError::UnexpectedEof),
            Some(c) => {
                proof {
                    lemma_line_column_bounded(self@.code, self@.position);
                    self.cursor.lemma_text_fits();
                }
                self.cursor.current = self.cursor.current + 1;
                if c == '\n' {
                    self.line = self.line + 1;
                    self.column = 0;
                } else {
                    self.column = self.column + 1;
                }
                Ok(c)
            },
        }
    }

    /// Gathers a token that covers the one character just read.
    fn add_tk(&mut self, tk: Token)
        requires
            old(self)@.wf(),
            old(self)@.position >= 1,
        ensures
            final(self)@ == old(self)@.pushed(
                SpannedTokenView {
                    token: tk@,
                    start: old(self)@.position - 1,
                    end: old(self)@.position,
                },
            ),
    {
        let spanned = SpannedToken::new_single_char(tk, self.cursor.current - 1);
        self.add_spanned_tk(spanned);
    }

    /// Gathers a token.
    fn add_spanned_tk(&mut self, tk: SpannedToken)
        ensures
            final(self)@ == old(self)@.pushed(tk@),
    {
        self.tokens.push(tk);
        assert(views(self.tokens@) =~= views(old(self).tokens@).push(tk@));
    }

    /// Reads on for as long as digits of the given base follow.
    fn take_digits(&mut self, radix: u32)
        requires
            old(self)@.wf(),
        ensures
            final(self)@ == old(self)@.moved_to(
                old(self)@.position + run_len(
                    old(self)@.code,
                    old(self)@.position,
                    digits_of(radix as int),
                ),
            ),
            final(self)@.wf(),
    {
        let ghost before = self@;
        let ghost s = self@.code;
        let ghost class = digits_of(radix as int);
        loop
            invariant
                before.wf(),
                s == before.code,
                class == digits_of(radix as int),
                self@ == before.moved_to(self@.position),
                before.position <= self@.position <= s.len(),
                before.position + run_len(s, before.position, class) == self@.position + run_len(
                    s,
                    self@.position,
                    class,
                ),
            ensures
                run_len(s, self@.position, class) == 0,
            decreases s.len() - self@.position,
        {
            match self.cursor.peek() {
                None => {
                    break ;
                },
                Some(c) => {
                    if digit_in(c, radix) {
                        let _ = self.advance();
                    } else {
                        break ;
                    }
                },
            }
        }
    }

    /// Reads the rest of a text in double quotes, closing quote included.
    fn tokenize_string(&mut self) -> (handed: Result<SpannedToken, LexError>)
        requires
            old(self)@.wf(),
            old(self)@.position >= 1,
        ensures
            old(self)@.scanned(
                final(self)@,
                handed,
                string_literal(old(self)@.code, old(self)@.position - 1),
            ),
            final(self)@.wf(),
    {
        let ghost before = self@;
        let ghost s = self@.code;
        let ghost class = all_but('"');
        let from = self.cursor.current;
        let start = from - 1;
        loop
            invariant
                before.wf(),
                s == before.code,
                class == all_but('"'),
                before == old(self)@,
                from == before.position,
                start + 1 == from,
                self@ == before.moved_to(self@.position),
                from <= self@.position <= s.len(),
                from + run_len(s, from as int, class) == self@.position + run_len(
                    s,
                    self@.position,
                    class,
                ),
            decreases s.len() - self@.position,
        {
            match self.cursor.peek() {
                None => {
                    return Err(LexError::UnexpectedEof);
                },
                Some(c) => {
                    let to = self.cursor.current;
                    let _ = self.advance();
                    if c == '"' {
                        let text = text_of(self.cursor.code, from, to);
                        let span = Span::new(start, self.cursor.current);
                        return Ok(SpannedToken::new(Token::String(text), span));
                    }
                },
            }
        }
    }

    /// Skips a comment, from its second stroke through the end of its line.
    fn skip_comment(&mut self) -> (done: Result<(), LexError>)
        requires
            old(self)@.wf(),
            old(self)@.position >= 1,
            next_is(old(self)@.code, old(self)@.position, '/'),
        ensures
            final(self)@ == old(self)@.moved_to(old(self)@.position - 1).after_step(
                slash_comment(old(self)@.code, old(self)@.position - 1),
            ),
            done == outcome(slash_comment(old(self)@.code, old(self)@.position - 1)),
            final(self)@.wf(),
    {
        let ghost before = self@;
        let ghost s = self@.code;
        let ghost class = all_but('\n');
        let _ = self.advance();
        let ghost from = self@.position;
        loop
            invariant
                before.wf(),
                s == before.code,
                class == all_but('\n'),
                before == old(self)@,
                from == before.position + 1,
                self@ == before.moved_to(self@.position),
                from <= self@.position <= s.len(),
                from + run_len(s, from, class) == self@.position + run_len(
                    s,
                    self@.position,
                    class,
                ),
            decreases s.len() - self@.position,
        {
            match self.cursor.peek() {
                None => {
                    return Err(LexError::UnexpectedEof);
                },
                Some(c) => {
                    let _ = self.advance();
                    if c == '\n' {
                        return Ok(());
                    }
                },
            }
        }
    }

    /// Reads the rest of a number written with a prefix: the second
    /// character of the prefix, then the digits.
    fn tokenize_radix_number(&mut self, radix: u32) -> (handed: Result<SpannedToken, LexError>)
        requires
            old(self)@.wf(),
            1 <= old(self)@.position < old(self)@.code.len(),
            2 <= radix <= 36,
        ensures
            old(self)@.scanned(
                final(self)@,
                handed,
                radix_number(old(self)@.code, old(self)@.position - 1, radix as int),
            ),
            final(self)@.wf(),
    {
        let start = self.cursor.current - 1;
        let _ = self.advance();
        let from = self.cursor.current;
        self.take_digits(radix);
        let to = self.cursor.current;
        match parse_integer(self.cursor.code, from, to, radix) {
            Some(value) => Ok(SpannedToken::new(Token::Integer(value), Span::new(start, to))),
            None => Err(LexError::FailedToParseNumber),
        }
    }

    fn tokenize_hexadecimal_number(&mut self) -> (handed: Result<SpannedToken, LexError>)
        requires
            old(self)@.wf(),
            1 <= old(self)@.position < old(self)@.code.len(),
        ensures
            old(self)@.scanned(
                final(self)@,
                handed,
                radix_number(old(self)@.code, old(self)@.position - 1, 16),
            ),
            final(self)@.wf(),
    {
        self.tokenize_radix_number(16)
    }

    fn tokenize_binary_number(&mut self) -> (handed: Result<SpannedToken, LexError>)
        requires
            old(self)@.wf(),
            1 <= old(self)@.position < old(self)@.code.len(),
        ensures
            old(self)@.scanned(
                final(self)@,
                handed,
                radix_number(old(self)@.code, old(self)@.position - 1, 2),
            ),
            final(self)@.wf(),
    {
        self.tokenize_radix_number(2)
    }

    fn tokenize_octal_number(&mut self) -> (handed: Result<SpannedToken, LexError>)
        requires
            old(self)@.wf(),
            1 <= old(self)@.position < old(self)@.code.len(),
        ensures
            old(self)@.scanned(
                final(self)@,
                handed,
                radix_number(old(self)@.code, old(self)@.position - 1, 8),
            ),
            final(self)@.wf(),
    {
        self.tokenize_radix_number(8)
    }

    /// Reads the rest of a decimal number whose first digit was just read.
    fn tokenize_number(&mut self) -> (handed: Result<SpannedToken, LexError>)
        requires
            old(self)@.wf(),
            old(self)@.position >= 1,
        ensures
            old(self)@.scanned(
                final(self)@,
                handed,
                decimal_number(old(self)@.code, old(self)@.position - 1),
            ),
            final(self)@.wf(),
    {
        let start = self.cursor.current - 1;
        self.take_digits(10);
        let mid = self.cursor.current;
        let point = self.cursor.peek();
        if point.is_some() && point.unwrap() == '.' {
            let _ = self.advance();
            self.take_digits(10);
            let end = self.cursor.current;
            let second = self.cursor.peek();
            if second.is_some() && second.unwrap() == '.' {
                Err(LexError::FailedToParseNumber)
            } else {
                let text = text_of(self.cursor.code, start, end);
                Ok(SpannedToken::new(Token::Float(text), Span::new(start, end)))
            }
        } else {
            match parse_integer(self.cursor.code, start, mid, 10) {
                Some(value) => Ok(SpannedToken::new(Token::Integer(value), Span::new(start, mid))),
                None => Err(LexError::FailedToParseNumber),
            }
        }
    }

    /// Reads the rest of a word whose first character was just read, and
    /// tells reserved words from identifiers.
    fn tokenize_id(&mut self) -> (handed: Result<SpannedToken, LexError>)
        requires
            old(self)@.wf(),
            old(self)@.position >= 1,
        ensures
            old(self)@.scanned(
                final(self)@,
                handed,
                word(old(self)@.code, old(self)@.position - 1),
            ),
            final(self)@.wf(),
    {
        let ghost before = self@;
        let ghost s = self@.code;
        let ghost class = identifier_chars();
        let from = self.cursor.current;
        let start = from - 1;
        loop
            invariant
                before.wf(),
                s == before.code,
                class == identifier_chars(),
                from == before.position,
                self@ == before.moved_to(self@.position),
                from <= self@.position <= s.len(),
                from + run_len(s, from as int, class) == self@.position + run_len(
                    s,
                    self@.position,
                    class,
                ),
            ensures
                run_len(s, self@.position, class) == 0,
            decreases s.len() - self@.position,
        {
            match self.cursor.peek() {
                None => {
                    break ;
                },
                Some(c) => {
                    if identifier_char(c) {
                        let _ = self.advance();
                    } else {
                        break ;
                    }
                },
            }
        }
        let end = self.cursor.current;
        let span = Span::new(start, end);
        match keyword(self.cursor.code, start, end) {
            Some(reserved) => Ok(SpannedToken::new(reserved, span)),
            None => {
                let text = text_of(self.cursor.code, start, end);
                Ok(SpannedToken::new(Token::Identifier(text), span))
            },
        }
    }

    /// Gathers `compound` and reads one character more if `=` follows the
    /// character just read, and gathers `plain` if not.
    fn add_tk_or_compound(&mut self, compound: Token, plain: Token)
        requires
            old(self)@.wf(),
            old(self)@.position >= 1,
        ensures
            final(self)@ == old(self)@.moved_to(old(self)@.position - 1).after_step(
                with_equals(old(self)@.code, old(self)@.position - 1, compound@, plain@),
            ),
            final(self)@.wf(),
    {
        let next = self.cursor.peek();
        if next.is_some() && next.unwrap() == '=' {
            self.add_pair(compound);
        } else {
            self.add_tk(plain);
        }
    }

    /// Reads one character more and gathers a token that covers it and the
    /// character before it.
    fn add_pair(&mut self, tk: Token)
        requires
            old(self)@.wf(),
            1 <= old(self)@.position < old(self)@.code.len(),
        ensures
            final(self)@ == old(self)@.moved_to(old(self)@.position + 1).pushed(
                SpannedTokenView {
                    token: tk@,
                    start: old(self)@.position - 1,
                    end: old(self)@.position + 1,
                },
            ),
            final(self)@.wf(),
    {
        let start = self.cursor.current - 1;
        let _ = self.advance();
        self.add_spanned_tk(SpannedToken::new(tk, Span::new(start, self.cursor.current)));
    }

    /// Gathers a token that a scanner handed back, or passes its error on.
    fn settle(&mut self, handed: Result<SpannedToken, LexError>) -> (done: Result<(), LexError>)
        ensures
            match handed {
                Ok(tk) => final(self)@ == old(self)@.pushed(tk@) && done == Ok::<(), LexError>(()),
                Err(error) => final(self)@ == old(self)@ && done == Err::<(), LexError>(error),
            },
    {
        match handed {
            Ok(tk) => {
                self.add_spanned_tk(tk);
                Ok(())
            },
            Err(error) => Err(error),
        }
    }

    /// Reads one token, blank or comment.
    fn scan_token(&mut self) -> (done: Result<(), LexError>)
        requires
            old(self)@.wf(),
            old(self)@.position < old(self)@.code.len(),
        ensures
            final(self)@ == old(self)@.after_step(step_at(old(self)@.code, old(self)@.position)),
            done == outcome(step_at(old(self)@.code, old(self)@.position)),
            final(self)@.wf(),
    {
        let ghost s = self@.code;
        let start = self.cursor.current;
        proof {
            lemma_step_within(s, start as int);
            self.cursor.lemma_text_fits();
        }
        let c = match self.advance() {
            Ok(c) => c,
            Err(error) => {
                return Err(error);
            },
        };
        let next = self.cursor.peek();
        if let Some(tk) = single_token(c) {
            self.add_tk(tk);
            Ok(())
        } else if let Some(pair) = tokens_before_equals(c) {
            self.add_tk_or_compound(pair.0, pair.1);
            Ok(())
        } else if c == '/' {
            if next.is_some() && next.unwrap() == '/' {
                self.skip_comment()
            } else {
                self.add_tk_or_compound(Token::CompoundSlash, Token::Slash);
                Ok(())
            }
        } else if c == '&' || c == '|' {
            if next.is_some() && next.unwrap() == c {
                self.add_pair(if c == '&' { Token::And } else { Token::Or });
                Ok(())
            } else {
                Err(LexError::UnsupportedCharacter(c, start))
            }
        } else if c == '"' {
            let string = self.tokenize_string();
            self.settle(string)
        } else if c == ' ' || c == '\t' || c == '\n' || c == '\0' {
            Ok(())
        } else if digit_in(c, 10) {
            let prefixed = c == '0' && next.is_some();
            let number = if prefixed && next.unwrap() == 'x' {
                self.tokenize_hexadecimal_number()
            } else if prefixed && next.unwrap() == 'b' {
                self.tokenize_binary_number()
            } else if prefixed && next.unwrap() == 'o' {
                self.tokenize_octal_number()
            } else {
                self.tokenize_number()
            };
            self.settle(number)
        } else if identifier_char(c) {
            let id = self.tokenize_id();
            self.settle(id)
        } else {
            Err(LexError::UnsupportedCharacter(c, start))
        }
    }

    /// Reads the text from the read position to its end and hands out the
    /// tokens gathered, those that were gathered before the call first. At
    /// the first error it stops where the error was met and hands out the
    /// error alone. Either way no token stays behind in the lexer.
    pub fn tokenize(&mut self) -> (tokens: Result<Vec<SpannedToken>, LexError>)
        requires
            old(self)@.wf(),
        ensures
            final(self)@ == old(self)@.after_tokenize(),
            final(self)@.wf(),
            tokens is Ok ==> final(self)@.position == old(self)@.code.len(),
            match old(self)@.handed_out() {
                Ok(all) => tokens is Ok && views(tokens->Ok_0@) == all,
                Err(error) => tokens == Err::<Vec<SpannedToken>, LexError>(error),
            },
    {
        let ghost before = self@;
        let ghost s = self@.code;
        proof {
            lemma_stop_within(s, before.position);
            assert(before.buffered + Seq::<SpannedTokenView>::empty() =~= before.buffered);
        }
        while !self.cursor.is_at_end()
            invariant
                before.wf(),
                before == old(self)@,
                s == before.code,
                self@.wf(),
                self@.code == s,
                stop_from(s, self@.position) == stop_from(s, before.position),
                gathered(self@.buffered, lex_from(s, self@.position)) == gathered(
                    before.buffered,
                    lex_from(s, before.position),
                ),
            decreases s.len() - self@.position,
        {
            let ghost here = self@;
            let ghost step = step_at(s, here.position);
            proof {
                lemma_step_within(s, here.position);
                match lex_from(s, here.position + 1 + step.more()) {
                    Ok(rest) => {
                        let token = SpannedTokenView {
                            token: step->Emit_0,
                            start: here.position,
                            end: here.position + 1 + step.more(),
                        };
                        assert(here.buffered.push(token) + rest =~= here.buffered + (seq![token]
                            + rest));
                    },
                    Err(_) => {},
                }
            }
            match self.scan_token() {
                Ok(_) => {},
                Err(error) => {
                    self.tokens.clear();
                    assert(views(self.tokens@) =~= Seq::empty());
                    return Err(error);
                },
            }
        }
        let mut taken: Vec<SpannedToken> = Vec::new();
        std::mem::swap(&mut self.tokens, &mut taken);
        proof {
            assert(views(self.tokens@) =~= Seq::empty());
            assert(self@.buffered + Seq::<SpannedTokenView>::empty() =~= self@.buffered);
        }
        Ok(taken)
    }
}

} // verus!
