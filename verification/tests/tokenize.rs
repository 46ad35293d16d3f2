use tokenizer::chars::{digit_in, identifier_char, to_digit};
use tokenizer::cursor::Cursor;
use tokenizer::errors::LexError;
use tokenizer::lexer::Lexer;
use tokenizer::number::parse_integer;
use tokenizer::token::{Span, SpannedToken, Token};

fn chars(text: &str) -> Vec<char> {
    text.chars().collect::<Vec<char>>()
}

fn to_token_list(vector: Vec<SpannedToken>) -> Vec<Token> {
    let mut result: Vec<Token> = vec![];
    for element in vector {
        result.push(element.token);
    }
    result
}

fn lex(text: &str) -> Result<Vec<SpannedToken>, LexError> {
    let code = chars(text);
    let mut lexer = Lexer::new(&code);
    lexer.tokenize()
}

fn tokens(text: &str) -> Vec<Token> {
    to_token_list(lex(text).unwrap())
}

fn spans(text: &str) -> Vec<(usize, usize)> {
    lex(text).unwrap().iter().map(|t| (t.span.start, t.span.end)).collect()
}

fn float_value(token: &Token) -> f64 {
    match token {
        Token::Float(text) => text.parse::<f64>().unwrap(),
        other => panic!("not a float: {:?}", other),
    }
}

fn ident(text: &str) -> Token {
    Token::Identifier(text.to_string())
}

#[test]
pub fn number_tokenize() {
    let code = &"123456.7890".chars().collect::<Vec<char>>();
    let mut lexer = Lexer::new(code);
    let result = to_token_list(lexer.tokenize().unwrap());
    assert_eq!(result.len(), 1);
    assert_eq!(float_value(&result[0]), 123456.7890);
    assert_eq!(result, vec![Token::Float("123456.7890".to_string())]);
}

#[test]
pub fn binary_number_tokenize() {
    let code = &"0b1010101".chars().collect::<Vec<char>>();
    let mut lexer = Lexer::new(code);
    let result = to_token_list(lexer.tokenize().unwrap());
    assert_eq!(result, vec![Token::Integer(85)]);
}

#[test]
pub fn octal_number_tokenize() {
    let code = &"0o7777".chars().collect::<Vec<char>>();
    let mut lexer = Lexer::new(code);
    let result = to_token_list(lexer.tokenize().unwrap());
    assert_eq!(result, vec![Token::Integer(4095)]);
}

#[test]
pub fn string_tokenize() {
    let code = &"\"hello, world!\"".chars().collect::<Vec<char>>();
    let mut lexer = Lexer::new(code);
    let result = to_token_list(lexer.tokenize().unwrap());
    assert_eq!(result, vec![Token::String("hello, world!".to_string())]);
}

#[test]
pub fn keywords_tokenize() {
    let code = &"match a _ for".chars().collect::<Vec<char>>();
    let mut lexer = Lexer::new(code);
    let result = to_token_list(lexer.tokenize().unwrap());
    assert_eq!(
        result,
        vec![
            Token::Match,
            Token::Identifier("a".to_string()),
            Token::Identifier("_".to_string()),
            Token::For
        ]
    );
}

#[test]
pub fn keywords_tokenize_2() {
    let code = &"fun a(): int {}".chars().collect::<Vec<char>>();
    let mut lexer = Lexer::new(code);
    let result = to_token_list(lexer.tokenize().unwrap());
    assert_eq!(
        result,
        vec![
            Token::Fun,
            Token::Identifier("a".to_string()),
            Token::LeftParen,
            Token::RightParen,
            Token::Colon,
            Token::Identifier("int".to_string()),
            Token::LeftBrace,
            Token::RightBrace
        ]
    );
}

#[test]
fn empty_and_blank_input_give_no_token() {
    assert_eq!(tokens(""), vec![]);
    assert_eq!(tokens(" \t\n\0 "), vec![]);
}

#[test]
fn decimal_integers() {
    assert_eq!(tokens("0"), vec![Token::Integer(0)]);
    assert_eq!(tokens("123456"), vec![Token::Integer(123456)]);
    assert_eq!(tokens("007"), vec![Token::Integer(7)]);
    assert_eq!(tokens("9223372036854775807"), vec![Token::Integer(i64::MAX)]);
    assert_eq!(spans("123456"), vec![(0, 6)]);
}

#[test]
fn decimal_integer_overflow_fails() {
    assert_eq!(lex("9223372036854775808"), Err(LexError::FailedToParseNumber));
    assert_eq!(lex("99999999999999999999999999"), Err(LexError::FailedToParseNumber));
}

#[test]
fn floats_keep_their_text() {
    let result = tokens("3.25 1. 0.5");
    assert_eq!(result.len(), 3);
    assert_eq!(float_value(&result[0]), 3.25);
    assert_eq!(float_value(&result[1]), 1.0);
    assert_eq!(float_value(&result[2]), 0.5);
    assert_eq!(result[1], Token::Float("1.".to_string()));
    assert_eq!(spans("3.25 1. 0.5"), vec![(0, 4), (5, 7), (8, 11)]);
}

#[test]
fn second_point_fails() {
    assert_eq!(lex("1.2.3"), Err(LexError::FailedToParseNumber));
    assert_eq!(lex("1..2"), Err(LexError::FailedToParseNumber));
}

#[test]
fn leading_point_is_a_dot() {
    assert_eq!(tokens(".5"), vec![Token::Dot, Token::Integer(5)]);
}

#[test]
fn prefixed_integers() {
    assert_eq!(tokens("0xff"), vec![Token::Integer(255)]);
    assert_eq!(tokens("0xFF"), vec![Token::Integer(255)]);
    assert_eq!(tokens("0x7fffffffffffffff"), vec![Token::Integer(i64::MAX)]);
    assert_eq!(tokens("0b0"), vec![Token::Integer(0)]);
    assert_eq!(tokens("0o17"), vec![Token::Integer(15)]);
    assert_eq!(spans("0xff 0b101"), vec![(0, 4), (5, 10)]);
}

#[test]
fn prefix_without_digits_fails() {
    assert_eq!(lex("0x"), Err(LexError::FailedToParseNumber));
    assert_eq!(lex("0b"), Err(LexError::FailedToParseNumber));
    assert_eq!(lex("0o"), Err(LexError::FailedToParseNumber));
    assert_eq!(lex("0b2"), Err(LexError::FailedToParseNumber));
    assert_eq!(lex("0x "), Err(LexError::FailedToParseNumber));
}

#[test]
fn prefixed_overflow_fails() {
    assert_eq!(lex("0x8000000000000000"), Err(LexError::FailedToParseNumber));
}

#[test]
fn digits_end_where_the_base_ends() {
    assert_eq!(tokens("0o78"), vec![Token::Integer(7), Token::Integer(8)]);
    assert_eq!(tokens("0b12"), vec![Token::Integer(1), Token::Integer(2)]);
}

#[test]
fn unterminated_string_fails() {
    assert_eq!(lex("\"hello"), Err(LexError::UnexpectedEof));
    assert_eq!(lex("\""), Err(LexError::UnexpectedEof));
}

#[test]
fn strings_are_taken_raw() {
    assert_eq!(tokens("\"\""), vec![Token::String(String::new())]);
    assert_eq!(tokens("\"a\\n b\""), vec![Token::String("a\\n b".to_string())]);
    assert_eq!(spans("x \"ab\" y"), vec![(0, 1), (2, 6), (7, 8)]);
}

#[test]
fn single_character_tokens() {
    assert_eq!(
        tokens(": ; ^ [ ] ( ) { } . ,"),
        vec![
            Token::Colon,
            Token::Semicolon,
            Token::Xor,
            Token::LeftSquareBracket,
            Token::RightSquareBracket,
            Token::LeftParen,
            Token::RightParen,
            Token::LeftBrace,
            Token::RightBrace,
            Token::Dot,
            Token::Comma
        ]
    );
    assert_eq!(spans(":;"), vec![(0, 1), (1, 2)]);
}

#[test]
fn operators_alone_and_before_equals() {
    assert_eq!(
        tokens("+ - * / ! = > <"),
        vec![
            Token::Plus,
            Token::Minus,
            Token::Star,
            Token::Slash,
            Token::Not,
            Token::Assign,
            Token::Greater,
            Token::Less
        ]
    );
    assert_eq!(
        tokens("+= -= *= /= != == >= <="),
        vec![
            Token::CompoundPlus,
            Token::CompoundMinus,
            Token::CompoundStar,
            Token::CompoundSlash,
            Token::NotEquals,
            Token::Equals,
            Token::GreaterEquals,
            Token::LessEquals
        ]
    );
}

#[test]
fn two_character_operators_span_both_characters() {
    assert_eq!(spans("a += b"), vec![(0, 1), (2, 4), (5, 6)]);
    assert_eq!(spans("&&||"), vec![(0, 2), (2, 4)]);
    assert_eq!(tokens("==="), vec![Token::Equals, Token::Assign]);
}

#[test]
fn logical_operators_need_doubling() {
    assert_eq!(tokens("a && b || c"), vec![ident("a"), Token::And, ident("b"), Token::Or, ident("c")]);
    assert_eq!(lex("a & b"), Err(LexError::UnsupportedCharacter('&', 2)));
    assert_eq!(lex("|"), Err(LexError::UnsupportedCharacter('|', 0)));
    assert_eq!(lex("&|"), Err(LexError::UnsupportedCharacter('&', 0)));
}

#[test]
fn comments_are_skipped_through_the_line_end() {
    assert_eq!(tokens("a // b c\nd"), vec![ident("a"), ident("d")]);
    assert_eq!(tokens("//\n"), vec![]);
    assert_eq!(spans("// x\nyz"), vec![(5, 7)]);
}

#[test]
fn comment_without_line_end_fails() {
    assert_eq!(lex("a // b"), Err(LexError::UnexpectedEof));
}

#[test]
fn unsupported_characters_are_reported() {
    assert_eq!(lex("a # b"), Err(LexError::UnsupportedCharacter('#', 2)));
    assert_eq!(lex("%"), Err(LexError::UnsupportedCharacter('%', 0)));
    assert_eq!(lex("x\r\n"), Err(LexError::UnsupportedCharacter('\r', 1)));
    assert_eq!(lex("\u{20ac}"), Err(LexError::UnsupportedCharacter('\u{20ac}', 0)));
}

#[test]
fn all_reserved_words() {
    assert_eq!(
        tokens("fun for match use struct enum let pub priv module"),
        vec![
            Token::Fun,
            Token::For,
            Token::Match,
            Token::Use,
            Token::Struct,
            Token::Enum,
            Token::Let,
            Token::Pub,
            Token::Priv,
            Token::Mod
        ]
    );
}

#[test]
fn reserved_words_match_exactly() {
    assert_eq!(tokens("funs"), vec![ident("funs")]);
    assert_eq!(tokens("Fun"), vec![ident("Fun")]);
    assert_eq!(tokens("fo"), vec![ident("fo")]);
    assert_eq!(tokens("for_"), vec![ident("for_")]);
    assert_eq!(tokens("mod"), vec![ident("mod")]);
}

#[test]
fn identifiers_hold_no_digits() {
    assert_eq!(tokens("a1"), vec![ident("a"), Token::Integer(1)]);
    assert_eq!(tokens("1a"), vec![Token::Integer(1), ident("a")]);
}

#[test]
fn letters_beyond_ascii_stand_in_identifiers() {
    assert_eq!(tokens("\u{e9}t\u{e9} \u{3b1}_\u{3b2}"), vec![ident("\u{e9}t\u{e9}"), ident("\u{3b1}_\u{3b2}")]);
    assert_eq!(spans("\u{e9}t\u{e9} x"), vec![(0, 3), (4, 5)]);
}

#[test]
fn separate_sources_lex_as_their_concatenation() {
    let first = "let a = 1.5 // one\n\"s\" +=";
    let second = "= fun b(0x10) && c";
    let joined = format!("{}\n{}", first, second);
    let mut expected = tokens(first);
    expected.extend(tokens(second));
    assert_eq!(tokens(&joined), expected);
    let shift = first.chars().count() + 1;
    let mut expected_spans = spans(first);
    expected_spans.extend(spans(second).iter().map(|(s, e)| (s + shift, e + shift)));
    assert_eq!(spans(&joined), expected_spans);
}

#[test]
fn cleanup_makes_the_lexer_new_again() {
    let code = chars("let x = 0b11\nfoo");
    let mut lexer = Lexer::new(&code);
    let first = lexer.tokenize().unwrap();
    assert_eq!(lexer.position(), code.len());
    assert_eq!(lexer.line(), 1);
    assert_eq!(lexer.column(), 3);
    assert_eq!(lexer.tokenize().unwrap(), vec![]);
    lexer.cleanup();
    assert_eq!(lexer.position(), 0);
    assert_eq!(lexer.line(), 0);
    assert_eq!(lexer.column(), 0);
    let again = lexer.tokenize().unwrap();
    assert_eq!(first, again);
    let mut fresh = Lexer::new(&code);
    assert_eq!(fresh.tokenize().unwrap(), again);
}

#[test]
fn cleanup_after_an_error() {
    let code = chars("a b #");
    let mut lexer = Lexer::new(&code);
    assert_eq!(lexer.tokenize(), Err(LexError::UnsupportedCharacter('#', 4)));
    assert_eq!(lexer.position(), 5);
    assert_eq!(lexer.tokenize(), Ok(vec![]));
    lexer.cleanup();
    assert_eq!(lexer.tokenize(), Err(LexError::UnsupportedCharacter('#', 4)));
}

#[test]
fn an_error_leaves_the_lexer_where_it_was_met() {
    let code = chars("ab\n 1.2.3");
    let mut lexer = Lexer::new(&code);
    assert_eq!(lexer.tokenize(), Err(LexError::FailedToParseNumber));
    assert_eq!(lexer.position(), 7);
    assert_eq!(lexer.line(), 1);
    assert_eq!(lexer.column(), 4);
}

#[test]
fn lines_and_columns_are_counted() {
    let code = chars("a\n\nbc \"x\ny\" d");
    let mut lexer = Lexer::new(&code);
    lexer.tokenize().unwrap();
    assert_eq!(lexer.line(), 3);
    assert_eq!(lexer.column(), 4);
}

#[test]
fn cursor_looks_ahead_without_moving() {
    let code = chars("ab");
    let mut cursor = Cursor::new(&code);
    assert_eq!(cursor.current, 0);
    assert_eq!(cursor.peek(), Some('a'));
    assert_eq!(cursor.offset(0), Some('a'));
    assert_eq!(cursor.offset(1), Some('b'));
    assert_eq!(cursor.offset(2), None);
    assert_eq!(cursor.offset(usize::MAX), None);
    assert_eq!(cursor.offset_result(1), Ok('b'));
    assert_eq!(cursor.offset_result(2), Err(LexError::UnexpectedEof));
    assert!(!cursor.is_at_end());
    assert_eq!(cursor.current, 0);
    cursor.current = 2;
    assert!(cursor.is_at_end());
    assert_eq!(cursor.peek(), None);
    assert_eq!(cursor.offset(0), None);
    assert_eq!(cursor.offset_result(0), Err(LexError::UnexpectedEof));
    cursor.current = 5;
    assert!(cursor.is_at_end());
    assert_eq!(cursor.peek(), None);
}

#[test]
fn cursor_over_nothing_is_at_its_end() {
    let code: Vec<char> = vec![];
    let cursor = Cursor::new(&code);
    assert!(cursor.is_at_end());
    assert_eq!(cursor.peek(), None);
}

#[test]
fn spans_and_spanned_tokens() {
    let span = Span::new(3, 7);
    assert_eq!((span.start, span.end), (3, 7));
    let token = SpannedToken::new(Token::Comma, span);
    assert_eq!(token.token, Token::Comma);
    assert_eq!(token.span, span);
    let single = SpannedToken::new_single_char(Token::Dot, 4);
    assert_eq!(single.span, Span::new(4, 5));
}

#[test]
fn digits_and_their_values() {
    assert_eq!(to_digit('0'), Some(0));
    assert_eq!(to_digit('9'), Some(9));
    assert_eq!(to_digit('a'), Some(10));
    assert_eq!(to_digit('F'), Some(15));
    assert_eq!(to_digit('z'), Some(35));
    assert_eq!(to_digit('_'), None);
    assert_eq!(to_digit('\u{663}'), None);
    assert!(digit_in('7', 8));
    assert!(!digit_in('8', 8));
    assert!(digit_in('f', 16));
    assert!(!digit_in('g', 16));
    assert!(!digit_in('2', 2));
    for c in ['0', '5', '9', 'a', 'f', 'G', 'z', ' ', '.', '\u{e9}'] {
        for radix in [2u32, 8, 10, 16, 36] {
            assert_eq!(digit_in(c, radix), c.is_digit(radix));
            assert_eq!(to_digit(c), c.to_digit(36));
        }
    }
}

#[test]
fn identifier_characters() {
    assert!(identifier_char('_'));
    assert!(identifier_char('a'));
    assert!(identifier_char('Z'));
    assert!(identifier_char('\u{e9}'));
    assert!(!identifier_char('1'));
    assert!(!identifier_char('\n'));
    assert!(!identifier_char('-'));
    assert!(!identifier_char('\u{20ac}'));
    for code in 0u32..0x3000 {
        if let Some(c) = char::from_u32(code) {
            assert_eq!(identifier_char(c), c.is_alphabetic() || c == '_');
        }
    }
}

#[test]
fn integers_are_parsed_in_their_base() {
    let code = chars("xx1f7zz");
    assert_eq!(parse_integer(&code, 2, 5, 16), Some(0x1f7));
    assert_eq!(parse_integer(&code, 2, 3, 10), Some(1));
    assert_eq!(parse_integer(&code, 2, 4, 10), None);
    assert_eq!(parse_integer(&code, 2, 2, 10), None);
    assert_eq!(parse_integer(&code, 0, 7, 36), Some(73831590719));
    let large = chars("9223372036854775807");
    assert_eq!(parse_integer(&large, 0, 19, 10), Some(i64::MAX));
    let larger = chars("9223372036854775808");
    assert_eq!(parse_integer(&larger, 0, 19, 10), None);
    for text in ["0", "12", "777", "1010", "ff", "zz", "9a", "18446744073709551616"] {
        for radix in [2u32, 8, 10, 16, 36] {
            let code = chars(text);
            assert_eq!(parse_integer(&code, 0, code.len(), radix), i64::from_str_radix(text, radix).ok());
        }
    }
}
