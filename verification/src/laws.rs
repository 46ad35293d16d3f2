use vstd::prelude::*;
use crate::chars::{is_digit_in, is_identifier_char};
use crate::errors::LexError;
use crate::lexer::{gathered, LexerView};
use crate::number::{all_digits, digits_value, parsed_integer};
use crate::rules::{
    all_but, digits_of, identifier_chars, keyword_of, lemma_run_within, lemma_step_within, lex,
    lex_from, number, radix_number, run_len, step_at, stop_from, Step,
};
use crate::token::{kinds, SpannedTokenView, TokenView};

verus! {

/// The one token that covers a whole text.
pub open spec fn alone(token: TokenView, text: Seq<char>) -> Seq<SpannedTokenView> {
    seq![SpannedTokenView { token, start: 0, end: text.len() as int }]
}

/// A run is exactly as long as the stretch of its class that ends at the
/// end of the text or before a character of another kind.
pub proof fn lemma_run_exact(s: Seq<char>, i: int, n: int, class: spec_fn(char) -> bool)
    requires
        0 <= i,
        0 <= n,
        i + n <= s.len(),
        forall|k: int| i <= k < i + n ==> class(#[trigger] s[k]),
        i + n == s.len() || !class(s[i + n]),
    ensures
        run_len(s, i, class) == n,
    decreases n,
{
    if n > 0 {
        lemma_run_exact(s, i + 1, n - 1, class);
    }
}

/// A text of decimal digits whose value fits in 64 signed bits is one
/// integer token of that value, covering the whole text.
pub proof fn law_decimal_integer(digits: Seq<char>)
    requires
        digits.len() > 0,
        all_digits(digits, 10),
        digits_value(digits, 10) <= i64::MAX,
    ensures
        lex(digits) == Ok::<Seq<SpannedTokenView>, LexError>(
            alone(TokenView::Integer(digits_value(digits, 10)), digits),
        ),
{
    let s = digits;
    lemma_run_exact(s, 1, s.len() - 1, digits_of(10));
    assert(s.subrange(0, s.len() as int) =~= s);
    assert(is_digit_in(s[0], 10));
    if s.len() > 1 {
        assert(is_digit_in(s[1], 10));
    }
    let token = TokenView::Integer(digits_value(digits, 10));
    assert(step_at(s, 0) == Step::Emit(token, (s.len() - 1) as nat));
    assert(lex_from(s, s.len() as int) == Ok::<Seq<SpannedTokenView>, LexError>(Seq::empty()));
    assert(alone(token, s) + Seq::<SpannedTokenView>::empty() =~= alone(token, s));
}

/// A text of decimal digits whose value does not fit in 64 signed bits is
/// refused.
pub proof fn law_decimal_overflow(digits: Seq<char>)
    requires
        digits.len() > 0,
        all_digits(digits, 10),
        digits_value(digits, 10) > i64::MAX,
    ensures
        lex(digits) == Err::<Seq<SpannedTokenView>, LexError>(LexError::FailedToParseNumber),
{
    let s = digits;
    lemma_run_exact(s, 1, s.len() - 1, digits_of(10));
    assert(s.subrange(0, s.len() as int) =~= s);
    assert(is_digit_in(s[0], 10));
    if s.len() > 1 {
        assert(is_digit_in(s[1], 10));
    }
    assert(step_at(s, 0) == Step::Fail(LexError::FailedToParseNumber, s.len() as int));
}

/// Decimal digits, a point, and decimal digits or nothing behind it are one
/// float token that carries the text as written.
pub proof fn law_decimal_float(whole: Seq<char>, fraction: Seq<char>)
    requires
        whole.len() > 0,
        all_digits(whole, 10),
        all_digits(fraction, 10),
    ensures
        lex(whole + seq!['.'] + fraction) == Ok::<Seq<SpannedTokenView>, LexError>(
            alone(TokenView::Float(whole + seq!['.'] + fraction), whole + seq!['.'] + fraction),
        ),
{
    let s = whole + seq!['.'] + fraction;
    let w = whole.len() as int;
    assert(s[w] == '.');
    assert forall|k: int| 0 <= k < w implies is_digit_in(#[trigger] s[k], 10) by {
        assert(s[k] == whole[k]);
    }
    assert forall|k: int| w + 1 <= k < s.len() implies is_digit_in(#[trigger] s[k], 10) by {
        assert(s[k] == fraction[k - w - 1]);
    }
    lemma_run_exact(s, 1, w - 1, digits_of(10));
    lemma_run_exact(s, w + 1, fraction.len() as int, digits_of(10));
    assert(s.subrange(0, s.len() as int) =~= s);
    let token = TokenView::Float(s);
    assert(step_at(s, 0) == Step::Emit(token, (s.len() - 1) as nat));
    assert(lex_from(s, s.len() as int) == Ok::<Seq<SpannedTokenView>, LexError>(Seq::empty()));
    assert(alone(token, s) + Seq::<SpannedTokenView>::empty() =~= alone(token, s));
}

/// A number with a second point is refused, whatever stands behind that
/// point.
pub proof fn law_second_point(whole: Seq<char>, fraction: Seq<char>, rest: Seq<char>)
    requires
        whole.len() > 0,
        all_digits(whole, 10),
        all_digits(fraction, 10),
    ensures
        lex(whole + seq!['.'] + fraction + seq!['.'] + rest) == Err::<
            Seq<SpannedTokenView>,
            LexError,
        >(LexError::FailedToParseNumber),
{
    let s = whole + seq!['.'] + fraction + seq!['.'] + rest;
    let w = whole.len() as int;
    let f = fraction.len() as int;
    assert(s[w] == '.');
    assert(s[w + 1 + f] == '.');
    assert forall|k: int| 0 <= k < w implies is_digit_in(#[trigger] s[k], 10) by {
        assert(s[k] == whole[k]);
    }
    assert forall|k: int| w + 1 <= k < w + 1 + f implies is_digit_in(#[trigger] s[k], 10) by {
        assert(s[k] == fraction[k - w - 1]);
    }
    lemma_run_exact(s, 1, w - 1, digits_of(10));
    lemma_run_exact(s, w + 1, f, digits_of(10));
    assert(step_at(s, 0) == Step::Fail(LexError::FailedToParseNumber, w + 1 + f));
}

/// Whether a letter behind a leading zero announces the given base.
pub open spec fn announces(letter: char, radix: int) -> bool {
    (letter == 'x' && radix == 16) || (letter == 'b' && radix == 2) || (letter == 'o' && radix
        == 8)
}

/// A zero, the letter of a base and digits of that base are one integer
/// token of the digits' value in that base. Without any digit, or with a
/// value that does not fit in 64 signed bits, the text is refused.
pub proof fn law_prefixed_integer(letter: char, radix: int, digits: Seq<char>)
    requires
        announces(letter, radix),
        all_digits(digits, radix),
    ensures
        lex(seq!['0', letter] + digits) == match parsed_integer(digits, radix) {
            Some(value) => Ok::<Seq<SpannedTokenView>, LexError>(
                alone(TokenView::Integer(value), seq!['0', letter] + digits),
            ),
            None => Err::<Seq<SpannedTokenView>, LexError>(LexError::FailedToParseNumber),
        },
        parsed_integer(digits, radix) is Some <==> digits.len() > 0 && digits_value(digits, radix)
            <= i64::MAX,
{
    let s = seq!['0', letter] + digits;
    assert(s[0] == '0' && s[1] == letter);
    assert forall|k: int| 2 <= k < s.len() implies is_digit_in(#[trigger] s[k], radix) by {
        assert(s[k] == digits[k - 2]);
    }
    lemma_run_exact(s, 2, digits.len() as int, digits_of(radix));
    assert(s.subrange(2, s.len() as int) =~= digits);
    match parsed_integer(digits, radix) {
        Some(value) => {
            let token = TokenView::Integer(value);
            assert(step_at(s, 0) == Step::Emit(token, (s.len() - 1) as nat));
            assert(lex_from(s, s.len() as int) == Ok::<Seq<SpannedTokenView>, LexError>(
                Seq::empty(),
            ));
            assert(alone(token, s) + Seq::<SpannedTokenView>::empty() =~= alone(token, s));
        },
        None => {
            assert(step_at(s, 0) == Step::Fail(LexError::FailedToParseNumber, s.len() as int));
        },
    }
}

/// A text that holds no double quote, written between two double quotes, is
/// one string token that carries the text as it stands.
pub proof fn law_string_literal(text: Seq<char>)
    requires
        forall|k: int| 0 <= k < text.len() ==> text[k] != '"',
    ensures
        lex(seq!['"'] + text + seq!['"']) == Ok::<Seq<SpannedTokenView>, LexError>(
            alone(TokenView::String(text), seq!['"'] + text + seq!['"']),
        ),
{
    let s = seq!['"'] + text + seq!['"'];
    let n = text.len() as int;
    assert(s[0] == '"' && s[n + 1] == '"');
    assert forall|k: int| 1 <= k < 1 + n implies all_but('"')(#[trigger] s[k]) by {
        assert(s[k] == text[k - 1]);
    }
    lemma_run_exact(s, 1, n, all_but('"'));
    assert(s.subrange(1, 1 + n) =~= text);
    let token = TokenView::String(text);
    assert(step_at(s, 0) == Step::Emit(token, (n + 1) as nat));
    assert(lex_from(s, s.len() as int) == Ok::<Seq<SpannedTokenView>, LexError>(Seq::empty()));
    assert(alone(token, s) + Seq::<SpannedTokenView>::empty() =~= alone(token, s));
}

/// A double quote with no second one behind it begins a string that the end
/// of the text cuts short.
pub proof fn law_unterminated_string(text: Seq<char>)
    requires
        forall|k: int| 0 <= k < text.len() ==> text[k] != '"',
    ensures
        lex(seq!['"'] + text) == Err::<Seq<SpannedTokenView>, LexError>(LexError::UnexpectedEof),
{
    let s = seq!['"'] + text;
    let n = text.len() as int;
    assert(s[0] == '"');
    assert forall|k: int| 1 <= k < 1 + n implies all_but('"')(#[trigger] s[k]) by {
        assert(s[k] == text[k - 1]);
    }
    lemma_run_exact(s, 1, n, all_but('"'));
    assert(step_at(s, 0) == Step::Fail(LexError::UnexpectedEof, s.len() as int));
}

/// A text of letters and underscores is one token: the reserved word that it
/// spells, or else an identifier that carries the text.
pub proof fn law_word(text: Seq<char>)
    requires
        text.len() > 0,
        forall|k: int| 0 <= k < text.len() ==> is_identifier_char(#[trigger] text[k]),
    ensures
        lex(text) == Ok::<Seq<SpannedTokenView>, LexError>(
            alone(
                match keyword_of(text) {
                    Some(reserved) => reserved,
                    None => TokenView::Identifier(text),
                },
                text,
            ),
        ),
{
    let s = text;
    assert(is_identifier_char(s[0]));
    assert forall|k: int| 1 <= k < s.len() implies identifier_chars()(#[trigger] s[k]) by {
        assert(is_identifier_char(s[k]));
    }
    lemma_run_exact(s, 1, s.len() - 1, identifier_chars());
    assert(s.subrange(0, s.len() as int) =~= s);
    let token = match keyword_of(text) {
        Some(reserved) => reserved,
        None => TokenView::Identifier(text),
    };
    assert(step_at(s, 0) == Step::Emit(token, (s.len() - 1) as nat));
    assert(lex_from(s, s.len() as int) == Ok::<Seq<SpannedTokenView>, LexError>(Seq::empty()));
    assert(alone(token, s) + Seq::<SpannedTokenView>::empty() =~= alone(token, s));
}

/// After `cleanup` a lexer is a new lexer on its text: `tokenize` hands out
/// what it hands out on a new lexer, the tokens of the whole text or its
/// first error, and leaves the lexer as it leaves a new one.
pub proof fn law_cleanup_is_fresh(lexer: LexerView)
    ensures
        lexer.cleaned() == LexerView::fresh(lexer.code),
        lexer.cleaned().wf(),
        lexer.cleaned().handed_out() == lex(lexer.code),
        lexer.cleaned().handed_out() == LexerView::fresh(lexer.code).handed_out(),
        lexer.cleaned().after_tokenize() == LexerView::fresh(lexer.code).after_tokenize(),
        lexer.cleaned().after_tokenize().position == stop_from(lexer.code, 0),
{
    match lex(lexer.code) {
        Ok(all) => {
            assert(Seq::<SpannedTokenView>::empty() + all =~= all);
        },
        Err(_) => {},
    }
}

/// Whether `whole` begins with `part`.
pub open spec fn begins_with(whole: Seq<char>, part: Seq<char>) -> bool {
    part.len() <= whole.len() && forall|k: int| 0 <= k < part.len() ==> whole[k] == part[k]
}

/// Whether `whole` ends with `part`, which begins at offset `by` in it.
pub open spec fn ends_with(whole: Seq<char>, part: Seq<char>, by: int) -> bool {
    0 <= by && whole.len() == by + part.len() && forall|k: int|
        0 <= k < part.len() ==> whole[by + k] == part[k]
}

/// Tokens moved to the right by a number of characters.
pub open spec fn shifted(tokens: Seq<SpannedTokenView>, by: int) -> Seq<SpannedTokenView> {
    tokens.map_values(
        |t: SpannedTokenView|
            SpannedTokenView { token: t.token, start: t.start + by, end: t.end + by },
    )
}

/// A run in a text is the same run in a longer text, if it ends inside the
/// shorter text or the longer one goes on with a character of another kind.
pub proof fn lemma_run_prefix(a: Seq<char>, c: Seq<char>, j: int, class: spec_fn(char) -> bool)
    requires
        begins_with(c, a),
        0 <= j <= a.len(),
        j + run_len(a, j, class) < a.len() || a.len() == c.len() || !class(c[a.len() as int]),
    ensures
        run_len(c, j, class) == run_len(a, j, class),
    decreases a.len() - j,
{
    if j < a.len() {
        assert(c[j] == a[j]);
        if class(a[j]) {
            lemma_run_prefix(a, c, j + 1, class);
        }
    }
}

/// A run at the end of a text is the same run in the part that the text
/// ends with.
pub proof fn lemma_run_shift(
    b: Seq<char>,
    c: Seq<char>,
    by: int,
    j: int,
    class: spec_fn(char) -> bool,
)
    requires
        ends_with(c, b, by),
        0 <= j <= b.len(),
    ensures
        run_len(c, by + j, class) == run_len(b, j, class),
    decreases b.len() - j,
{
    if j < b.len() {
        assert(c[by + j] == b[j]);
        if class(b[j]) {
            lemma_run_shift(b, c, by, j + 1, class);
        }
    }
}

/// What begins at an offset of a text begins there in every longer text
/// that goes on with a line end, unless it is an error.
pub proof fn lemma_step_prefix(a: Seq<char>, c: Seq<char>, i: int)
    requires
        begins_with(c, a),
        a.len() < c.len(),
        c[a.len() as int] == '\n',
        0 <= i < a.len(),
        !(step_at(a, i) is Fail),
    ensures
        step_at(c, i) == step_at(a, i),
{
    let n = a.len() as int;
    assert(c[i] == a[i]);
    assert(!is_digit_in('\n', 16) && !is_identifier_char('\n'));
    if i + 1 < n {
        assert(c[i + 1] == a[i + 1]);
    }
    lemma_run_within(a, i + 1, all_but('"'));
    if a[i] == '"' {
        lemma_run_prefix(a, c, i + 1, all_but('"'));
    }
    lemma_run_within(a, i + 1, identifier_chars());
    lemma_run_prefix(a, c, i + 1, identifier_chars());
    let quoted = run_len(a, i + 1, all_but('"'));
    let named = run_len(a, i + 1, identifier_chars());
    assert(a.subrange(i + 1, i + 1 + quoted) =~= c.subrange(i + 1, i + 1 + quoted));
    assert(a.subrange(i, i + 1 + named) =~= c.subrange(i, i + 1 + named));
    if is_digit_in(a[i], 10) {
        lemma_number_prefix(a, c, i);
    }
    if i + 1 < n {
        lemma_run_within(a, i + 2, all_but('\n'));
        lemma_run_prefix(a, c, i + 2, all_but('\n'));
    }
}

/// The number that begins at an offset of a text begins there in every
/// longer text that goes on with a line end, unless it is an error.
pub proof fn lemma_number_prefix(a: Seq<char>, c: Seq<char>, i: int)
    requires
        begins_with(c, a),
        a.len() < c.len(),
        c[a.len() as int] == '\n',
        0 <= i < a.len(),
        !(number(a, i) is Fail),
    ensures
        number(c, i) == number(a, i),
{
    let n = a.len() as int;
    assert(c[i] == a[i]);
    assert(!is_digit_in('\n', 16));
    if i + 1 < n {
        assert(c[i + 1] == a[i + 1]);
        lemma_radix_prefix(a, c, i, 16);
        lemma_radix_prefix(a, c, i, 2);
        lemma_radix_prefix(a, c, i, 8);
    }
    lemma_run_within(a, i + 1, digits_of(10));
    lemma_run_prefix(a, c, i + 1, digits_of(10));
    let whole = run_len(a, i + 1, digits_of(10));
    assert(a.subrange(i, i + 1 + whole) =~= c.subrange(i, i + 1 + whole));
    if i + 1 + whole < n {
        assert(c[i + 1 + whole] == a[i + 1 + whole]);
        lemma_run_within(a, i + 2 + whole, digits_of(10));
        lemma_run_prefix(a, c, i + 2 + whole, digits_of(10));
        let fraction = run_len(a, i + 2 + whole, digits_of(10));
        if i + 2 + whole + fraction < n {
            assert(c[i + 2 + whole + fraction] == a[i + 2 + whole + fraction]);
        }
        assert(a.subrange(i, i + 2 + whole + fraction) =~= c.subrange(
            i,
            i + 2 + whole + fraction,
        ));
    }
}

/// The digits behind a prefix are the same in every longer text that goes
/// on with a line end.
pub proof fn lemma_radix_prefix(a: Seq<char>, c: Seq<char>, i: int, radix: int)
    requires
        begins_with(c, a),
        a.len() < c.len(),
        c[a.len() as int] == '\n',
        0 <= i,
        i + 1 < a.len(),
    ensures
        radix_number(c, i, radix) == radix_number(a, i, radix),
{
    lemma_run_within(a, i + 2, digits_of(radix));
    lemma_run_prefix(a, c, i + 2, digits_of(radix));
    let n = run_len(a, i + 2, digits_of(radix));
    assert(a.subrange(i + 2, i + 2 + n) =~= c.subrange(i + 2, i + 2 + n));
}

/// What begins at an offset of a text begins, unless it is an error, at the
/// same place of that text where it stands at the end of a longer one.
pub proof fn lemma_step_shift(b: Seq<char>, c: Seq<char>, by: int, i: int)
    requires
        ends_with(c, b, by),
        0 <= i < b.len(),
        !(step_at(b, i) is Fail),
    ensures
        step_at(c, by + i) == step_at(b, i),
{
    let n = b.len() as int;
    assert(c[by + i] == b[i]);
    if i + 1 < n {
        assert(c[by + i + 1] == b[i + 1]);
    }
    lemma_run_within(b, i + 1, all_but('"'));
    lemma_run_shift(b, c, by, i + 1, all_but('"'));
    lemma_run_within(b, i + 1, identifier_chars());
    lemma_run_shift(b, c, by, i + 1, identifier_chars());
    let quoted = run_len(b, i + 1, all_but('"'));
    let named = run_len(b, i + 1, identifier_chars());
    assert(b.subrange(i + 1, i + 1 + quoted) =~= c.subrange(by + i + 1, by + i + 1 + quoted));
    assert(b.subrange(i, i + 1 + named) =~= c.subrange(by + i, by + i + 1 + named));
    if is_digit_in(b[i], 10) {
        lemma_number_shift(b, c, by, i);
    }
    if i + 1 < n {
        lemma_run_within(b, i + 2, all_but('\n'));
        lemma_run_shift(b, c, by, i + 2, all_but('\n'));
    }
}

/// The number that begins at an offset of a text begins at the same place of
/// that text where it stands at the end of a longer one.
pub proof fn lemma_number_shift(b: Seq<char>, c: Seq<char>, by: int, i: int)
    requires
        ends_with(c, b, by),
        0 <= i < b.len(),
        !(number(b, i) is Fail),
    ensures
        number(c, by + i) == number(b, i),
{
    let n = b.len() as int;
    assert(c[by + i] == b[i]);
    if i + 1 < n {
        assert(c[by + i + 1] == b[i + 1]);
        lemma_radix_shift(b, c, by, i, 16);
        lemma_radix_shift(b, c, by, i, 2);
        lemma_radix_shift(b, c, by, i, 8);
    }
    lemma_run_within(b, i + 1, digits_of(10));
    lemma_run_shift(b, c, by, i + 1, digits_of(10));
    let whole = run_len(b, i + 1, digits_of(10));
    assert(b.subrange(i, i + 1 + whole) =~= c.subrange(by + i, by + i + 1 + whole));
    if i + 1 + whole < n {
        assert(c[by + i + 1 + whole] == b[i + 1 + whole]);
        lemma_run_within(b, i + 2 + whole, digits_of(10));
        lemma_run_shift(b, c, by, i + 2 + whole, digits_of(10));
        let fraction = run_len(b, i + 2 + whole, digits_of(10));
        if i + 2 + whole + fraction < n {
            assert(c[by + i + 2 + whole + fraction] == b[i + 2 + whole + fraction]);
        }
        assert(b.subrange(i, i + 2 + whole + fraction) =~= c.subrange(
            by + i,
            by + i + 2 + whole + fraction,
        ));
    }
}

/// The digits behind a prefix are the same where their text stands at the
/// end of a longer one.
pub proof fn lemma_radix_shift(b: Seq<char>, c: Seq<char>, by: int, i: int, radix: int)
    requires
        ends_with(c, b, by),
        0 <= i,
        i + 1 < b.len(),
    ensures
        radix_number(c, by + i, radix) == match radix_number(b, i, radix) {
            Step::Fail(error, at) => Step::Fail(error, by + at),
            step => step,
        },
{
    lemma_run_within(b, i + 2, digits_of(radix));
    lemma_run_shift(b, c, by, i + 2, digits_of(radix));
    let n = run_len(b, i + 2, digits_of(radix));
    assert(b.subrange(i + 2, i + 2 + n) =~= c.subrange(by + i + 2, by + i + 2 + n));
}

/// The tokens of a text from an offset on are, in a longer text that goes
/// on with a line end, followed by the tokens behind that line end.
pub proof fn lemma_lex_prefix(a: Seq<char>, c: Seq<char>, i: int)
    requires
        begins_with(c, a),
        a.len() < c.len(),
        c[a.len() as int] == '\n',
        0 <= i <= a.len(),
        lex_from(a, i) is Ok,
    ensures
        lex_from(c, i) == gathered(lex_from(a, i)->Ok_0, lex_from(c, a.len() as int + 1)),
    decreases a.len() - i,
{
    let behind = lex_from(c, a.len() as int + 1);
    if i == a.len() {
        assert(step_at(c, i) == Step::Skip(0));
        if behind is Ok {
            assert(Seq::<SpannedTokenView>::empty() + behind->Ok_0 =~= behind->Ok_0);
        }
    } else {
        lemma_step_within(a, i);
        lemma_step_prefix(a, c, i);
        let step = step_at(a, i);
        let next = i + 1 + step.more();
        lemma_lex_prefix(a, c, next);
        if step is Emit && behind is Ok {
            let token = SpannedTokenView { token: step->Emit_0, start: i, end: next };
            let rest = lex_from(a, next)->Ok_0;
            assert(seq![token] + (rest + behind->Ok_0) =~= (seq![token] + rest) + behind->Ok_0);
        }
    }
}

/// The tokens of a text are, where the text stands at the end of a longer
/// one, the same tokens moved to the right.
pub proof fn lemma_lex_shift(b: Seq<char>, c: Seq<char>, by: int, i: int)
    requires
        ends_with(c, b, by),
        0 <= i <= b.len(),
        lex_from(b, i) is Ok,
    ensures
        lex_from(c, by + i) == Ok::<Seq<SpannedTokenView>, LexError>(
            shifted(lex_from(b, i)->Ok_0, by),
        ),
    decreases b.len() - i,
{
    if i == b.len() {
        assert(shifted(Seq::<SpannedTokenView>::empty(), by) =~= Seq::empty());
    } else {
        lemma_step_within(b, i);
        lemma_step_shift(b, c, by, i);
        let step = step_at(b, i);
        let next = i + 1 + step.more();
        lemma_lex_shift(b, c, by, next);
        if step is Emit {
            let token = SpannedTokenView { token: step->Emit_0, start: i, end: next };
            let moved = SpannedTokenView { token: step->Emit_0, start: by + i, end: by + next };
            let rest = lex_from(b, next)->Ok_0;
            assert(shifted(seq![token] + rest, by) =~= seq![moved] + shifted(rest, by));
        }
    }
}

/// Two texts that each tokenize, written one after the other with a line
/// end between them, tokenize to the tokens of the first followed by the
/// tokens of the second, these moved to the right by the length of the
/// first text and the line end.
pub proof fn law_separate_sources(first: Seq<char>, second: Seq<char>)
    requires
        lex(first) is Ok,
        lex(second) is Ok,
    ensures
        lex(first + seq!['\n'] + second) == Ok::<Seq<SpannedTokenView>, LexError>(
            lex(first)->Ok_0 + shifted(lex(second)->Ok_0, first.len() as int + 1),
        ),
        kinds((lex(first + seq!['\n'] + second))->Ok_0) == kinds(lex(first)->Ok_0) + kinds(
            lex(second)->Ok_0,
        ),
{
    let c = first + seq!['\n'] + second;
    let by = first.len() as int + 1;
    assert(begins_with(c, first));
    assert(ends_with(c, second, by));
    lemma_lex_prefix(first, c, 0);
    lemma_lex_shift(second, c, by, 0);
    let left = lex(first)->Ok_0;
    let right = lex(second)->Ok_0;
    assert(kinds(left + shifted(right, by)) =~= kinds(left) + kinds(right));
}

/// Every token read from an offset on lies behind that offset and inside
/// the text, and covers at least one character.
pub proof fn law_spans_inside(s: Seq<char>, i: int, k: int)
    requires
        0 <= i <= s.len(),
        lex_from(s, i) is Ok,
        0 <= k < lex_from(s, i)->Ok_0.len(),
    ensures
        i <= lex_from(s, i)->Ok_0[k].start < lex_from(s, i)->Ok_0[k].end <= s.len(),
    decreases s.len() - i,
{
    if i < s.len() {
        lemma_step_within(s, i);
        let step = step_at(s, i);
        let next = i + 1 + step.more();
        if step is Emit {
            if k > 0 {
                law_spans_inside(s, next, k - 1);
            }
        } else {
            law_spans_inside(s, next, k);
        }
    }
}

/// The only errors that reading a text gives are those of the text: that it
/// ends too early, that a number is malformed, that a character has no
/// meaning.
pub proof fn law_errors_are_lexical(s: Seq<char>, i: int)
    requires
        0 <= i <= s.len(),
    ensures
        lex_from(s, i) is Err ==> lex_from(s, i)->Err_0.is_lexical(),
    decreases s.len() - i,
{
    if i < s.len() {
        lemma_step_within(s, i);
        let step = step_at(s, i);
        if !(step is Fail) {
            law_errors_are_lexical(s, i + 1 + step.more());
        }
    }
}

} // verus!
