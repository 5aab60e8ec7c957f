//! What lexing means: how one token is cut from the input, stated over the
//! sequence of its characters.

use crate::pos::Location;
use crate::text::{char_is_alphabetic, char_is_alphanumeric, char_is_uppercase, char_is_whitespace,
    decimal_value, is_decimal, is_decimal_digit};
use crate::token::{LexError, Lexeme, Token};
use vstd::prelude::*;

verus! {

/// Whether a character can be part of an operator.
pub open spec fn operator_char(c: char) -> bool {
    c == '+' || c == '-' || c == '*' || c == '/' || c == '.' || c == '$' || c == ':' || c == '='
        || c == '<' || c == '>' || c == '|' || c == '&' || c == '!'
}

/// The kinds of character of which the lexer reads a whole run.
#[derive(Clone, Copy, Debug, PartialEq, Eq, Structural)]
pub enum CharClass {
    /// White space.
    Blank,
    /// The characters of operators.
    Operator,
    /// The ten decimal digits.
    Digit,
    /// What an identifier may hold behind its first character: letters, digits
    /// and the underscore.
    Word,
    /// Everything but the double quote.
    Unquoted,
}

impl CharClass {
    /// Whether `c` belongs to the class.
    pub open spec fn holds(self, c: char) -> bool {
        match self {
            CharClass::Blank => char_is_whitespace(c),
            CharClass::Operator => operator_char(c),
            CharClass::Digit => is_decimal_digit(c),
            CharClass::Word => char_is_alphanumeric(c) || c == '_',
            CharClass::Unquoted => c != '"',
        }
    }
}

/// Where the lexer stands in its input: the index of the next character, the
/// location it has counted up to, and the characters gathered for the token
/// that is being read.
pub struct Cursor {
    pub pos: nat,
    pub at: Location,
    pub text: Seq<char>,
}

/// The location once `c` is consumed: a line feed or a carriage return starts
/// a new line at column zero, any other character moves one column on.
pub open spec fn moved(at: Location, c: char) -> Location {
    if c == '\n' || c == '\r' {
        Location { line: (at.line + 1) as i32, column: 0, absolute: (at.absolute + 1) as i32 }
    } else {
        Location {
            line: at.line,
            column: (at.column + 1) as i32,
            absolute: (at.absolute + 1) as i32,
        }
    }
}

impl Cursor {
    /// Whether the cursor lies inside `input` and its location cannot have
    /// run past what a 32-bit count holds.
    pub open spec fn sound(self, input: Seq<char>) -> bool {
        &&& self.pos <= input.len() < i32::MAX
        &&& 0 <= self.at.absolute <= self.pos
        &&& 1 <= self.at.line <= self.pos + 1
        &&& 0 <= self.at.column <= self.pos + 1
    }

    /// The cursor with nothing gathered.
    pub open spec fn cleared(self) -> Cursor {
        Cursor { text: Seq::empty(), ..self }
    }

    /// Whether the whole input is consumed.
    pub open spec fn at_end(self, input: Seq<char>) -> bool {
        self.pos >= input.len()
    }
}

/// The cursor after one character is read. A line feed directly behind a
/// carriage return is passed over with it: it is neither gathered nor counted.
pub open spec fn step(input: Seq<char>, cur: Cursor) -> Cursor
    recommends
        cur.pos < input.len(),
{
    let c = input[cur.pos as int];
    Cursor {
        pos: if c == '\r' && cur.pos + 1 < input.len() && input[(cur.pos + 1) as int] == '\n' {
            cur.pos + 2
        } else {
            cur.pos + 1
        },
        at: moved(cur.at, c),
        text: cur.text.push(c),
    }
}

/// The cursor after the longest run of characters of `class` is read.
pub open spec fn run(input: Seq<char>, cur: Cursor, class: CharClass) -> Cursor
    decreases input.len() - cur.pos,
{
    if cur.pos < input.len() && class.holds(input[cur.pos as int]) {
        run(input, step(input, cur), class)
    } else {
        cur
    }
}

/// The token of an operator that has one of its own.
pub open spec fn reserved_operator(text: Seq<char>) -> Option<Token> {
    if text == "="@ {
        Some(Token::TAssign)
    } else if text == ":"@ {
        Some(Token::TColon)
    } else if text == "->"@ {
        Some(Token::TRArrow)
    } else if text == "."@ {
        Some(Token::TDot)
    } else if text == "=>"@ {
        Some(Token::TMatchArrow)
    } else {
        None
    }
}

/// The token that a run of operator characters spells.
pub open spec fn operator_lexeme(text: Seq<char>) -> Lexeme {
    match reserved_operator(text) {
        Some(token) => Lexeme::Plain(token),
        None => Lexeme::Operator(text),
    }
}

/// The token of a keyword.
pub open spec fn keyword(text: Seq<char>) -> Option<Token> {
    if text == "if"@ {
        Some(Token::TIf)
    } else if text == "else"@ {
        Some(Token::TElse)
    } else if text == "while"@ {
        Some(Token::TWhile)
    } else if text == "for"@ {
        Some(Token::TFor)
    } else if text == "match"@ {
        Some(Token::TMatch)
    } else if text == "trait"@ {
        Some(Token::TTrait)
    } else if text == "impl"@ {
        Some(Token::TImpl)
    } else if text == "data"@ {
        Some(Token::TData)
    } else if text == "let"@ {
        Some(Token::TLet)
    } else if text == "true"@ {
        Some(Token::TTrue)
    } else if text == "false"@ {
        Some(Token::TFalse)
    } else {
        None
    }
}

/// The token that a word spells: a keyword, or an identifier, which is a
/// constructor where its first character is uppercase and a variable where not.
pub open spec fn word_lexeme(text: Seq<char>) -> Lexeme
    recommends
        text.len() > 0,
{
    match keyword(text) {
        Some(token) => Lexeme::Plain(token),
        None => if char_is_uppercase(text[0]) {
            Lexeme::Constructor(text)
        } else {
            Lexeme::Variable(text)
        },
    }
}

/// The token of a character that starts no longer token. A character with no
/// meaning in the language reads as the end of the input.
pub open spec fn punctuation(c: char) -> Token {
    if c == ';' {
        Token::TSemicolon
    } else if c == '(' {
        Token::TOpenParen
    } else if c == ')' {
        Token::TCloseParen
    } else if c == '[' {
        Token::TOpenBracket
    } else if c == ']' {
        Token::TCloseBracket
    } else if c == '{' {
        Token::TOpenBrace
    } else if c == '}' {
        Token::TCloseBrace
    } else if c == ',' {
        Token::TComma
    } else if c == '\\' {
        Token::TLambda
    } else {
        Token::TEOF
    }
}

/// A token cut from the input, and the cursor behind it.
pub struct Scan {
    pub lexeme: Lexeme,
    pub end: Cursor,
}

/// The rest of a number whose first digit is read: more digits, then, where a
/// point follows, the point and the digits behind it, which make it a float.
pub open spec fn scan_number(input: Seq<char>, first: Cursor) -> Scan {
    let digits = run(input, first, CharClass::Digit);
    if digits.pos < input.len() && input[digits.pos as int] == '.' {
        let end = run(input, step(input, digits), CharClass::Digit);
        Scan { lexeme: Lexeme::Float(end.text), end }
    } else {
        Scan { lexeme: Lexeme::Integer(decimal_value(digits.text)), end: digits }
    }
}

/// The rest of a string literal whose opening quote is read: everything up to
/// the next double quote. The literal's contents are what was gathered between
/// the quotes.
pub open spec fn scan_string(input: Seq<char>, first: Cursor) -> Scan {
    let body = run(input, first, CharClass::Unquoted);
    if body.pos < input.len() {
        let end = step(input, body);
        Scan { lexeme: Lexeme::Text(end.text.subrange(1, end.text.len() - 1)), end }
    } else {
        Scan { lexeme: Lexeme::Plain(Token::TError(LexError::UnterminatedString)), end: body }
    }
}

/// The rest of a character literal whose opening quote is read: one character,
/// then one more, which has to be the closing quote.
pub open spec fn scan_char(input: Seq<char>, first: Cursor) -> Scan {
    if first.pos >= input.len() {
        Scan { lexeme: Lexeme::Plain(Token::TError(LexError::UnterminatedChar)), end: first }
    } else {
        let second = step(input, first);
        if second.pos < input.len() && input[second.pos as int] == '\'' {
            Scan {
                lexeme: Lexeme::Plain(Token::TChar(input[first.pos as int])),
                end: step(input, second),
            }
        } else {
            Scan {
                lexeme: Lexeme::Plain(Token::TError(LexError::MultipleChars)),
                end: if second.pos < input.len() {
                    step(input, second)
                } else {
                    second
                },
            }
        }
    }
}

/// The next token of `input` behind `from`: white space is passed over, then
/// the first character decides what kind of token is read.
pub open spec fn scan(input: Seq<char>, from: Cursor) -> Scan {
    let start = run(input, from, CharClass::Blank).cleared();
    if start.pos >= input.len() {
        Scan { lexeme: Lexeme::Plain(Token::TEOF), end: start }
    } else {
        let c = input[start.pos as int];
        let first = step(input, start);
        if operator_char(c) {
            let end = run(input, first, CharClass::Operator);
            Scan { lexeme: operator_lexeme(end.text), end }
        } else if is_decimal_digit(c) {
            scan_number(input, first)
        } else if char_is_alphabetic(c) || c == '_' {
            let end = run(input, first, CharClass::Word);
            Scan { lexeme: word_lexeme(end.text), end }
        } else if c == '"' {
            scan_string(input, first)
        } else if c == '\'' {
            scan_char(input, first)
        } else {
            Scan { lexeme: Lexeme::Plain(punctuation(c)), end: first }
        }
    }
}

/// Reading a run keeps the cursor sound and moves it on or leaves it; it
/// counts one character for each that it gathers.
pub proof fn lemma_run(input: Seq<char>, cur: Cursor, class: CharClass)
    requires
        cur.sound(input),
    ensures
        run(input, cur, class).sound(input),
        run(input, cur, class).pos >= cur.pos,
        run(input, cur, class).at.absolute >= cur.at.absolute,
        run(input, cur, class).at.absolute - cur.at.absolute == run(input, cur, class).text.len()
            - cur.text.len(),
    decreases input.len() - cur.pos,
{
    if cur.pos < input.len() && class.holds(input[cur.pos as int]) {
        lemma_run(input, step(input, cur), class);
    }
}

/// A run stops at the first character outside its class, keeps what was
/// gathered before, and gathers only characters of the class.
pub proof fn lemma_run_text(input: Seq<char>, cur: Cursor, class: CharClass)
    ensures
        run(input, cur, class).pos < input.len() ==> !class.holds(
            input[run(input, cur, class).pos as int],
        ),
        run(input, cur, class).text.len() >= cur.text.len(),
        run(input, cur, class).text.subrange(0, cur.text.len() as int) == cur.text,
        forall|i: int|
            cur.text.len() <= i < run(input, cur, class).text.len() ==> class.holds(
                #[trigger] run(input, cur, class).text[i],
            ),
    decreases input.len() - cur.pos,
{
    if cur.pos < input.len() && class.holds(input[cur.pos as int]) {
        let next = step(input, cur);
        lemma_run_text(input, next, class);
        let end = run(input, next, class);
        assert(end.text.subrange(0, cur.text.len() as int) =~= end.text.subrange(
            0,
            next.text.len() as int,
        ).subrange(0, cur.text.len() as int));
        assert(next.text.subrange(0, cur.text.len() as int) =~= cur.text);
        assert forall|i: int| cur.text.len() <= i < end.text.len() implies class.holds(
            #[trigger] end.text[i],
        ) by {
            if i == cur.text.len() {
                assert(end.text.subrange(0, next.text.len() as int)[i] == next.text[i]);
            }
        }
    } else {
        assert(cur.text.subrange(0, cur.text.len() as int) =~= cur.text);
    }
}

/// The digits of a number: where a run of digits starts with one digit
/// gathered, all that it gathers are digits.
pub proof fn lemma_digits(input: Seq<char>, start: Cursor)
    requires
        start.pos < input.len(),
        start.text.len() == 0,
        is_decimal_digit(input[start.pos as int]),
    ensures
        is_decimal(run(input, step(input, start), CharClass::Digit).text),
{
    let first = step(input, start);
    let digits = run(input, first, CharClass::Digit);
    lemma_run_text(input, first, CharClass::Digit);
    assert forall|i: int| 0 <= i < digits.text.len() implies is_decimal_digit(
        #[trigger] digits.text[i],
    ) by {
        if i == 0 {
            assert(digits.text.subrange(0, 1)[0] == first.text[0]);
        } else {
            assert(CharClass::Digit.holds(digits.text[i]));
        }
    }
}

/// The cursor behind the first `n` tokens of `input`, read from `from` on.
pub open spec fn cursor_after(input: Seq<char>, from: Cursor, n: nat) -> Cursor
    decreases n,
{
    if n == 0 {
        from
    } else {
        scan(input, cursor_after(input, from, (n - 1) as nat)).end
    }
}

/// The token of `input` at place `k`, counted from zero, read from `from` on.
pub open spec fn token_at(input: Seq<char>, from: Cursor, k: nat) -> Scan {
    scan(input, cursor_after(input, from, k))
}

/// A run depends on where it starts, not on what was gathered before.
pub proof fn lemma_run_from(input: Seq<char>, a: Cursor, b: Cursor, class: CharClass)
    requires
        a.pos == b.pos,
        a.at == b.at,
    ensures
        run(input, a, class).pos == run(input, b, class).pos,
        run(input, a, class).at == run(input, b, class).at,
    decreases input.len() - a.pos,
{
    if a.pos < input.len() && class.holds(input[a.pos as int]) {
        lemma_run_from(input, step(input, a), step(input, b), class);
    }
}

/// A scan depends on where it starts, not on what was gathered before.
pub proof fn lemma_scan_from(input: Seq<char>, a: Cursor, b: Cursor)
    requires
        a.pos == b.pos,
        a.at == b.at,
    ensures
        scan(input, a) == scan(input, b),
{
    lemma_run_from(input, a, b, CharClass::Blank);
}

/// A token never ends before the place where its scan began, and every token
/// but the end of the input ends strictly behind it, counted in characters.
pub proof fn lemma_scan_advances(input: Seq<char>, from: Cursor)
    requires
        from.sound(input),
    ensures
        scan(input, from).end.sound(input),
        scan(input, from).end.pos >= from.pos,
        scan(input, from).end.at.absolute >= from.at.absolute,
        scan(input, from).lexeme != Lexeme::Plain(Token::TEOF) ==> scan(input, from).end.at.absolute
            > from.at.absolute,
{
    lemma_run(input, from, CharClass::Blank);
    let start = run(input, from, CharClass::Blank).cleared();
    if start.pos < input.len() {
        let c = input[start.pos as int];
        let first = step(input, start);
        lemma_run(input, first, CharClass::Operator);
        lemma_run(input, first, CharClass::Word);
        lemma_run(input, first, CharClass::Digit);
        lemma_run(input, first, CharClass::Unquoted);
        let digits = run(input, first, CharClass::Digit);
        if digits.pos < input.len() {
            lemma_run(input, step(input, digits), CharClass::Digit);
        }
    }
}

/// What a scan yields can be made a token: its number is not negative, and
/// where it is a plain token that token carries no handle and no number.
pub proof fn lemma_scan_lexeme(input: Seq<char>, from: Cursor)
    ensures
        scan(input, from).lexeme matches Lexeme::Integer(v) ==> v >= 0,
        scan(input, from).lexeme matches Lexeme::Plain(t) ==> t.handle() is None && !(t
            is TInteger),
{
    let start = run(input, from, CharClass::Blank).cleared();
    if start.pos < input.len() {
        let first = step(input, start);
        let digits = run(input, first, CharClass::Digit);
        if is_decimal_digit(input[start.pos as int]) {
            lemma_digits(input, start);
        }
        lemma_decimal_value_bounds(digits.text);
    }
}

/// The value of a run of digits is not negative.
pub proof fn lemma_decimal_value_bounds(text: Seq<char>)
    ensures
        decimal_value(text) >= 0 || !(forall|i: int|
            0 <= i < text.len() ==> is_decimal_digit(#[trigger] text[i])),
    decreases text.len(),
{
    if text.len() > 0 {
        lemma_decimal_value_bounds(text.drop_last());
        if forall|i: int| 0 <= i < text.len() ==> is_decimal_digit(#[trigger] text[i]) {
            assert forall|i: int| 0 <= i < text.drop_last().len() implies is_decimal_digit(
                #[trigger] text.drop_last()[i],
            ) by {
                assert(text.drop_last()[i] == text[i]);
            }
            assert(is_decimal_digit(text[text.len() - 1]));
        }
    }
}

} // verus!
