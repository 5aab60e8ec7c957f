//! The tokens of the language, and what each one says once its handles are
//! read through the interner.

use crate::interner::{distinct, interned, InternedStr};
use vstd::prelude::*;

verus! {

/// Why a literal could not be lexed.
#[derive(Clone, Copy, Debug, PartialEq, Eq, Structural)]
pub enum LexError {
    /// The input ended inside a string literal.
    UnterminatedString,
    /// The input ended directly behind the opening quote of a character literal.
    UnterminatedChar,
    /// A character literal was not closed after one character.
    MultipleChars,
}

impl LexError {
    /// The message that belongs to the error.
    pub open spec fn text(self) -> Seq<char> {
        match self {
            LexError::UnterminatedString => "Unexpected EOF when lexing string literal"@,
            LexError::UnterminatedChar => "Unexpected EOF when lexing char literal"@,
            LexError::MultipleChars =>
                "Attempted to lex a character literal with multiple character"@,
        }
    }

    pub fn message(&self) -> (s: &'static str)
        ensures
            s@ == self.text(),
    {
        match self {
            LexError::UnterminatedString => "Unexpected EOF when lexing string literal",
            LexError::UnterminatedChar => "Unexpected EOF when lexing char literal",
            LexError::MultipleChars =>
                "Attempted to lex a character literal with multiple character",
        }
    }
}

/// One token. A float carries the handle of its spelling, digits and point as
/// written.
#[derive(Clone, Copy, Debug, PartialEq, Eq, Structural)]
pub enum Token {
    TInteger(i64),
    TFloat(InternedStr),
    TString(InternedStr),
    TChar(char),
    TTrue,
    TFalse,
    TIf,
    TElse,
    TWhile,
    TFor,
    TMatch,
    TData,
    TTrait,
    TImpl,
    TVariable(InternedStr),
    TConstructor(InternedStr),
    TOpenBrace,
    TCloseBrace,
    TOpenParen,
    TCloseParen,
    TOpenBracket,
    TCloseBracket,
    TOperator(InternedStr),
    TSemicolon,
    TDot,
    TComma,
    TColon,
    TLet,
    TAssign,
    TRArrow,
    TMatchArrow,
    TLambda,
    TEOF,
    TError(LexError),
}

/// What a token says, with the spelling itself in place of a handle and the
/// mathematical value of an integer literal.
pub enum Lexeme {
    /// An integer literal with its value.
    Integer(int),
    /// A float literal with its spelling.
    Float(Seq<char>),
    /// A string literal with its contents, quotes removed.
    Text(Seq<char>),
    /// An identifier that does not start with an uppercase letter.
    Variable(Seq<char>),
    /// An identifier that starts with an uppercase letter.
    Constructor(Seq<char>),
    /// An operator other than the five that have a token of their own.
    Operator(Seq<char>),
    /// A token without a handle or a number: a keyword, a punctuation mark, a
    /// character literal, the end of the input or an error.
    Plain(Token),
}

/// The handle of `s` in a table that holds it.
pub closed spec fn handle_of(table: Seq<Seq<char>>, s: Seq<char>) -> InternedStr {
    InternedStr::at(table.index_of(s) as nat)
}

impl Lexeme {
    /// The spelling that the lexeme's token refers to by handle, if it has one.
    pub open spec fn spelling(self) -> Option<Seq<char>> {
        match self {
            Lexeme::Float(s) => Some(s),
            Lexeme::Text(s) => Some(s),
            Lexeme::Variable(s) => Some(s),
            Lexeme::Constructor(s) => Some(s),
            Lexeme::Operator(s) => Some(s),
            _ => None,
        }
    }

    /// Whether the lexeme has a token: an integer literal must fit in 64 bits.
    pub open spec fn fits(self) -> bool {
        self matches Lexeme::Integer(v) ==> v <= i64::MAX
    }

    /// The table once the lexeme's spelling is interned.
    pub open spec fn enter(self, table: Seq<Seq<char>>) -> Seq<Seq<char>> {
        match self.spelling() {
            Some(s) => interned(table, s),
            None => table,
        }
    }

    /// The lexeme's token, over a table that holds its spelling.
    pub open spec fn token(self, table: Seq<Seq<char>>) -> Token {
        match self {
            Lexeme::Integer(v) => Token::TInteger(v as i64),
            Lexeme::Float(s) => Token::TFloat(handle_of(table, s)),
            Lexeme::Text(s) => Token::TString(handle_of(table, s)),
            Lexeme::Variable(s) => Token::TVariable(handle_of(table, s)),
            Lexeme::Constructor(s) => Token::TConstructor(handle_of(table, s)),
            Lexeme::Operator(s) => Token::TOperator(handle_of(table, s)),
            Lexeme::Plain(t) => t,
        }
    }
}

impl Token {
    /// The handle that the token carries, if it carries one.
    pub open spec fn handle(self) -> Option<InternedStr> {
        match self {
            Token::TFloat(h) => Some(h),
            Token::TString(h) => Some(h),
            Token::TVariable(h) => Some(h),
            Token::TConstructor(h) => Some(h),
            Token::TOperator(h) => Some(h),
            _ => None,
        }
    }

    /// Whether the token's handle, if it has one, is a place in `table`.
    pub open spec fn known_to(self, table: Seq<Seq<char>>) -> bool {
        self.handle() matches Some(h) ==> h.slot() < table.len()
    }

    /// What the token says when its handle is read in `table`.
    pub open spec fn lexeme(self, table: Seq<Seq<char>>) -> Lexeme {
        match self {
            Token::TInteger(v) => Lexeme::Integer(v as int),
            Token::TFloat(h) => Lexeme::Float(table[h.slot() as int]),
            Token::TString(h) => Lexeme::Text(table[h.slot() as int]),
            Token::TVariable(h) => Lexeme::Variable(table[h.slot() as int]),
            Token::TConstructor(h) => Lexeme::Constructor(table[h.slot() as int]),
            Token::TOperator(h) => Lexeme::Operator(table[h.slot() as int]),
            t => Lexeme::Plain(t),
        }
    }
}

/// In a table without repetitions, the handle of a string is the one place
/// that holds it.
pub proof fn lemma_handle_of(table: Seq<Seq<char>>, handle: InternedStr)
    requires
        distinct(table),
        handle.slot() < table.len(),
    ensures
        handle_of(table, table[handle.slot() as int]) == handle,
{
    let s = table[handle.slot() as int];
    let i = table.index_of(s);
    assert(table.contains(s));
    assert(0 <= i < table.len() && table[i] == s);
    if i != handle.slot() {
        if i < handle.slot() {
            assert(table[i] != table[handle.slot() as int]);
        } else {
            assert(table[handle.slot() as int] != table[i]);
        }
    }
    InternedStr::lemma_at(handle);
}

/// A token made from a lexeme says that lexeme again, where the table holds
/// the lexeme's spelling and, for an integer, the value fits.
pub proof fn lemma_token_says_lexeme(lexeme: Lexeme, table: Seq<Seq<char>>)
    requires
        table.len() <= usize::MAX,
        lexeme.fits(),
        lexeme matches Lexeme::Integer(v) ==> i64::MIN <= v,
        lexeme matches Lexeme::Plain(t) ==> t.handle() is None && !(t is TInteger),
        lexeme.spelling() matches Some(s) ==> table.contains(s),
    ensures
        lexeme.token(table).lexeme(table) == lexeme,
        lexeme.token(table).known_to(table),
{
    match lexeme.spelling() {
        Some(s) => {
            let i = table.index_of(s);
            assert(0 <= i < table.len() && table[i] == s);
            InternedStr::lemma_slot_at(i as nat);
        },
        None => {},
    }
}

} // verus!
