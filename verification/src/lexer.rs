//! The lexer: it cuts the input into tokens one at a time, keeps every token
//! it has produced, and can be moved back over them.

use crate::interner::{distinct, interned, lemma_interned_extends, InternedStr, Interner};
use crate::pos::Location;
use crate::scan::{cursor_after, lemma_digits, lemma_run_text, lemma_scan_advances, lemma_scan_from,
    lemma_scan_lexeme, keyword, operator_char, punctuation, reserved_operator, run, scan, scan_char,
    scan_number, scan_string, step, token_at, word_lexeme, CharClass, Cursor, Scan};
use crate::text::{characters, is_decimal_digit, parse_integer};
use crate::token::{handle_of, lemma_handle_of, lemma_token_says_lexeme, LexError, Lexeme, Token};
use std::collections::VecDeque;
use vstd::prelude::*;
use vstd::string::*;

verus! {

/// Whether the character can be part of an operator.
pub fn is_operator(first_char: char) -> (r: bool)
    ensures
        r == operator_char(first_char),
{
    match first_char {
        '+' | '-' | '*' | '/' | '.' | '$' | ':' | '=' | '<' | '>' | '|' | '&' | '!' => true,
        _ => false,
    }
}

/// The token of `word` where it is a keyword.
pub fn keyword_token(word: &str) -> (token: Option<Token>)
    ensures
        token == keyword(word@),
{
    if word.eq("if") {
        Some(Token::TIf)
    } else if word.eq("else") {
        Some(Token::TElse)
    } else if word.eq("while") {
        Some(Token::TWhile)
    } else if word.eq("for") {
        Some(Token::TFor)
    } else if word.eq("match") {
        Some(Token::TMatch)
    } else if word.eq("trait") {
        Some(Token::TTrait)
    } else if word.eq("impl") {
        Some(Token::TImpl)
    } else if word.eq("data") {
        Some(Token::TData)
    } else if word.eq("let") {
        Some(Token::TLet)
    } else if word.eq("true") {
        Some(Token::TTrue)
    } else if word.eq("false") {
        Some(Token::TFalse)
    } else {
        None
    }
}

/// The token of `op` where it is an operator with a token of its own.
pub fn operator_token(op: &str) -> (token: Option<Token>)
    ensures
        token == reserved_operator(op@),
{
    if op.eq("=") {
        Some(Token::TAssign)
    } else if op.eq(":") {
        Some(Token::TColon)
    } else if op.eq("->") {
        Some(Token::TRArrow)
    } else if op.eq(".") {
        Some(Token::TDot)
    } else if op.eq("=>") {
        Some(Token::TMatchArrow)
    } else {
        None
    }
}

/// The token of a character that starts no longer token.
pub fn punctuation_token(c: char) -> (token: Token)
    ensures
        token == punctuation(c),
{
    match c {
        ';' => Token::TSemicolon,
        '(' => Token::TOpenParen,
        ')' => Token::TCloseParen,
        '[' => Token::TOpenBracket,
        ']' => Token::TCloseBracket,
        '{' => Token::TOpenBrace,
        '}' => Token::TCloseBrace,
        ',' => Token::TComma,
        '\\' => Token::TLambda,
        _ => Token::TEOF,
    }
}

impl CharClass {
    /// Decides `holds`.
    pub fn accepts(&self, c: char) -> (r: bool)
        ensures
            r == self.holds(c),
    {
        match self {
            CharClass::Blank => c.is_whitespace(),
            CharClass::Operator => is_operator(c),
            CharClass::Digit => c.is_digit(10),
            CharClass::Word => c.is_alphanumeric() || c == '_',
            CharClass::Unquoted => c != '"',
        }
    }
}

/// What a lexer is, seen from outside: its input, where it stands in it, the
/// strings interned so far, the tokens produced so far, for each of them the
/// location at which it ended, and how many of them the reader has been moved
/// back over.
pub struct LexerState {
    pub input: Seq<char>,
    pub cursor: Cursor,
    pub table: Seq<Seq<char>>,
    pub tokens: Seq<Token>,
    pub ends: Seq<Location>,
    pub offset: nat,
}

impl LexerState {
    /// What holds of a lexer between two calls.
    pub open spec fn wf(self) -> bool {
        &&& self.cursor.sound(self.input)
        &&& self.cursor.text.len() == 0
        &&& distinct(self.table)
        &&& self.table.len() <= usize::MAX
        &&& self.offset <= self.tokens.len()
        &&& forall|i: int| 0 <= i < self.tokens.len() ==> (#[trigger] self.tokens[i]).known_to(
            self.table,
        )
        &&& self.ends.len() == self.tokens.len()
        &&& forall|i: int| 0 <= i < self.ends.len() ==> (#[trigger] self.ends[i]).absolute
            <= self.cursor.at.absolute
        &&& self.ordered()
    }

    /// Whether the tokens follow each other in the source: no token ends
    /// before an earlier one, and every token but the end of the input ends
    /// strictly behind all earlier ones, counted in characters.
    pub open spec fn ordered(self) -> bool {
        forall|i: int, j: int|
            0 <= i < j < self.ends.len() ==> {
                &&& (#[trigger] self.ends[i]).absolute <= (#[trigger] self.ends[j]).absolute
                &&& self.tokens[j] != Token::TEOF ==> self.ends[i].absolute
                    < self.ends[j].absolute
            }
    }

    /// The state of a lexer that has read nothing of `input` yet.
    pub open spec fn start(input: Seq<char>, table: Seq<Seq<char>>) -> LexerState {
        LexerState {
            input,
            cursor: Cursor {
                pos: 0,
                at: Location { line: 1, column: 1, absolute: 0 },
                text: Seq::empty(),
            },
            table,
            tokens: Seq::empty(),
            ends: Seq::empty(),
            offset: 0,
        }
    }

    /// Whether the token ahead can be handed out: it is one that was produced
    /// before, or the input yields one, which it does unless an integer
    /// literal comes next that 64 bits cannot hold.
    pub open spec fn ready(self) -> bool {
        self.offset > 0 || scan(self.input, self.cursor).lexeme.fits()
    }

    /// The state after the reader has moved one token on: over a token
    /// produced before where there is one ahead, else over a new token cut
    /// from the input and added to those produced.
    pub open spec fn advanced(self) -> LexerState {
        if self.offset > 0 {
            LexerState { offset: (self.offset - 1) as nat, ..self }
        } else {
            let cut = scan(self.input, self.cursor);
            let table = cut.lexeme.enter(self.table);
            LexerState {
                input: self.input,
                cursor: cut.end.cleared(),
                table,
                tokens: self.tokens.push(cut.lexeme.token(table)),
                ends: self.ends.push(cut.end.at),
                offset: 0,
            }
        }
    }

    /// The state after the reader has moved one token back.
    pub open spec fn rewound(self) -> LexerState {
        LexerState { offset: self.offset + 1, ..self }
    }

    /// The state after a look at the token ahead, which produces that token
    /// where it was not produced before.
    pub open spec fn peeked(self) -> LexerState {
        if self.offset > 0 {
            self
        } else {
            self.advanced().rewound()
        }
    }

    /// The token that the reader has moved over last.
    pub open spec fn current(self) -> Token
        recommends
            self.offset < self.tokens.len(),
    {
        self.tokens[self.tokens.len() - self.offset - 1]
    }

    /// The token ahead of the reader, where it was produced before.
    pub open spec fn ahead(self) -> Token
        recommends
            0 < self.offset <= self.tokens.len(),
    {
        self.tokens[self.tokens.len() - self.offset]
    }

    /// The state after `k` moves back.
    pub open spec fn rewound_by(self, k: nat) -> LexerState
        decreases k,
    {
        if k == 0 {
            self
        } else {
            self.rewound().rewound_by((k - 1) as nat)
        }
    }

    /// The state after `k` moves on.
    pub open spec fn advanced_by(self, k: nat) -> LexerState
        decreases k,
    {
        if k == 0 {
            self
        } else {
            self.advanced_by((k - 1) as nat).advanced()
        }
    }
}

/// A lexer over a text held in memory.
pub struct Lexer {
    input: Vec<char>,
    pos: usize,
    buffer: String,
    location: Location,
    tokens: VecDeque<Token>,
    ends: Ghost<Seq<Location>>,
    offset: usize,
    interner: Interner,
}

impl View for Lexer {
    type V = LexerState;

    closed spec fn view(&self) -> LexerState {
        LexerState {
            input: self.input@,
            cursor: self.cursor(),
            table: self.interner@,
            tokens: self.tokens@,
            ends: self.ends@,
            offset: self.offset as nat,
        }
    }
}

impl Lexer {
    /// Where the reader of characters stands.
    closed spec fn cursor(&self) -> Cursor {
        Cursor { pos: self.pos as nat, at: self.location, text: self.buffer@ }
    }

    /// What the functions that read characters rely on and keep.
    closed spec fn reading(&self) -> bool {
        self.cursor().sound(self.input@) && self.interner.wf()
    }

    /// Whether everything but the reader of characters and the interner is as
    /// in `before`.
    closed spec fn same_stream(&self, before: &Lexer) -> bool {
        self.input == before.input && self.tokens == before.tokens && self.ends == before.ends
            && self.offset == before.offset
    }

    /// What holds of a lexer between two calls.
    pub open spec fn wf(&self) -> bool {
        self@.wf()
    }

    /// A lexer at the start of `input` that interns into `interner`.
    pub fn new(interner: Interner, input: &str) -> (lexer: Lexer)
        requires
            interner.wf(),
            input@.len() < i32::MAX,
        ensures
            lexer.wf(),
            lexer@ == LexerState::start(input@, interner@),
    {
        proof {
            interner.lemma_bounded();
        }
        Lexer {
            input: characters(input),
            pos: 0,
            buffer: String::new(),
            location: Location { line: 1, column: 1, absolute: 0 },
            tokens: VecDeque::with_capacity(20),
            ends: Ghost(Seq::empty()),
            offset: 0,
            interner,
        }
    }

    /// The location that the lexer has read up to: the one behind the last
    /// token that was cut from the input.
    pub fn location(&self) -> (at: Location)
        ensures
            at == self@.cursor.at,
    {
        self.location
    }

    /// The interner, with every string that the tokens refer to.
    pub fn interner(&self) -> (interner: &Interner)
        ensures
            interner@ == self@.table,
    {
        &self.interner
    }

    /// Gives up the lexer for its interner.
    pub fn into_interner(self) -> (interner: Interner)
        requires
            self.wf(),
        ensures
            interner@ == self@.table,
            interner.wf(),
    {
        self.interner
    }

    /// The token ahead of the reader. The reader stays where it is.
    pub fn peek(&mut self) -> (token: &Token)
        requires
            old(self).wf(),
            old(self)@.ready(),
        ensures
            final(self).wf(),
            final(self)@ == old(self)@.peeked(),
            *token == final(self)@.ahead(),
    {
        if self.offset != 0 && self.tokens.len() != 0 {
            &self.tokens[self.tokens.len() - self.offset]
        } else {
            self.next();
            self.backtrack();
            &self.tokens[self.tokens.len() - 1]
        }
    }

    /// Moves the reader one token on and returns that token.
    pub fn next(&mut self) -> (token: &Token)
        requires
            old(self).wf(),
            old(self)@.ready(),
        ensures
            final(self).wf(),
            final(self)@ == old(self)@.advanced(),
            final(self)@.offset < final(self)@.tokens.len(),
            *token == final(self)@.current(),
            final(self)@.cursor.at.absolute >= old(self)@.cursor.at.absolute,
            old(self)@.offset == 0 && *token != Token::TEOF ==> final(self)@.cursor.at.absolute
                > old(self)@.cursor.at.absolute,
    {
        proof {
            lemma_locations_increase(self@);
        }
        if self.offset > 0 {
            self.offset -= 1;
        } else {
            let t = self.next_token();
            self.tokens.push_back(t);
            proof {
                self.ends@ = self.ends@.push(self.location);
            }
            self.reset_str();
            proof {
                self.interner.lemma_bounded();
                lemma_advanced_wf(old(self)@);
            }
        }
        self.current()
    }

    /// The token that the reader has moved over last.
    pub fn current(&self) -> (token: &Token)
        requires
            self.wf(),
            self@.offset < self@.tokens.len(),
        ensures
            *token == self@.current(),
    {
        &self.tokens[self.tokens.len() - self.offset - 1]
    }

    /// Moves the reader back by one token.
    pub fn backtrack(&mut self)
        requires
            old(self).wf(),
            old(self)@.offset < old(self)@.tokens.len(),
        ensures
            final(self).wf(),
            final(self)@ == old(self)@.rewound(),
    {
        let len = self.tokens.len();
        assert(self.offset < len);
        self.offset += 1;
    }

    /// The next character of the input, which stays unread.
    fn peek_char(&self) -> (c: Option<char>)
        requires
            self.reading(),
        ensures
            c == if self.pos < self.input@.len() {
                Some(self.input@[self.pos as int])
            } else {
                None
            },
    {
        if self.pos < self.input.len() {
            Some(self.input[self.pos])
        } else {
            None
        }
    }

    fn reset_str(&mut self)
        ensures
            final(self).cursor() == old(self).cursor().cleared(),
            final(self).same_stream(old(self)),
            final(self).interner == old(self).interner,
    {
        self.buffer.clear();
    }

    /// The index behind the character at `i`, and behind the line feed that
    /// follows it where the character is a carriage return.
    fn after(&self, i: usize) -> (j: usize)
        requires
            i < self.input@.len(),
        ensures
            j == if self.input@[i as int] == '\r' && i + 1 < self.input@.len() && self.input@[i
                + 1] == '\n' {
                i + 2
            } else {
                i + 1
            },
    {
        let len = self.input.len();
        assert(i < len);
        if self.input[i] == '\r' && i + 1 < self.input.len() && self.input[i + 1] == '\n' {
            i + 2
        } else {
            i + 1
        }
    }

    /// Reads a character from the input and moves the location on.
    fn read_char(&mut self) -> (c: Option<char>)
        requires
            old(self).reading(),
        ensures
            final(self).reading(),
            final(self).same_stream(old(self)),
            final(self).interner == old(self).interner,
            old(self).pos < old(self).input@.len() ==> c == Some(
                old(self).input@[old(self).pos as int],
            ) && final(self).cursor() == step(old(self).input@, old(self).cursor()),
            old(self).pos >= old(self).input@.len() ==> c is None && final(self).cursor() == old(
                self,
            ).cursor(),
    {
        if self.pos < self.input.len() {
            let c = self.input[self.pos];
            self.buffer.push(c);
            self.pos = self.after(self.pos);
            self.location.absolute += 1;
            self.location.column += 1;
            if c == '\n' || c == '\r' {
                self.location.column = 0;
                self.location.line += 1;
            }
            Some(c)
        } else {
            None
        }
    }

    fn current_str(&self) -> (s: &str)
        ensures
            s@ == self.cursor().text,
    {
        self.buffer.as_str()
    }

    /// Interns `s` in the lexer's interner.
    pub fn intern(&mut self, s: &str) -> (handle: InternedStr)
        requires
            old(self).wf(),
        ensures
            final(self).wf(),
            final(self)@ == (LexerState { table: interned(old(self)@.table, s@), ..old(self)@ }),
            handle.slot() < final(self)@.table.len(),
            final(self)@.table[handle.slot() as int] == s@,
    {
        proof {
            lemma_interned_extends(self.interner@, s@);
        }
        let handle = self.interner.intern(s);
        proof {
            self.interner.lemma_bounded();
        }
        handle
    }

    /// Interns what was gathered for the token that is being read.
    fn intern_current(&mut self) -> (handle: InternedStr)
        requires
            old(self).reading(),
        ensures
            final(self).reading(),
            final(self).same_stream(old(self)),
            final(self).cursor() == old(self).cursor(),
            final(self).interner@ == interned(old(self).interner@, old(self).cursor().text),
            handle == handle_of(final(self).interner@, old(self).cursor().text),
    {
        let handle = self.interner.intern(self.buffer.as_str());
        proof {
            lemma_handle_of(self.interner@, handle);
        }
        handle
    }

    /// Reads the longest run of characters of `class`.
    fn read_while(&mut self, class: CharClass)
        requires
            old(self).reading(),
        ensures
            final(self).reading(),
            final(self).same_stream(old(self)),
            final(self).interner == old(self).interner,
            final(self).cursor() == run(old(self).input@, old(self).cursor(), class),
    {
        loop
            invariant
                self.reading(),
                self.same_stream(old(self)),
                self.interner == old(self).interner,
                run(self.input@, self.cursor(), class) == run(
                    old(self).input@,
                    old(self).cursor(),
                    class,
                ),
            ensures
                self.cursor() == run(old(self).input@, old(self).cursor(), class),
            decreases self.input@.len() - self.pos,
        {
            match self.peek_char() {
                Some(ch) => {
                    if !class.accepts(ch) {
                        break ;
                    }
                    self.read_char();
                },
                None => {
                    break ;
                },
            }
        }
    }

    /// Reads the digits that follow.
    fn scan_digits(&mut self)
        requires
            old(self).reading(),
        ensures
            final(self).reading(),
            final(self).same_stream(old(self)),
            final(self).interner == old(self).interner,
            final(self).cursor() == run(old(self).input@, old(self).cursor(), CharClass::Digit),
    {
        self.read_while(CharClass::Digit)
    }

    /// Reads the rest of a number whose first digit is read, and makes its
    /// token: a float where a point follows the digits, else an integer.
    fn scan_number(&mut self) -> (token: Token)
        requires
            old(self).reading(),
            scan_number(old(self).input@, old(self).cursor()).lexeme.fits(),
            exists|start: Cursor|
                start.pos < old(self).input@.len() && start.text.len() == 0 && is_decimal_digit(
                    old(self).input@[start.pos as int],
                ) && old(self).cursor() == step(old(self).input@, start),
        ensures
            final(self).reading(),
            final(self).same_stream(old(self)),
            final(self).produced(
                old(self),
                scan_number(old(self).input@, old(self).cursor()),
                token,
            ),
    {
        proof {
            let start = choose|start: Cursor|
                start.pos < old(self).input@.len() && start.text.len() == 0 && is_decimal_digit(
                    old(self).input@[start.pos as int],
                ) && old(self).cursor() == step(old(self).input@, start);
            lemma_digits(self.input@, start);
        }
        self.scan_digits();
        let mut is_float = false;
        match self.peek_char() {
            Some('.') => {
                self.read_char();
                is_float = true;
                self.scan_digits();
            },
            _ => (),
        }
        if is_float {
            Token::TFloat(self.intern_current())
        } else {
            Token::TInteger(parse_integer(self.current_str()).unwrap())
        }
    }

    /// Whether the lexer has read `cut` from where `before` stood and made
    /// `token` of it.
    closed spec fn produced(&self, before: &Lexer, cut: Scan, token: Token) -> bool {
        &&& self.cursor() == cut.end
        &&& self.interner@ == cut.lexeme.enter(before.interner@)
        &&& token == cut.lexeme.token(self.interner@)
    }

    /// Reads the rest of a word whose first character is read, and makes its
    /// token: a keyword or an identifier.
    fn scan_identifier(&mut self) -> (token: Token)
        requires
            old(self).reading(),
            old(self).cursor().text.len() > 0,
        ensures
            final(self).reading(),
            final(self).same_stream(old(self)),
            final(self).produced(
                old(self),
                Scan {
                    lexeme: word_lexeme(
                        run(old(self).input@, old(self).cursor(), CharClass::Word).text,
                    ),
                    end: run(old(self).input@, old(self).cursor(), CharClass::Word),
                },
                token,
            ),
    {
        proof {
            lemma_run_text(self.input@, self.cursor(), CharClass::Word);
        }
        self.read_while(CharClass::Word);
        match keyword_token(self.current_str()) {
            Some(token) => token,
            None => {
                let upper = self.current_str().get_char(0).is_uppercase();
                let s = self.intern_current();
                if upper {
                    Token::TConstructor(s)
                } else {
                    Token::TVariable(s)
                }
            },
        }
    }

    /// Cuts the next token from the input: passes over white space, then lets
    /// the first character decide what kind of token to read. At the end of
    /// the input the token is `TEOF`.
    fn next_token(&mut self) -> (token: Token)
        requires
            old(self).reading(),
            scan(old(self).input@, old(self).cursor()).lexeme.fits(),
        ensures
            final(self).reading(),
            final(self).same_stream(old(self)),
            final(self).produced(old(self), scan(old(self).input@, old(self).cursor()), token),
    {
        //Skip all whitespace before the token
        self.read_while(CharClass::Blank);
        self.reset_str();
        let ghost start = self.cursor();
        let c = match self.read_char() {
            Some(x) => x,
            None => {
                return Token::TEOF;
            },
        };
        //Decide how to tokenize depending on what the first char is
        //ie if its an operator then more operators will follow
        if is_operator(c) {
            self.read_while(CharClass::Operator);
            match operator_token(self.current_str()) {
                Some(token) => token,
                None => Token::TOperator(self.intern_current()),
            }
        } else if c.is_digit(10) {
            self.scan_number()
        } else if c.is_alphabetic() || c == '_' {
            self.scan_identifier()
        } else if c == '"' {
            self.scan_string()
        } else if c == '\'' {
            self.scan_char()
        } else {
            punctuation_token(c)
        }
    }

    /// Whether the token ahead can be handed out, which `next` and `peek` ask
    /// for. It cannot where the input goes on with an integer literal that 64
    /// bits cannot hold.
    pub fn is_ready(&self) -> (r: bool)
        requires
            self.wf(),
        ensures
            r == self@.ready(),
    {
        if self.offset > 0 {
            return true;
        }
        let mut i = self.pos;
        let ghost mut cur = self.cursor();
        while i < self.input.len() && self.input[i].is_whitespace()
            invariant
                cur.pos == i,
                i <= self.input@.len(),
                run(self.input@, cur, CharClass::Blank) == run(
                    self.input@,
                    self.cursor(),
                    CharClass::Blank,
                ),
            decreases self.input@.len() - i,
        {
            proof {
                cur = step(self.input@, cur);
            }
            i = self.after(i);
        }
        let ghost start = cur.cleared();
        if i >= self.input.len() {
            return true;
        }
        let c = self.input[i];
        if is_operator(c) || !c.is_digit(10) {
            return true;
        }
        let mut digits = String::new();
        digits.push(c);
        i = self.after(i);
        proof {
            cur = step(self.input@, start);
            lemma_digits(self.input@, start);
        }
        while i < self.input.len() && self.input[i].is_digit(10)
            invariant
                cur.pos == i,
                i <= self.input@.len(),
                cur.text == digits@,
                run(self.input@, cur, CharClass::Digit) == run(
                    self.input@,
                    step(self.input@, start),
                    CharClass::Digit,
                ),
            decreases self.input@.len() - i,
        {
            proof {
                cur = step(self.input@, cur);
            }
            digits.push(self.input[i]);
            i = self.after(i);
        }
        if i < self.input.len() && self.input[i] == '.' {
            return true;
        }
        parse_integer(digits.as_str()).is_some()
    }

    /// Moves the reader one token on and returns that token, where there is
    /// one; where the input goes on with an integer literal that 64 bits
    /// cannot hold, nothing changes and nothing is returned.
    pub fn try_next(&mut self) -> (token: Option<Token>)
        requires
            old(self).wf(),
        ensures
            final(self).wf(),
            old(self)@.ready() ==> final(self)@ == old(self)@.advanced() && token == Some(
                final(self)@.current(),
            ),
            !old(self)@.ready() ==> final(self)@ == old(self)@ && token is None,
    {
        if self.is_ready() {
            Some(*self.next())
        } else {
            None
        }
    }

    /// The token ahead of the reader, where there is one; where the input goes
    /// on with an integer literal that 64 bits cannot hold, nothing changes
    /// and nothing is returned.
    pub fn try_peek(&mut self) -> (token: Option<Token>)
        requires
            old(self).wf(),
        ensures
            final(self).wf(),
            old(self)@.ready() ==> final(self)@ == old(self)@.peeked() && token == Some(
                final(self)@.ahead(),
            ),
            !old(self)@.ready() ==> final(self)@ == old(self)@ && token is None,
    {
        if self.is_ready() {
            Some(*self.peek())
        } else {
            None
        }
    }

    /// Reads the rest of a string literal whose opening quote is read.
    fn scan_string(&mut self) -> (token: Token)
        requires
            old(self).reading(),
            old(self).cursor().text.len() == 1,
        ensures
            final(self).reading(),
            final(self).same_stream(old(self)),
            final(self).produced(
                old(self),
                scan_string(old(self).input@, old(self).cursor()),
                token,
            ),
    {
        proof {
            lemma_run_text(self.input@, self.cursor(), CharClass::Unquoted);
        }
        self.read_while(CharClass::Unquoted);
        match self.read_char() {
            Some(_) => {
                //Drop the '"' at the start and end
                let text = self.buffer.as_str();
                let len = text.unicode_len();
                let contents = text.substring_char(1, len - 1);
                let s = self.interner.intern(contents);
                proof {
                    lemma_handle_of(self.interner@, s);
                }
                Token::TString(s)
            },
            None => Token::TError(LexError::UnterminatedString),
        }
    }

    /// Reads the rest of a character literal whose opening quote is read.
    fn scan_char(&mut self) -> (token: Token)
        requires
            old(self).reading(),
        ensures
            final(self).reading(),
            final(self).same_stream(old(self)),
            final(self).produced(old(self), scan_char(old(self).input@, old(self).cursor()), token),
    {
        match self.read_char() {
            Some(x) => {
                match self.read_char() {
                    Some('\'') => Token::TChar(x),
                    _ => Token::TError(LexError::MultipleChars),
                }
            },
            None => Token::TError(LexError::UnterminatedChar),
        }
    }
}

/// Moving on keeps what holds of a lexer between two calls, as long as the
/// table of strings has not outgrown the machine.
pub proof fn lemma_advanced_wf(s: LexerState)
    requires
        s.wf(),
        s.ready(),
        s.advanced().table.len() <= usize::MAX,
    ensures
        s.advanced().wf(),
{
    if s.offset == 0 {
        let cut = scan(s.input, s.cursor);
        let after = s.advanced();
        lemma_scan_advances(s.input, s.cursor);
        lemma_scan_lexeme(s.input, s.cursor);
        lemma_interned_spelling(cut.lexeme, s.table);
        lemma_token_says_lexeme(cut.lexeme, after.table);
        assert forall|i: int| 0 <= i < after.tokens.len() implies (
        #[trigger] after.tokens[i]).known_to(after.table) by {
            if i < s.tokens.len() {
                assert(s.tokens[i].known_to(s.table));
            }
        }
        assert forall|i: int| 0 <= i < after.ends.len() implies (#[trigger] after.ends[i]).absolute
            <= after.cursor.at.absolute by {
            if i < s.ends.len() {
                assert(s.ends[i].absolute <= s.cursor.at.absolute);
            }
        }
        assert forall|i: int, j: int| 0 <= i < j < after.ends.len() implies {
            &&& (#[trigger] after.ends[i]).absolute <= (#[trigger] after.ends[j]).absolute
            &&& after.tokens[j] != Token::TEOF ==> after.ends[i].absolute < after.ends[j].absolute
        } by {
            assert(s.ends[i].absolute <= s.cursor.at.absolute);
            if j < s.ends.len() {
                assert(s.ends[i].absolute <= s.ends[j].absolute);
            }
        }
    }
}

/// The tokens of a lexer follow each other in the source: the locations at
/// which they ended never go back, and every token but the end of the input
/// ended strictly behind all tokens before it, counted in characters.
pub proof fn lemma_token_locations(s: LexerState, i: int, j: int)
    requires
        s.wf(),
        0 <= i < j < s.tokens.len(),
    ensures
        s.ends[i].absolute <= s.ends[j].absolute,
        s.tokens[j] != Token::TEOF ==> s.ends[i].absolute < s.ends[j].absolute,
{
}

/// Moving on never takes the lexer's location back, and a new token other
/// than the end of the input takes it strictly forward, counted in characters.
pub proof fn lemma_locations_increase(s: LexerState)
    requires
        s.wf(),
    ensures
        s.advanced().cursor.sound(s.input),
        s.advanced().cursor.at.absolute >= s.cursor.at.absolute,
        s.offset == 0 && s.advanced().tokens.last() != Token::TEOF
            ==> s.advanced().cursor.at.absolute > s.cursor.at.absolute,
{
    lemma_scan_advances(s.input, s.cursor);
}

/// Moving back over `k` tokens keeps everything but the count of tokens ahead,
/// which grows by `k`.
pub proof fn lemma_rewound_by(s: LexerState, k: nat)
    ensures
        s.rewound_by(k) == (LexerState { offset: s.offset + k, ..s }),
    decreases k,
{
    if k > 0 {
        lemma_rewound_by(s.rewound(), (k - 1) as nat);
    }
}

/// Moving on over `k` tokens that are ahead keeps everything but the count of
/// tokens ahead, which shrinks by `k`.
pub proof fn lemma_replayed_by(s: LexerState, k: nat)
    requires
        k <= s.offset,
    ensures
        s.advanced_by(k) == (LexerState { offset: (s.offset - k) as nat, ..s }),
    decreases k,
{
    if k > 0 {
        lemma_replayed_by(s, (k - 1) as nat);
    }
}

/// The tokens that a lexer produces are the tokens of its input in their
/// order: after `k` moves on from a state with no token ahead, the lexer
/// stands behind the first `k` tokens of what was left of the input, and the
/// token produced last is the last of them.
pub proof fn lemma_tokens_of_input(s: LexerState, k: nat)
    requires
        s.offset == 0,
        s.cursor.text.len() == 0,
    ensures
        s.advanced_by(k).offset == 0,
        s.advanced_by(k).input == s.input,
        s.advanced_by(k).cursor == cursor_after(s.input, s.cursor, k).cleared(),
        s.advanced_by(k).tokens.len() == s.tokens.len() + k,
        k > 0 ==> s.advanced_by(k).tokens.last() == token_at(
            s.input,
            s.cursor,
            (k - 1) as nat,
        ).lexeme.token(s.advanced_by(k).table),
    decreases k,
{
    if k > 0 {
        let before = s.advanced_by((k - 1) as nat);
        lemma_tokens_of_input(s, (k - 1) as nat);
        let there = cursor_after(s.input, s.cursor, (k - 1) as nat);
        lemma_scan_from(s.input, there.cleared(), there);
    } else {
        assert(s.cursor.text =~= Seq::<char>::empty());
    }
}

/// After `k` moves back and then `k` moves on the lexer is where it was: the
/// same tokens, the same position, and so the same current token.
pub proof fn lemma_rewind_then_replay(s: LexerState, k: nat)
    requires
        s.offset + k <= s.tokens.len(),
    ensures
        s.rewound_by(k).advanced_by(k) == s,
        s.rewound_by(k).advanced_by(k).current() == s.current(),
{
    lemma_rewound_by(s, k);
    lemma_replayed_by(s.rewound_by(k), k);
}

/// Once a lexeme's spelling is interned, the table holds it and all it held
/// before.
proof fn lemma_interned_spelling(lexeme: Lexeme, table: Seq<Seq<char>>)
    ensures
        lexeme.spelling() matches Some(s) ==> lexeme.enter(table).contains(s),
        table.len() <= lexeme.enter(table).len(),
        distinct(table) ==> distinct(lexeme.enter(table)),
{
    match lexeme.spelling() {
        Some(s) => {
            lemma_interned_extends(table, s);
        },
        None => {},
    }
}

} // verus!
