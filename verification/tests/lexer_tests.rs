use langfront::interner::Interner;
use langfront::lexer::{is_operator, keyword_token, operator_token, punctuation_token, Lexer};
use langfront::scan::CharClass;
use langfront::pos::Location;
use langfront::token::{LexError, Token};

fn lexer(text: &str) -> Lexer {
    Lexer::new(Interner::new(), text)
}

#[test]
fn lex() {
    let mut lexer = lexer("main : () -> Int; main = { 1 + 2 }");
    let plus = lexer.intern("+");
    let main = lexer.intern("main");
    let i = lexer.intern("Int");
    assert_eq!(lexer.next(), &Token::TVariable(main));
    assert_eq!(lexer.next(), &Token::TColon);
    assert_eq!(lexer.next(), &Token::TOpenParen);
    assert_eq!(lexer.next(), &Token::TCloseParen);
    assert_eq!(lexer.next(), &Token::TRArrow);
    assert_eq!(lexer.next(), &Token::TConstructor(i));
    assert_eq!(lexer.next(), &Token::TSemicolon);
    assert_eq!(lexer.next(), &Token::TVariable(main));
    assert_eq!(lexer.next(), &Token::TAssign);
    assert_eq!(lexer.next(), &Token::TOpenBrace);
    assert_eq!(lexer.next(), &Token::TInteger(1));
    assert_eq!(lexer.next(), &Token::TOperator(plus));
    assert_eq!(lexer.next(), &Token::TInteger(2));
    assert_eq!(lexer.next(), &Token::TCloseBrace);
}

#[test]
fn string_literal_is_one_token_with_its_contents() {
    let mut lexer = lexer("\"hi\"");
    let token = *lexer.next();
    let hi = lexer.intern("hi");
    assert_eq!(token, Token::TString(hi));
    assert_eq!(lexer.interner().string(hi), "hi");
    assert_eq!(*lexer.next(), Token::TEOF);
}

#[test]
fn char_literal_with_two_characters_is_an_error() {
    let mut lexer = lexer("'ab'");
    assert_eq!(*lexer.next(), Token::TError(LexError::MultipleChars));
    assert_eq!(
        LexError::MultipleChars.message(),
        "Attempted to lex a character literal with multiple character"
    );
}

#[test]
fn location_starts_at_line_one_column_one() {
    let lexer = lexer("x");
    assert_eq!(lexer.location(), Location { line: 1, column: 1, absolute: 0 });
}

fn tokens_of(text: &str) -> (Vec<Token>, Lexer) {
    let mut lexer = lexer(text);
    let mut tokens = Vec::new();
    loop {
        let before = lexer.location();
        let token = *lexer.next();
        if token == Token::TEOF && lexer.location() == before {
            break;
        }
        tokens.push(token);
    }
    (tokens, lexer)
}

fn spelled(lexer: &Lexer, token: Token) -> String {
    match token {
        Token::TFloat(s)
        | Token::TString(s)
        | Token::TVariable(s)
        | Token::TConstructor(s)
        | Token::TOperator(s) => lexer.interner().string(s).to_string(),
        _ => panic!("the token has no spelling"),
    }
}

#[test]
fn keywords_have_tokens_of_their_own() {
    let (tokens, _) = tokens_of("if else while for match data trait impl let true false");
    assert_eq!(
        tokens,
        vec![
            Token::TIf,
            Token::TElse,
            Token::TWhile,
            Token::TFor,
            Token::TMatch,
            Token::TData,
            Token::TTrait,
            Token::TImpl,
            Token::TLet,
            Token::TTrue,
            Token::TFalse,
        ]
    );
}

#[test]
fn a_keyword_inside_a_longer_word_is_an_identifier() {
    let (tokens, lexer) = tokens_of("iffy Let _x x1");
    assert_eq!(tokens.len(), 4);
    assert!(matches!(tokens[0], Token::TVariable(_)));
    assert!(matches!(tokens[1], Token::TConstructor(_)));
    assert!(matches!(tokens[2], Token::TVariable(_)));
    assert!(matches!(tokens[3], Token::TVariable(_)));
    assert_eq!(spelled(&lexer, tokens[0]), "iffy");
    assert_eq!(spelled(&lexer, tokens[1]), "Let");
    assert_eq!(spelled(&lexer, tokens[2]), "_x");
    assert_eq!(spelled(&lexer, tokens[3]), "x1");
}

#[test]
fn operators_are_read_greedily() {
    let (tokens, lexer) = tokens_of("= : -> . => == <|> a.b ::");
    assert_eq!(tokens[0], Token::TAssign);
    assert_eq!(tokens[1], Token::TColon);
    assert_eq!(tokens[2], Token::TRArrow);
    assert_eq!(tokens[3], Token::TDot);
    assert_eq!(tokens[4], Token::TMatchArrow);
    assert_eq!(spelled(&lexer, tokens[5]), "==");
    assert!(matches!(tokens[5], Token::TOperator(_)));
    assert_eq!(spelled(&lexer, tokens[6]), "<|>");
    assert!(matches!(tokens[7], Token::TVariable(_)));
    assert_eq!(tokens[8], Token::TDot);
    assert!(matches!(tokens[9], Token::TVariable(_)));
    assert_eq!(spelled(&lexer, tokens[10]), "::");
    assert_eq!(tokens.len(), 11);
}

#[test]
fn punctuation_marks() {
    let (tokens, _) = tokens_of("; ( ) [ ] { } , \\");
    assert_eq!(
        tokens,
        vec![
            Token::TSemicolon,
            Token::TOpenParen,
            Token::TCloseParen,
            Token::TOpenBracket,
            Token::TCloseBracket,
            Token::TOpenBrace,
            Token::TCloseBrace,
            Token::TComma,
            Token::TLambda,
        ]
    );
}

#[test]
fn numbers() {
    let (tokens, lexer) = tokens_of("12 007 1.5 3. 9223372036854775807");
    assert_eq!(tokens[0], Token::TInteger(12));
    assert_eq!(tokens[1], Token::TInteger(7));
    assert!(matches!(tokens[2], Token::TFloat(_)));
    assert_eq!(spelled(&lexer, tokens[2]), "1.5");
    assert!(matches!(tokens[3], Token::TFloat(_)));
    assert_eq!(spelled(&lexer, tokens[3]), "3.");
    assert_eq!(tokens[4], Token::TInteger(i64::MAX));
    assert_eq!(tokens.len(), 5);
}

#[test]
fn a_float_spelling_reads_as_the_number() {
    let (tokens, lexer) = tokens_of("2.25");
    let value: f64 = spelled(&lexer, tokens[0]).parse().unwrap();
    assert_eq!(value, 2.25);
}

#[test]
fn an_integer_beyond_64_bits_is_not_ready() {
    let mut lexer = lexer("x 9223372036854775808 y");
    assert!(lexer.is_ready());
    assert!(matches!(lexer.try_peek(), Some(Token::TVariable(_))));
    assert!(matches!(lexer.try_next(), Some(Token::TVariable(_))));
    let at = lexer.location();
    assert!(!lexer.is_ready());
    assert_eq!(lexer.try_peek(), None);
    assert_eq!(lexer.try_next(), None);
    assert_eq!(lexer.location(), at);
    assert!(matches!(*lexer.current(), Token::TVariable(_)));
    lexer.backtrack();
    assert!(lexer.is_ready());
    assert!(matches!(lexer.try_next(), Some(Token::TVariable(_))));
}

#[test]
fn a_float_with_many_digits_is_ready() {
    let mut lexer = lexer("  99999999999999999999.5");
    assert!(lexer.is_ready());
    let token = *lexer.next();
    assert_eq!(spelled(&lexer, token), "99999999999999999999.5");
}

#[test]
fn string_literals() {
    let (tokens, lexer) = tokens_of("\"\" \"a b\" \"x\r\ny\"");
    assert_eq!(spelled(&lexer, tokens[0]), "");
    assert_eq!(spelled(&lexer, tokens[1]), "a b");
    assert_eq!(spelled(&lexer, tokens[2]), "x\ry");
    assert!(tokens.iter().all(|t| matches!(t, Token::TString(_))));
    assert_eq!(tokens.len(), 3);
}

#[test]
fn an_unterminated_string_is_an_error_token() {
    let mut lexer = lexer("\"abc");
    assert_eq!(*lexer.next(), Token::TError(LexError::UnterminatedString));
    assert_eq!(LexError::UnterminatedString.message(), "Unexpected EOF when lexing string literal");
    assert_eq!(*lexer.next(), Token::TEOF);
}

#[test]
fn character_literals() {
    let mut lexer = lexer("'a' 'b");
    assert_eq!(*lexer.next(), Token::TChar('a'));
    assert_eq!(*lexer.next(), Token::TError(LexError::MultipleChars));
    assert_eq!(*lexer.next(), Token::TEOF);
}

#[test]
fn a_quote_at_the_end_is_an_unterminated_character() {
    let mut lexer = lexer("'");
    assert_eq!(*lexer.next(), Token::TError(LexError::UnterminatedChar));
    assert_eq!(LexError::UnterminatedChar.message(), "Unexpected EOF when lexing char literal");
}

#[test]
fn what_follows_a_failed_character_literal_is_lexed_on() {
    let mut lexer = lexer("'ab'");
    assert_eq!(*lexer.next(), Token::TError(LexError::MultipleChars));
    assert_eq!(*lexer.next(), Token::TError(LexError::UnterminatedChar));
    assert_eq!(*lexer.next(), Token::TEOF);
}

#[test]
fn an_unknown_character_reads_as_the_end_of_input() {
    let mut lexer = lexer("a # b");
    assert!(matches!(*lexer.next(), Token::TVariable(_)));
    assert_eq!(*lexer.next(), Token::TEOF);
    assert!(matches!(*lexer.next(), Token::TVariable(_)));
    assert_eq!(*lexer.next(), Token::TEOF);
}

#[test]
fn empty_input_is_at_its_end() {
    let mut lexer = lexer("");
    assert_eq!(*lexer.next(), Token::TEOF);
    assert_eq!(*lexer.next(), Token::TEOF);
    assert_eq!(lexer.location(), Location { line: 1, column: 1, absolute: 0 });
}

#[test]
fn locations_count_lines_and_columns() {
    let mut lexer = lexer("main x\ny");
    lexer.next();
    assert_eq!(lexer.location(), Location { line: 1, column: 5, absolute: 4 });
    lexer.next();
    assert_eq!(lexer.location(), Location { line: 1, column: 7, absolute: 6 });
    lexer.next();
    assert_eq!(lexer.location(), Location { line: 2, column: 1, absolute: 8 });
}

#[test]
fn a_line_feed_resets_the_column_to_zero() {
    let mut lexer = lexer("a\n");
    lexer.next();
    assert_eq!(*lexer.next(), Token::TEOF);
    assert_eq!(lexer.location(), Location { line: 2, column: 0, absolute: 2 });
}

#[test]
fn carriage_return_and_line_feed_end_one_line() {
    let mut lexer = lexer("a\r\nb");
    lexer.next();
    lexer.next();
    assert_eq!(lexer.location(), Location { line: 2, column: 1, absolute: 3 });
}

#[test]
fn line_feed_and_carriage_return_end_two_lines() {
    let mut lexer = lexer("a\n\rb");
    lexer.next();
    lexer.next();
    assert_eq!(lexer.location(), Location { line: 3, column: 1, absolute: 4 });
}

#[test]
fn locations_move_forward_with_every_token() {
    let mut lexer = lexer("let x = \"s\" in\n  f 'c' 1.0 # (x)  ");
    let mut last = lexer.location().absolute;
    for _ in 0..20 {
        let token = *lexer.next();
        let now = lexer.location().absolute;
        assert!(now >= last);
        if token != Token::TEOF {
            assert!(now > last);
        }
        last = now;
    }
}

#[test]
fn backtrack_then_next_returns_to_the_same_token() {
    let mut lexer = lexer("a b c d");
    lexer.next();
    lexer.next();
    let third = *lexer.next();
    for k in 1..=3 {
        for _ in 0..k {
            lexer.backtrack();
        }
        for _ in 0..k {
            lexer.next();
        }
        assert_eq!(*lexer.current(), third);
    }
    let at = lexer.location();
    lexer.backtrack();
    lexer.backtrack();
    assert_eq!(lexer.location(), at);
    let a = lexer.intern("a");
    let b = lexer.intern("b");
    assert_eq!(*lexer.current(), Token::TVariable(a));
    assert_eq!(*lexer.next(), Token::TVariable(b));
}

#[test]
fn peek_does_not_move_the_reader() {
    let mut lexer = lexer("a b");
    let a = lexer.intern("a");
    let b = lexer.intern("b");
    assert_eq!(*lexer.peek(), Token::TVariable(a));
    assert_eq!(*lexer.peek(), Token::TVariable(a));
    assert_eq!(*lexer.next(), Token::TVariable(a));
    assert_eq!(*lexer.current(), Token::TVariable(a));
    assert_eq!(*lexer.peek(), Token::TVariable(b));
    assert_eq!(*lexer.current(), Token::TVariable(a));
    assert_eq!(*lexer.next(), Token::TVariable(b));
    assert_eq!(*lexer.peek(), Token::TEOF);
    assert_eq!(*lexer.current(), Token::TVariable(b));
}

#[test]
fn equal_spellings_share_a_handle() {
    let mut lexer = lexer("foo bar foo");
    let first = *lexer.next();
    let second = *lexer.next();
    let third = *lexer.next();
    assert_eq!(first, third);
    assert_ne!(first, second);
    assert_eq!(lexer.interner().len(), 2);
}

#[test]
fn lexing_the_spellings_again_gives_the_same_tokens() {
    let text = "let  add = \\x y ->\n x + y ; if true { f (1, 2.5) } else [ \"s\" , 'c' ]";
    let (tokens, first) = tokens_of(text);
    let mut again = String::new();
    for token in &tokens {
        let piece = match *token {
            Token::TInteger(v) => v.to_string(),
            Token::TFloat(s)
            | Token::TVariable(s)
            | Token::TConstructor(s)
            | Token::TOperator(s) => {
                first.interner().string(s).to_string()
            }
            Token::TString(s) => format!("\"{}\"", first.interner().string(s)),
            Token::TChar(c) => format!("'{}'", c),
            Token::TTrue => "true".to_string(),
            Token::TFalse => "false".to_string(),
            Token::TIf => "if".to_string(),
            Token::TElse => "else".to_string(),
            Token::TLet => "let".to_string(),
            Token::TOpenBrace => "{".to_string(),
            Token::TCloseBrace => "}".to_string(),
            Token::TOpenParen => "(".to_string(),
            Token::TCloseParen => ")".to_string(),
            Token::TOpenBracket => "[".to_string(),
            Token::TCloseBracket => "]".to_string(),
            Token::TSemicolon => ";".to_string(),
            Token::TComma => ",".to_string(),
            Token::TAssign => "=".to_string(),
            Token::TRArrow => "->".to_string(),
            Token::TLambda => "\\".to_string(),
            _ => panic!("a token that the text does not hold"),
        };
        again.push_str(&piece);
        again.push(' ');
    }
    let mut second = Lexer::new(Interner::new(), &again);
    for token in &tokens {
        let next = *second.next();
        match (*token, next) {
            (Token::TFloat(a), Token::TFloat(b))
            | (Token::TVariable(a), Token::TVariable(b))
            | (Token::TConstructor(a), Token::TConstructor(b))
            | (Token::TOperator(a), Token::TOperator(b))
            | (Token::TString(a), Token::TString(b)) => {
                assert_eq!(first.interner().string(a), second.interner().string(b))
            }
            (a, b) => assert_eq!(a, b),
        }
    }
    assert_eq!(*second.next(), Token::TEOF);
}

#[test]
fn operator_characters() {
    for c in "+-*/.$:=<>|&!".chars() {
        assert!(is_operator(c));
    }
    for c in "a1 _(){}[];,\\\"'#@^%~?".chars() {
        assert!(!is_operator(c));
    }
}

#[test]
fn keywords_operators_and_marks_by_their_spelling() {
    assert_eq!(keyword_token("match"), Some(Token::TMatch));
    assert_eq!(keyword_token("Match"), None);
    assert_eq!(keyword_token(""), None);
    assert_eq!(operator_token("=>"), Some(Token::TMatchArrow));
    assert_eq!(operator_token("=="), None);
    assert_eq!(operator_token("-"), None);
    assert_eq!(punctuation_token('\\'), Token::TLambda);
    assert_eq!(punctuation_token('}'), Token::TCloseBrace);
    assert_eq!(punctuation_token('#'), Token::TEOF);
}

#[test]
fn character_classes() {
    assert!(CharClass::Blank.accepts(' '));
    assert!(CharClass::Blank.accepts('\n'));
    assert!(CharClass::Blank.accepts('\u{a0}'));
    assert!(!CharClass::Blank.accepts('x'));
    assert!(CharClass::Digit.accepts('7'));
    assert!(!CharClass::Digit.accepts('a'));
    assert!(!CharClass::Digit.accepts('\u{663}'));
    assert!(CharClass::Word.accepts('\u{e9}'));
    assert!(CharClass::Word.accepts('_'));
    assert!(CharClass::Word.accepts('\u{663}'));
    assert!(!CharClass::Word.accepts('-'));
    assert!(CharClass::Operator.accepts('|'));
    assert!(!CharClass::Operator.accepts('_'));
    assert!(CharClass::Unquoted.accepts('x'));
    assert!(!CharClass::Unquoted.accepts('"'));
}

#[test]
fn words_may_hold_letters_of_any_script() {
    let (tokens, lexer) = tokens_of("\u{e9}t\u{e9} \u{c9}t\u{e9} \u{4eac}");
    assert!(matches!(tokens[0], Token::TVariable(_)));
    assert!(matches!(tokens[1], Token::TConstructor(_)));
    assert!(matches!(tokens[2], Token::TVariable(_)));
    assert_eq!(spelled(&lexer, tokens[0]), "\u{e9}t\u{e9}");
    assert_eq!(tokens.len(), 3);
}

#[test]
fn white_space_of_any_kind_separates_tokens() {
    let (tokens, _) = tokens_of("\t1\u{a0}2\u{2003}3\r\n4\u{3000}5");
    assert_eq!(
        tokens,
        vec![
            Token::TInteger(1),
            Token::TInteger(2),
            Token::TInteger(3),
            Token::TInteger(4),
            Token::TInteger(5),
        ]
    );
}

#[test]
fn a_string_keeps_the_line_feed_behind_a_line_end_pair() {
    let (tokens, lexer) = tokens_of("\"\r\n\n\"");
    assert_eq!(spelled(&lexer, tokens[0]), "\r\n");
    let (again, second) = tokens_of("\"\r\n\"");
    assert_eq!(spelled(&second, again[0]), "\r");
}

#[test]
fn the_interner_outlives_the_lexer() {
    let mut interner = Interner::new();
    let before = interner.intern("before");
    let mut lexer = Lexer::new(interner, "after before");
    let after = lexer.intern("after");
    assert_eq!(lexer.next(), &Token::TVariable(after));
    assert_eq!(lexer.next(), &Token::TVariable(before));
    let interner = lexer.into_interner();
    assert_eq!(interner.len(), 2);
    assert_eq!(interner.string(before), "before");
    assert_eq!(interner.string(after), "after");
}
