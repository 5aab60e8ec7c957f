//! Spelling tokens out and lexing them again: what a token was cut from, read
//! once more, gives that token back.

use crate::scan::{cursor_after, lemma_run_text, operator_char, run, scan, step, token_at, CharClass,
    Cursor};
use crate::text::{char_is_alphabetic, char_is_alphanumeric, char_is_whitespace, is_decimal_digit};
use crate::token::{Lexeme, Token};
use vstd::prelude::*;

verus! {

/// Whether no carriage return in `text` stands directly before a line feed.
pub open spec fn no_line_end_pair(text: Seq<char>) -> bool {
    forall|i: int|
        0 <= i && i + 1 < text.len() ==> !(text[i] == '\r' && #[trigger] text[i + 1] == '\n')
}

/// Whether `part` stands in `text` from `place` on.
pub open spec fn stands_at(text: Seq<char>, place: int, part: Seq<char>) -> bool {
    &&& 0 <= place
    &&& place + part.len() <= text.len()
    &&& text.subrange(place, place + part.len()) == part
}

/// A run read once can be read again from a text that holds what it
/// gathered: where the characters gathered by the run over `input` stand in
/// `text`, those gathered before the run directly before the place of `again`,
/// and `text` goes on behind them, if at all, with a character outside the
/// class, the run over `text` from `again` gathers the same and stops behind
/// them.
pub proof fn lemma_run_again(
    input: Seq<char>,
    cur: Cursor,
    class: CharClass,
    text: Seq<char>,
    again: Cursor,
)
    requires
        no_line_end_pair(text),
        again.text == cur.text,
        stands_at(text, again.pos - cur.text.len(), run(input, cur, class).text),
        text.len() == again.pos - cur.text.len() + run(input, cur, class).text.len()
            || !class.holds(
            text[again.pos - cur.text.len() + run(input, cur, class).text.len()],
        ),
    ensures
        run(text, again, class).pos == again.pos - cur.text.len() + run(
            input,
            cur,
            class,
        ).text.len(),
        run(text, again, class).text == run(input, cur, class).text,
    decreases input.len() - cur.pos,
{
    let end = run(input, cur, class);
    let n = cur.text.len() as int;
    let base = again.pos - n;
    lemma_run_text(input, cur, class);
    if cur.pos < input.len() && class.holds(input[cur.pos as int]) {
        let next = step(input, cur);
        let x = input[cur.pos as int];
        lemma_run_text(input, next, class);
        assert(end.text.subrange(0, next.text.len() as int)[n] == next.text[n]);
        assert(text.subrange(base, base + end.text.len())[n] == text[base + n]);
        assert(text[again.pos as int] == x);
        if again.pos + 1 < text.len() {
            assert(!(text[again.pos as int] == '\r' && text[again.pos as int + 1] == '\n'));
        }
        let moved_on = step(text, again);
        assert(moved_on.pos == again.pos + 1);
        assert(moved_on.text == next.text);
        lemma_run_again(input, next, class, text, moved_on);
    } else {
        assert(end == cur);
    }
}

/// Lexing is stable under spelling a token out: what a scan has gathered for
/// a token, lexed on its own, gives the same token and is read to its end.
/// This holds where the gathered text has no carriage return directly before
/// a line feed, which the lexer would read as one line end.
pub proof fn lemma_scan_again(input: Seq<char>, from: Cursor, again: Cursor)
    requires
        again.pos == 0,
        no_line_end_pair(scan(input, from).end.text),
    ensures
        scan(scan(input, from).end.text, again).lexeme == scan(input, from).lexeme,
        scan(scan(input, from).end.text, again).end.text == scan(input, from).end.text,
        scan(scan(input, from).end.text, again).end.pos == scan(input, from).end.text.len(),
{
    let text = scan(input, from).end.text;
    lemma_run_text(input, from, CharClass::Blank);
    let start = run(input, from, CharClass::Blank).cleared();
    let fresh = again.cleared();
    if start.pos < input.len() {
        let c = input[start.pos as int];
        let first = step(input, start);
        assert(first.text =~= seq![c]);
        lemma_run_text(input, first, CharClass::Operator);
        lemma_run_text(input, first, CharClass::Word);
        lemma_run_text(input, first, CharClass::Digit);
        lemma_run_text(input, first, CharClass::Unquoted);
        let digits = run(input, first, CharClass::Digit);
        let body = run(input, first, CharClass::Unquoted);
        if digits.pos < input.len() {
            lemma_run_text(input, step(input, digits), CharClass::Digit);
        }
        // Every token's text begins with the character that decided its kind.
        assert(text.len() >= 1 && text[0] == c) by {
            assert(run(input, first, CharClass::Operator).text.subrange(0, 1)[0] == first.text[0]);
            assert(run(input, first, CharClass::Word).text.subrange(0, 1)[0] == first.text[0]);
            assert(digits.text.subrange(0, 1)[0] == first.text[0]);
            assert(body.text.subrange(0, 1)[0] == first.text[0]);
            if is_decimal_digit(c) && digits.pos < input.len() && input[digits.pos as int] == '.' {
                let point = step(input, digits);
                let end = run(input, point, CharClass::Digit);
                assert(end.text.subrange(0, point.text.len() as int)[0] == point.text[0]);
            }
        }
        assert(run(text, again, CharClass::Blank) == again);
        if text.len() > 1 {
            assert(!(text[0] == '\r' && text[1] == '\n'));
        }
        let first_again = step(text, fresh);
        assert(first_again.pos == 1);
        assert(first_again.text =~= first.text);
        if operator_char(c) {
            let end = run(input, first, CharClass::Operator);
            assert(text.subrange(0, text.len() as int) =~= text);
            lemma_run_again(input, first, CharClass::Operator, text, first_again);
        } else if is_decimal_digit(c) {
            if digits.pos < input.len() && input[digits.pos as int] == '.' {
                let point = step(input, digits);
                let end = run(input, point, CharClass::Digit);
                let n = digits.text.len() as int;
                assert(text.subrange(0, n) == digits.text) by {
                    assert(end.text.subrange(0, point.text.len() as int) == point.text);
                    assert(point.text == digits.text.push('.'));
                    assert forall|i: int| 0 <= i < n implies digits.text[i] == text[i] by {
                        assert(end.text.subrange(0, point.text.len() as int)[i] == point.text[i]);
                    }
                    assert(text.subrange(0, n) =~= digits.text);
                }
                assert(text[n] == '.') by {
                    assert(end.text.subrange(0, point.text.len() as int)[n] == point.text[n]);
                }
                lemma_run_again(input, first, CharClass::Digit, text, first_again);
                let digits_again = run(text, first_again, CharClass::Digit);
                if n + 1 < text.len() {
                    assert(!(text[n] == '\r' && text[n + 1] == '\n'));
                }
                let point_again = step(text, digits_again);
                assert(point_again.pos == n + 1);
                assert(point_again.text == point.text);
                assert(text.subrange(0, text.len() as int) =~= text);
                lemma_run_again(input, point, CharClass::Digit, text, point_again);
            } else {
                assert(text.subrange(0, text.len() as int) =~= text);
                lemma_run_again(input, first, CharClass::Digit, text, first_again);
            }
        } else if char_is_alphabetic(c) || c == '_' {
            assert(text.subrange(0, text.len() as int) =~= text);
            lemma_run_again(input, first, CharClass::Word, text, first_again);
        } else if c == '"' {
            let n = body.text.len() as int;
            if body.pos < input.len() {
                let end = step(input, body);
                assert(input[body.pos as int] == '"');
                assert(text == body.text.push('"'));
                assert(text.subrange(0, n) =~= body.text);
                assert(text[n] == '"');
                lemma_run_again(input, first, CharClass::Unquoted, text, first_again);
                let body_again = run(text, first_again, CharClass::Unquoted);
                let end_again = step(text, body_again);
                assert(end_again.text == text);
            } else {
                assert(text.subrange(0, text.len() as int) =~= text);
                lemma_run_again(input, first, CharClass::Unquoted, text, first_again);
            }
        } else if c == '\'' {
            if first.pos < input.len() {
                let x = input[first.pos as int];
                let second = step(input, first);
                assert(second.text =~= seq![c, x]);
                if second.pos < input.len() {
                    let y = input[second.pos as int];
                    let third = step(input, second);
                    assert(third.text =~= seq![c, x, y]);
                    assert(text =~= seq![c, x, y]);
                    assert(!(text[1] == '\r' && text[2] == '\n'));
                    let second_again = step(text, first_again);
                    assert(second_again.pos == 2);
                    assert(second_again.text =~= second.text);
                    let third_again = step(text, second_again);
                    assert(third_again.text =~= text);
                    assert(third_again.pos == 3);
                } else {
                    assert(text =~= seq![c, x]);
                    let second_again = step(text, first_again);
                    assert(second_again.pos == 2);
                    assert(second_again.text =~= text);
                }
            } else {
                assert(text =~= seq![c]);
            }
        } else {
            assert(text =~= seq![c]);
        }
    } else {
        assert(text =~= Seq::<char>::empty());
    }
}

/// Whether a character can stand between two tokens: it is white space and
/// can be part of no operator, number or word.
pub open spec fn separates(sep: char) -> bool {
    &&& char_is_whitespace(sep)
    &&& !operator_char(sep)
    &&& !is_decimal_digit(sep)
    &&& !char_is_alphanumeric(sep)
    &&& sep != '_'
}

/// Reading one character of a text without a line end pair moves one place on.
proof fn lemma_step_one(text: Seq<char>, cur: Cursor)
    requires
        no_line_end_pair(text),
        cur.pos < text.len(),
    ensures
        step(text, cur).pos == cur.pos + 1,
        step(text, cur).text == cur.text.push(text[cur.pos as int]),
{
    if cur.pos + 1 < text.len() {
        assert(!(text[cur.pos as int] == '\r' && text[cur.pos as int + 1] == '\n'));
    }
}

/// A token can be read again where it stands spelled out in a longer text:
/// where what a scan has gathered for a token other than an error stands in
/// `text` from the place of `again` on, followed by nothing or by a character
/// that separates tokens, the scan of `text` from `again` gives the same
/// token and ends behind its spelling.
pub proof fn lemma_scan_in_context(
    input: Seq<char>,
    from: Cursor,
    text: Seq<char>,
    again: Cursor,
    sep: char,
)
    requires
        separates(sep),
        no_line_end_pair(text),
        !(scan(input, from).lexeme matches Lexeme::Plain(Token::TError(_))),
        scan(input, from).end.text.len() > 0,
        stands_at(text, again.pos as int, scan(input, from).end.text),
        text.len() == again.pos + scan(input, from).end.text.len() || text[again.pos as int
            + scan(input, from).end.text.len()] == sep,
    ensures
        scan(text, again).lexeme == scan(input, from).lexeme,
        scan(text, again).end.pos == again.pos + scan(input, from).end.text.len(),
        scan(text, again).end.text == scan(input, from).end.text,
{
    let spelled = scan(input, from).end.text;
    let p = again.pos as int;
    lemma_run_text(input, from, CharClass::Blank);
    let start = run(input, from, CharClass::Blank).cleared();
    let fresh = again.cleared();
    assert(start.pos < input.len());
    let c = input[start.pos as int];
    let first = step(input, start);
    assert(first.text =~= seq![c]);
    lemma_run_text(input, first, CharClass::Operator);
    lemma_run_text(input, first, CharClass::Word);
    lemma_run_text(input, first, CharClass::Digit);
    lemma_run_text(input, first, CharClass::Unquoted);
    let digits = run(input, first, CharClass::Digit);
    let body = run(input, first, CharClass::Unquoted);
    if digits.pos < input.len() {
        lemma_run_text(input, step(input, digits), CharClass::Digit);
    }
    assert(spelled[0] == c) by {
        assert(run(input, first, CharClass::Operator).text.subrange(0, 1)[0] == first.text[0]);
        assert(run(input, first, CharClass::Word).text.subrange(0, 1)[0] == first.text[0]);
        assert(digits.text.subrange(0, 1)[0] == first.text[0]);
        assert(body.text.subrange(0, 1)[0] == first.text[0]);
        if is_decimal_digit(c) && digits.pos < input.len() && input[digits.pos as int] == '.' {
            let point = step(input, digits);
            let end = run(input, point, CharClass::Digit);
            assert(end.text.subrange(0, point.text.len() as int)[0] == point.text[0]);
        }
    }
    assert(text[p] == c) by {
        assert(text.subrange(p, p + spelled.len())[0] == text[p]);
    }
    assert(run(text, again, CharClass::Blank) == again);
    lemma_step_one(text, fresh);
    let first_again = step(text, fresh);
    assert(first_again.text =~= first.text);
    if operator_char(c) {
        lemma_run_again(input, first, CharClass::Operator, text, first_again);
    } else if is_decimal_digit(c) {
        let n = digits.text.len() as int;
        if digits.pos < input.len() && input[digits.pos as int] == '.' {
            let point = step(input, digits);
            let end = run(input, point, CharClass::Digit);
            assert(point.text == digits.text.push('.'));
            assert(end.text.subrange(0, point.text.len() as int) == point.text);
            assert(text.subrange(p, p + n) =~= digits.text) by {
                assert forall|i: int| 0 <= i < n implies text[p + i] == digits.text[i] by {
                    assert(text.subrange(p, p + spelled.len())[i] == text[p + i]);
                    assert(end.text.subrange(0, point.text.len() as int)[i] == point.text[i]);
                }
            }
            assert(text[p + n] == '.') by {
                assert(text.subrange(p, p + spelled.len())[n] == text[p + n]);
                assert(end.text.subrange(0, point.text.len() as int)[n] == point.text[n]);
            }
            lemma_run_again(input, first, CharClass::Digit, text, first_again);
            let digits_again = run(text, first_again, CharClass::Digit);
            lemma_step_one(text, digits_again);
            let point_again = step(text, digits_again);
            assert(point_again.text == point.text);
            lemma_run_again(input, point, CharClass::Digit, text, point_again);
        } else {
            lemma_run_again(input, first, CharClass::Digit, text, first_again);
        }
    } else if char_is_alphabetic(c) || c == '_' {
        lemma_run_again(input, first, CharClass::Word, text, first_again);
    } else if c == '"' {
        let n = body.text.len() as int;
        assert(body.pos < input.len());
        assert(input[body.pos as int] == '"');
        assert(spelled == body.text.push('"'));
        assert(text.subrange(p, p + n) =~= body.text) by {
            assert forall|i: int| 0 <= i < n implies text[p + i] == body.text[i] by {
                assert(text.subrange(p, p + spelled.len())[i] == text[p + i]);
            }
        }
        assert(text[p + n] == '"') by {
            assert(text.subrange(p, p + spelled.len())[n] == text[p + n]);
        }
        lemma_run_again(input, first, CharClass::Unquoted, text, first_again);
        let body_again = run(text, first_again, CharClass::Unquoted);
        lemma_step_one(text, body_again);
    } else if c == '\'' {
        assert(first.pos < input.len());
        let x = input[first.pos as int];
        let second = step(input, first);
        assert(second.pos < input.len() && input[second.pos as int] == '\'');
        let third = step(input, second);
        assert(spelled =~= seq![c, x, '\'']);
        assert(text[p + 1] == x && text[p + 2] == '\'') by {
            assert(text.subrange(p, p + spelled.len())[1] == text[p + 1]);
            assert(text.subrange(p, p + spelled.len())[2] == text[p + 2]);
        }
        lemma_step_one(text, first_again);
        let second_again = step(text, first_again);
        lemma_step_one(text, second_again);
        let third_again = step(text, second_again);
        assert(third_again.text =~= spelled);
    } else {
        assert(spelled =~= seq![c]);
    }
}

/// The first `n` tokens of `input` spelled out: what was gathered for each of
/// them, each followed by `sep`.
pub open spec fn spelled_out(input: Seq<char>, from: Cursor, n: nat, sep: char) -> Seq<char>
    decreases n,
{
    if n == 0 {
        Seq::empty()
    } else {
        spelled_out(input, from, (n - 1) as nat, sep) + token_at(
            input,
            from,
            (n - 1) as nat,
        ).end.text + seq![sep]
    }
}

/// Whether nothing but white space is left of `input` behind `cur`.
pub open spec fn exhausted(input: Seq<char>, cur: Cursor) -> bool {
    run(input, cur, CharClass::Blank).pos >= input.len()
}

/// Whether `text` holds nothing but white space from `place` on.
pub open spec fn blank_from(text: Seq<char>, place: int) -> bool {
    forall|i: int| place <= i < text.len() && 0 <= i ==> char_is_whitespace(#[trigger] text[i])
}

/// Where nothing but white space is left, the next token is the end of the
/// input, nothing is gathered for it, and nothing but white space is left
/// behind it.
proof fn lemma_exhausted(input: Seq<char>, cur: Cursor)
    requires
        exhausted(input, cur),
    ensures
        scan(input, cur).lexeme == Lexeme::Plain(Token::TEOF),
        scan(input, cur).end.text.len() == 0,
        exhausted(input, scan(input, cur).end),
{
}

/// A token for which nothing is gathered is the end of the input.
proof fn lemma_nothing_gathered(input: Seq<char>, cur: Cursor)
    requires
        scan(input, cur).end.text.len() == 0,
    ensures
        exhausted(input, cur),
{
    let start = run(input, cur, CharClass::Blank).cleared();
    if start.pos < input.len() {
        let first = step(input, start);
        lemma_run_text(input, first, CharClass::Operator);
        lemma_run_text(input, first, CharClass::Word);
        lemma_run_text(input, first, CharClass::Digit);
        lemma_run_text(input, first, CharClass::Unquoted);
        let digits = run(input, first, CharClass::Digit);
        if digits.pos < input.len() {
            lemma_run_text(input, step(input, digits), CharClass::Digit);
        }
    }
}

/// In a text that holds nothing but white space from the cursor on, the next
/// token is the end of the input, and nothing but white space is left behind
/// it.
proof fn lemma_blank_rest(text: Seq<char>, cur: Cursor)
    requires
        blank_from(text, cur.pos as int),
    ensures
        exhausted(text, cur),
        blank_from(text, run(text, cur, CharClass::Blank).pos as int),
    decreases text.len() - cur.pos,
{
    if cur.pos < text.len() {
        assert(char_is_whitespace(text[cur.pos as int]));
        lemma_blank_rest(text, step(text, cur));
    }
}

/// Each of the first `n` tokens stands in the spelling of all of them, behind
/// the spelling of those before it and before a separator.
proof fn lemma_spelled_out(input: Seq<char>, from: Cursor, k: nat, n: nat, sep: char)
    requires
        k < n,
    ensures
        stands_at(
            spelled_out(input, from, n, sep),
            spelled_out(input, from, k, sep).len() as int,
            token_at(input, from, k).end.text,
        ),
        spelled_out(input, from, k + 1, sep).len() <= spelled_out(input, from, n, sep).len(),
        spelled_out(input, from, n, sep)[spelled_out(input, from, k + 1, sep).len() - 1] == sep,
    decreases n,
{
    let all = spelled_out(input, from, n, sep);
    let before = spelled_out(input, from, (n - 1) as nat, sep);
    let last = token_at(input, from, (n - 1) as nat).end.text;
    assert(all == before + last + seq![sep]);
    if k + 1 == n {
        assert(all.subrange(before.len() as int, before.len() as int + last.len()) =~= last);
    } else {
        lemma_spelled_out(input, from, k, (n - 1) as nat, sep);
        let place = spelled_out(input, from, k, sep).len() as int;
        let part = token_at(input, from, k).end.text;
        assert(all.subrange(place, place + part.len()) =~= before.subrange(
            place,
            place + part.len(),
        ));
    }
}

/// Once nothing but white space is left of the input, what is spelled out
/// from there on is separators only.
proof fn lemma_spelled_out_blank(input: Seq<char>, from: Cursor, k: nat, n: nat, sep: char)
    requires
        k <= n,
        char_is_whitespace(sep),
        exhausted(input, cursor_after(input, from, k)),
    ensures
        exhausted(input, cursor_after(input, from, n)),
        spelled_out(input, from, k, sep).len() <= spelled_out(input, from, n, sep).len(),
        blank_from(spelled_out(input, from, n, sep), spelled_out(input, from, k, sep).len() as int),
    decreases n - k,
{
    if k < n {
        lemma_spelled_out_blank(input, from, k, (n - 1) as nat, sep);
        lemma_exhausted(input, cursor_after(input, from, (n - 1) as nat));
        let all = spelled_out(input, from, n, sep);
        let before = spelled_out(input, from, (n - 1) as nat, sep);
        assert(all =~= before + seq![sep]);
        assert forall|i: int|
            spelled_out(input, from, k, sep).len() <= i < all.len() implies char_is_whitespace(
            #[trigger] all[i],
        ) by {
            if i < before.len() {
                assert(all[i] == before[i]);
            }
        }
    }
}

/// Whether the scan of the spelled-out tokens is in step with the scan of the
/// input after `k` tokens: it stands behind the spelling of the token before,
/// or both have nothing but white space left.
spec fn in_step(
    input: Seq<char>,
    from: Cursor,
    n: nat,
    sep: char,
    again: Cursor,
    k: nat,
) -> bool {
    let text = spelled_out(input, from, n, sep);
    let there = cursor_after(text, again, k);
    ||| {
        &&& forall|j: nat| j < k ==> (#[trigger] token_at(input, from, j)).end.text.len() > 0
        &&& there.pos == if k == 0 {
            0
        } else {
            spelled_out(input, from, k, sep).len() - 1
        }
    }
    ||| {
        &&& exhausted(input, cursor_after(input, from, k))
        &&& blank_from(text, there.pos as int)
    }
}

/// Spelling tokens out and lexing the spelling gives the same tokens: the
/// first `n` tokens of an input, none of them an error, written one after the
/// other with a separator behind each, are lexed again as the same tokens in
/// the same order. This holds where the text written so has no carriage
/// return directly before a line feed, which the lexer would read as one line
/// end.
pub proof fn lemma_lex_again(
    input: Seq<char>,
    from: Cursor,
    n: nat,
    sep: char,
    again: Cursor,
    k: nat,
)
    requires
        separates(sep),
        again.pos == 0,
        k < n,
        no_line_end_pair(spelled_out(input, from, n, sep)),
        forall|j: nat|
            j < n ==> !((#[trigger] token_at(input, from, j)).lexeme matches Lexeme::Plain(
                Token::TError(_),
            )),
    ensures
        token_at(spelled_out(input, from, n, sep), again, k).lexeme == token_at(
            input,
            from,
            k,
        ).lexeme,
{
    lemma_in_step(input, from, n, sep, again, k);
    lemma_tokens_in_step(input, from, n, sep, again, k);
}

/// The two scans are in step after any number of tokens.
proof fn lemma_in_step(
    input: Seq<char>,
    from: Cursor,
    n: nat,
    sep: char,
    again: Cursor,
    k: nat,
)
    requires
        separates(sep),
        again.pos == 0,
        k <= n,
        no_line_end_pair(spelled_out(input, from, n, sep)),
        forall|j: nat|
            j < n ==> !((#[trigger] token_at(input, from, j)).lexeme matches Lexeme::Plain(
                Token::TError(_),
            )),
    ensures
        in_step(input, from, n, sep, again, k),
    decreases k,
{
    if k > 0 {
        let j = (k - 1) as nat;
        lemma_in_step(input, from, n, sep, again, j);
        lemma_tokens_in_step(input, from, n, sep, again, j);
    }
}

/// One step of lexing again where both scans have nothing but white space
/// left: both give the end of the input and have nothing but white space left
/// behind it.
proof fn lemma_both_at_end(input: Seq<char>, here: Cursor, text: Seq<char>, there: Cursor)
    requires
        exhausted(input, here),
        blank_from(text, there.pos as int),
    ensures
        scan(text, there).lexeme == scan(input, here).lexeme,
        exhausted(input, scan(input, here).end),
        blank_from(text, scan(text, there).end.pos as int),
{
    lemma_exhausted(input, here);
    lemma_blank_rest(text, there);
    lemma_exhausted(text, there);
}

/// One step of lexing again where the scan of the spelling stands behind the
/// token before: it passes over the separator and reads the next token from
/// its spelling.
proof fn lemma_token_again(
    input: Seq<char>,
    here: Cursor,
    text: Seq<char>,
    there: Cursor,
    place: int,
    sep: char,
)
    requires
        separates(sep),
        no_line_end_pair(text),
        !(scan(input, here).lexeme matches Lexeme::Plain(Token::TError(_))),
        scan(input, here).end.text.len() > 0,
        stands_at(text, place, scan(input, here).end.text),
        text.len() == place + scan(input, here).end.text.len() || text[place + scan(
            input,
            here,
        ).end.text.len()] == sep,
        there.pos == place || (there.pos + 1 == place && text[there.pos as int] == sep),
    ensures
        scan(text, there).lexeme == scan(input, here).lexeme,
        scan(text, there).end.pos == place + scan(input, here).end.text.len(),
{
    let spelled = scan(input, here).end.text;
    let ready = if there.pos == place {
        there
    } else {
        step(text, there)
    };
    if there.pos != place {
        lemma_step_one(text, there);
    }
    lemma_nonblank_start(input, here);
    assert(text[place] == spelled[0]) by {
        assert(text.subrange(place, place + spelled.len())[0] == text[place]);
    }
    assert(run(text, ready, CharClass::Blank) == ready);
    assert(run(text, there, CharClass::Blank) == ready);
    assert(scan(text, there) == scan(text, ready));
    lemma_scan_in_context(input, here, text, ready, sep);
}

/// One step of lexing again: where the two scans are in step before a token,
/// they give the same token and are in step behind it.
proof fn lemma_tokens_in_step(
    input: Seq<char>,
    from: Cursor,
    n: nat,
    sep: char,
    again: Cursor,
    k: nat,
)
    requires
        separates(sep),
        k < n,
        no_line_end_pair(spelled_out(input, from, n, sep)),
        !(token_at(input, from, k).lexeme matches Lexeme::Plain(Token::TError(_))),
        in_step(input, from, n, sep, again, k),
    ensures
        token_at(spelled_out(input, from, n, sep), again, k).lexeme == token_at(
            input,
            from,
            k,
        ).lexeme,
        in_step(input, from, n, sep, again, k + 1),
{
    let text = spelled_out(input, from, n, sep);
    let here = cursor_after(input, from, k);
    let there = cursor_after(text, again, k);
    let spelled = token_at(input, from, k).end.text;
    let before = spelled_out(input, from, k, sep);
    assert(cursor_after(input, from, k + 1) == scan(input, here).end);
    assert(cursor_after(text, again, k + 1) == scan(text, there).end);
    lemma_spelled_out(input, from, k, n, sep);
    if k > 0 {
        lemma_spelled_out(input, from, (k - 1) as nat, n, sep);
    }
    if exhausted(input, here) && blank_from(text, there.pos as int) {
        lemma_both_at_end(input, here, text, there);
    } else if spelled.len() == 0 {
        lemma_nothing_gathered(input, here);
        lemma_spelled_out_blank(input, from, k, n, sep);
        assert(blank_from(text, there.pos as int)) by {
            assert forall|i: int| there.pos <= i < text.len() && 0 <= i implies char_is_whitespace(
                #[trigger] text[i],
            ) by {
                if i < before.len() {
                    assert(text[i] == sep);
                }
            }
        }
        lemma_both_at_end(input, here, text, there);
    } else {
        lemma_token_again(input, here, text, there, before.len() as int, sep);
        assert(spelled_out(input, from, k + 1, sep) == before + spelled + seq![sep]);
        assert forall|j: nat| j < k + 1 implies (#[trigger] token_at(input, from, j)).end.text.len()
            > 0 by {
            if j < k {
            }
        }
    }
}

/// What is gathered for a token begins with a character that is not white
/// space.
proof fn lemma_nonblank_start(input: Seq<char>, cur: Cursor)
    requires
        scan(input, cur).end.text.len() > 0,
    ensures
        !char_is_whitespace(scan(input, cur).end.text[0]),
{
    lemma_run_text(input, cur, CharClass::Blank);
    let start = run(input, cur, CharClass::Blank).cleared();
    if start.pos < input.len() {
        let c = input[start.pos as int];
        let first = step(input, start);
        assert(first.text =~= seq![c]);
        lemma_run_text(input, first, CharClass::Operator);
        lemma_run_text(input, first, CharClass::Word);
        lemma_run_text(input, first, CharClass::Digit);
        lemma_run_text(input, first, CharClass::Unquoted);
        let digits = run(input, first, CharClass::Digit);
        let body = run(input, first, CharClass::Unquoted);
        assert(run(input, first, CharClass::Operator).text.subrange(0, 1)[0] == first.text[0]);
        assert(run(input, first, CharClass::Word).text.subrange(0, 1)[0] == first.text[0]);
        assert(digits.text.subrange(0, 1)[0] == first.text[0]);
        assert(body.text.subrange(0, 1)[0] == first.text[0]);
        if digits.pos < input.len() {
            let point = step(input, digits);
            lemma_run_text(input, point, CharClass::Digit);
            let end = run(input, point, CharClass::Digit);
            assert(end.text.subrange(0, point.text.len() as int)[0] == point.text[0]);
        }
    }
}

} // verus!
