//! Errors gathered in a list, and errors of one source file that are shown
//! with the line they point to.

use crate::pos::{Span, Spanned};
use crate::text::{lines_of, source_lines, texts_of};
use vstd::prelude::*;
use vstd::string::*;

verus! {

/// A list of errors, in the order in which they were added.
#[derive(Debug, PartialEq)]
pub struct Errors<T> {
    pub errors: Vec<T>,
}

impl<T> Errors<T> {
    /// A list without errors.
    pub fn new() -> (list: Errors<T>)
        ensures
            list.errors@ == Seq::<T>::empty(),
    {
        Errors { errors: Vec::new() }
    }

    /// Whether the list holds an error.
    pub fn has_errors(&self) -> (r: bool)
        ensures
            r == (self.errors@.len() > 0),
    {
        !self.errors.is_empty()
    }

    /// Adds an error at the end of the list.
    pub fn error(&mut self, t: T)
        ensures
            final(self).errors@ == old(self).errors@.push(t),
    {
        self.errors.push(t);
    }
}

impl Errors<String> {
    /// All messages, each followed by a line feed.
    pub open spec fn listing(errors: Seq<String>) -> Seq<char>
        decreases errors.len(),
    {
        if errors.len() == 0 {
            Seq::empty()
        } else {
            Self::listing(errors.drop_last()) + errors.last()@ + seq!['\n']
        }
    }

    /// A list of messages as text: one line for each.
    pub fn render(&self) -> (out: String)
        ensures
            out@ == Self::listing(self.errors@),
    {
        let mut out = String::new();
        let mut i: usize = 0;
        while i < self.errors.len()
            invariant
                i <= self.errors@.len(),
                out@ == Self::listing(self.errors@.take(i as int)),
            decreases self.errors@.len() - i,
        {
            out.append(self.errors[i].as_str());
            out.push('\n');
            i += 1;
            assert(self.errors@.take(i as int).drop_last() == self.errors@.take(i - 1));
        }
        assert(self.errors@.take(i as int) == self.errors@);
        out
    }
}

/// The line that a line number points to, counted from one; `N/A` where the
/// text has no such line.
pub open spec fn line_text(lines: Seq<Seq<char>>, line: int) -> Seq<char> {
    if 1 <= line <= lines.len() {
        lines[line - 1]
    } else {
        "N/A"@
    }
}

/// An error together with the source line on which its span starts.
#[derive(Debug)]
pub struct SourceContext<E> {
    pub context: String,
    pub error: Spanned<E>,
}

/// Pairs an error with the line of `lines` on which its span starts.
pub fn extract_context<E>(lines: &Vec<String>, error: Spanned<E>) -> (entry: SourceContext<E>)
    ensures
        entry.error == error,
        entry.context@ == line_text(texts_of(lines@), error.span.start.line as int),
{
    let line = error.span.start.line;
    let context = if 1 <= line && line as usize <= lines.len() {
        lines[(line - 1) as usize].clone()
    } else {
        "N/A".to_owned()
    };
    SourceContext { context, error }
}

/// `count` copies of `c`; none where `count` is not positive.
pub open spec fn repeated(c: char, count: int) -> Seq<char> {
    Seq::new(
        if count > 0 {
            count as nat
        } else {
            0
        },
        |i: int| c,
    )
}

/// The line that marks a span under its source line: blanks up to the start
/// column, a caret in the start column, and tildes from there up to the
/// column before the end column.
pub open spec fn underline(span: Span) -> Seq<char> {
    repeated(' ', span.start.column - 1) + seq!['^'] + repeated(
        '~',
        span.end.column - span.start.column - 1,
    )
}

/// One error of a file as text: the file's name, a colon and the message; the
/// source line; and the line that marks the span.
pub open spec fn entry_text(
    file: Seq<char>,
    message: Seq<char>,
    context: Seq<char>,
    span: Span,
) -> Seq<char> {
    file + seq![':'] + message + seq!['\n'] + context + seq!['\n'] + underline(span) + seq!['\n']
}

/// Adds `count` copies of `c` to `out`.
fn push_repeated(out: &mut String, c: char, count: i64)
    ensures
        final(out)@ == old(out)@ + repeated(c, count as int),
{
    let mut i: i64 = 0;
    assert(out@ =~= old(out)@ + repeated(c, 0));
    while i < count
        invariant
            0 <= i,
            i <= count || i == 0,
            out@ == old(out)@ + repeated(c, i as int),
        decreases count - i,
    {
        out.push(c);
        i += 1;
        assert(out@ =~= old(out)@ + repeated(c, i as int));
    }
    assert(repeated(c, i as int) =~= repeated(c, count as int));
}

impl SourceContext<String> {
    /// An entry whose error is its message, as it is shown for the file named
    /// `file`.
    pub fn render(&self, file: &str) -> (out: String)
        ensures
            out@ == entry_text(file@, self.error.value@, self.context@, self.error.span),
    {
        let start: i64 = self.error.span.start.column as i64;
        let end: i64 = self.error.span.end.column as i64;
        let mut out = String::new();
        out.append(file);
        out.push(':');
        out.append(self.error.value.as_str());
        out.push('\n');
        out.append(self.context.as_str());
        out.push('\n');
        let ghost head = out@;
        push_repeated(&mut out, ' ', start - 1);
        out.push('^');
        push_repeated(&mut out, '~', end - start - 1);
        assert(out@ =~= head + underline(self.error.span));
        out.push('\n');
        assert(out@ =~= entry_text(
            file@,
            self.error.value@,
            self.context@,
            self.error.span,
        ));
        out
    }
}

/// The errors of one file, each with the source line it points to.
#[derive(Debug)]
pub struct InFile<E> {
    file: String,
    error: Errors<SourceContext<E>>,
}

/// What a list of entries holds: for each the text of its line and its error.
pub open spec fn pairs_of<E>(entries: Seq<SourceContext<E>>) -> Seq<(Seq<char>, Spanned<E>)> {
    entries.map_values(|entry: SourceContext<E>| (entry.context@, entry.error))
}

/// The errors in `errors`, each paired with its line of `lines`.
pub open spec fn with_context<E>(lines: Seq<Seq<char>>, errors: Seq<Spanned<E>>) -> Seq<
    (Seq<char>, Spanned<E>),
> {
    errors.map_values(|e: Spanned<E>| (line_text(lines, e.span.start.line as int), e))
}

/// The errors of `entries`, without their lines.
pub open spec fn without_context<E>(entries: Seq<(Seq<char>, Spanned<E>)>) -> Seq<Spanned<E>> {
    entries.map_values(|entry: (Seq<char>, Spanned<E>)| entry.1)
}

impl<E> InFile<E> {
    /// The name of the file.
    pub closed spec fn file(&self) -> Seq<char> {
        self.file@
    }

    /// The errors, each with its source line.
    pub closed spec fn entries(&self) -> Seq<(Seq<char>, Spanned<E>)> {
        pairs_of(self.error.errors@)
    }

    /// The name of the file.
    pub fn file_name(&self) -> (name: &str)
        ensures
            name@ == self.file(),
    {
        self.file.as_str()
    }

    /// The errors, each with its source line.
    pub fn contexts(&self) -> (list: &Vec<SourceContext<E>>)
        ensures
            pairs_of(list@) == self.entries(),
    {
        &self.error.errors
    }

    /// The errors of the file `file`, whose text is `contents`: each error is
    /// kept with the line of `contents` on which its span starts.
    pub fn new(file: String, contents: &str, error: Errors<Spanned<E>>) -> (in_file: InFile<E>)
        ensures
            in_file.file() == file@,
            in_file.entries() == with_context(source_lines(contents@), error.errors@),
    {
        let lines = lines_of(contents);
        InFile::with_lines(file, &lines, error)
    }

    /// The errors of the file `file`, whose lines are `lines`: each error is
    /// kept with the line on which its span starts.
    pub fn with_lines(file: String, lines: &Vec<String>, error: Errors<Spanned<E>>) -> (in_file:
        InFile<E>)
        ensures
            in_file.file() == file@,
            in_file.entries() == with_context(texts_of(lines@), error.errors@),
    {
        let ghost all = error.errors@;
        let ghost texts = texts_of(lines@);
        let mut entries: Vec<SourceContext<E>> = Vec::new();
        for e in it: error.errors.into_iter()
            invariant
                it.seq() == all,
                texts == texts_of(lines@),
                pairs_of(entries@) == with_context(texts, all.take(it.index@)),
        {
            let ghost before = entries@;
            let entry = extract_context(lines, e);
            entries.push(entry);
            assert(pairs_of(entries@) =~= with_context(texts, all.take(it.index@ + 1))) by {
                let done = all.take(it.index@);
                assert(all.take(it.index@ + 1) =~= done.push(e));
                assert(pairs_of(before).len() == with_context(texts, done).len());
                assert forall|j: int| 0 <= j < entries@.len() implies pairs_of(entries@)[j]
                    == with_context(texts, done.push(e))[j] by {
                    if j < before.len() {
                        assert(pairs_of(before)[j] == with_context(texts, done)[j]);
                    }
                }
            }
        }
        assert(all.take(all.len() as int) =~= all);
        InFile { file, error: Errors { errors: entries } }
    }

    /// The errors as they were handed in, without their lines.
    pub fn errors(self) -> (list: Errors<Spanned<E>>)
        ensures
            list.errors@ == without_context(self.entries()),
    {
        let ghost all = self.error.errors@;
        let mut errors: Vec<Spanned<E>> = Vec::new();
        for entry in it: self.error.errors.into_iter()
            invariant
                it.seq() == all,
                errors@ == without_context(pairs_of(all.take(it.index@))),
        {
            errors.push(entry.error);
            assert(errors@ =~= without_context(pairs_of(all.take(it.index@ + 1)))) by {
                assert(all.take(it.index@ + 1) =~= all.take(it.index@).push(entry));
            }
        }
        assert(all.take(all.len() as int) =~= all);
        Errors { errors }
    }
}

impl InFile<String> {
    /// The text of some entries of a file, one after the other.
    pub open spec fn report(file: Seq<char>, entries: Seq<(Seq<char>, Spanned<String>)>) -> Seq<
        char,
    >
        decreases entries.len(),
    {
        if entries.len() == 0 {
            Seq::empty()
        } else {
            Self::report(file, entries.drop_last()) + entry_text(
                file,
                entries.last().1.value@,
                entries.last().0,
                entries.last().1.span,
            )
        }
    }

    /// Errors whose values are their messages, as text: for each one the
    /// file's name with the message, the source line, and a line that marks
    /// the span under it.
    pub fn render(&self) -> (out: String)
        ensures
            out@ == Self::report(self.file(), self.entries()),
    {
        let mut out = String::new();
        let mut i: usize = 0;
        while i < self.error.errors.len()
            invariant
                i <= self.error.errors@.len(),
                out@ == Self::report(self.file(), self.entries().take(i as int)),
            decreases self.error.errors@.len() - i,
        {
            let entry = self.error.errors[i].render(self.file.as_str());
            out.append(entry.as_str());
            i += 1;
            assert(self.entries().take(i as int).drop_last() =~= self.entries().take(i - 1));
        }
        assert(self.entries().take(i as int) =~= self.entries());
        out
    }
}

/// Taking the errors out of a file's list gives back the errors that were put
/// in, in the same order, whatever the lines of the file are.
pub proof fn lemma_errors_round_trip<E>(lines: Seq<Seq<char>>, errors: Seq<Spanned<E>>)
    ensures
        without_context(with_context(lines, errors)) == errors,
{
    assert(without_context(with_context(lines, errors)) =~= errors);
}

/// In the line that marks a span, the caret stands in the start column and
/// tildes fill the columns behind it up to the one before the end column; the
/// end column itself is not marked. Columns count from one.
pub proof fn lemma_underline_columns(span: Span)
    requires
        1 <= span.start.column,
    ensures
        underline(span).len() == if span.end.column > span.start.column {
            span.end.column - 1
        } else {
            span.start.column as int
        },
        underline(span)[span.start.column - 1] == '^',
        forall|i: int| 0 <= i < span.start.column - 1 ==> underline(span)[i] == ' ',
        forall|i: int| span.start.column <= i < span.end.column - 1 ==> underline(span)[i] == '~',
{
}

} // verus!
