//! The walk from the root of a syntax tree down to a location: which way it
//! goes at each expression, where it ends, and which identifiers come into
//! scope on the way.

use crate::ast::{expressions_of, lemma_child_smaller, spans_of, Binding, Expr, FieldPattern,
    LExpr, Pattern};
use crate::pos::{Containment, Location, Span};
use crate::types::{fields_of, unaliased, Symbol, TcIdent, Type};
use vstd::prelude::*;

verus! {

/// What was chosen among some spans that follow each other in the source.
pub struct Selection {
    /// Whether a span was found to surface: one that contains the target, or
    /// the one before the first that lies wholly behind the target.
    pub found: bool,
    /// The place of the chosen span; none only where there are no spans.
    pub index: Option<int>,
}

/// The choice among `spans` from place `i` on, where no span before `i`
/// contains the target and none but the first lies behind it: the first span
/// that contains the target is chosen; a span behind the target that is not
/// the first gives the choice to the span before it; and where neither is met
/// the last span is chosen, and counts as not found.
pub open spec fn select_from(spans: Seq<Span>, target: Location, i: int) -> Selection
    decreases spans.len() - i,
{
    if i < 0 || i >= spans.len() {
        Selection {
            found: false,
            index: if spans.len() > 0 {
                Some(spans.len() - 1)
            } else {
                None
            },
        }
    } else if spans[i].locate(target) == Containment::Within {
        Selection { found: true, index: Some(i) }
    } else if spans[i].locate(target) == Containment::Before && i > 0 {
        Selection { found: true, index: Some(i - 1) }
    } else {
        select_from(spans, target, i + 1)
    }
}

/// The choice among `spans` for `target`.
pub open spec fn select(spans: Seq<Span>, target: Location) -> Selection {
    select_from(spans, target, 0)
}

/// A choice is a place among the spans, and there is one wherever there are
/// spans.
pub proof fn lemma_select_in_range(spans: Seq<Span>, target: Location, i: int)
    requires
        0 <= i,
    ensures
        select_from(spans, target, i).index matches Some(k) ==> 0 <= k < spans.len(),
        select_from(spans, target, i).index is Some <==> spans.len() > 0,
    decreases spans.len() - i,
{
    if i < spans.len() && spans[i].locate(target) != Containment::Within && !(spans[i].locate(
        target,
    ) == Containment::Before && i > 0) {
        lemma_select_in_range(spans, target, i + 1);
    }
}

/// Where a walk ends.
pub enum Found {
    /// On an expression: an identifier or a literal whose span contains the
    /// target.
    Expr(LExpr),
    /// On an identifier that is no expression of its own: the operator of a
    /// binary operation or the field of a field access, with the expression
    /// that it belongs to.
    Ident(LExpr, TcIdent),
    /// On white space, or beyond every expression.
    Nothing,
    /// In a record of which no initializer contains the target; nothing is
    /// reported there.
    Skipped,
}

/// What the walk does at one expression: it ends there, or goes on into one of
/// the expressions directly below, given by its place among them.
pub enum Descent {
    Stop(Found),
    Into(int),
}

/// The step into the span chosen among `spans`; where there is none to
/// choose, the walk ends on nothing.
pub open spec fn among(spans: Seq<Span>, target: Location) -> Descent {
    match select(spans, target).index {
        Some(i) => Descent::Into(i),
        None => Descent::Stop(Found::Nothing),
    }
}

/// What the walk does at `e` on its way to `target`.
pub open spec fn descent(e: LExpr, target: Location) -> Descent {
    match e.value {
        Expr::Identifier(_) | Expr::Literal(_) => if e.span.contains(target) {
            Descent::Stop(Found::Expr(e))
        } else {
            Descent::Stop(Found::Nothing)
        },
        Expr::BinOp(left, op, right) => if left.span.locate(target) == Containment::After
            && right.span.locate(target) == Containment::Before {
            Descent::Stop(Found::Ident(e, op.value))
        } else if right.span.locate(target) != Containment::Before {
            Descent::Into(1)
        } else {
            Descent::Into(0)
        },
        Expr::Let(bindings, _) => {
            let chosen = select(spans_of(expressions_of(bindings@)), target);
            if chosen.found && chosen.index is Some {
                Descent::Into(chosen.index->0)
            } else {
                Descent::Into(bindings@.len() as int)
            }
        },
        Expr::Type(_, _) => Descent::Into(0),
        Expr::FieldAccess(record, field) => if record.span.locate(target) != Containment::After {
            Descent::Into(0)
        } else {
            Descent::Stop(Found::Ident(e, field))
        },
        Expr::Record(_) => {
            let spans = spans_of(e.children());
            match select(spans, target).index {
                Some(i) => if 0 <= i < spans.len() && spans[i].contains(target) {
                    Descent::Into(i)
                } else {
                    Descent::Stop(Found::Skipped)
                },
                None => Descent::Stop(Found::Skipped),
            }
        },
        Expr::Lambda(_, _) => Descent::Into(0),
        _ => among(spans_of(e.children()), target),
    }
}

/// Where the walk from `e` to `target` ends.
pub open spec fn locate(e: LExpr, target: Location) -> Found
    decreases e,
{
    match descent(e, target) {
        Descent::Stop(found) => found,
        Descent::Into(i) => if 0 <= i < e.children().len() {
            proof {
                lemma_child_smaller(e, i);
            }
            locate(e.children()[i], target)
        } else {
            Found::Nothing
        },
    }
}

/// The name that a field pattern binds: the new name where it renames the
/// field, else the field's own.
pub open spec fn bound_name(field: FieldPattern) -> Symbol {
    match field.rename {
        Some(name) => name,
        None => field.name,
    }
}

/// The first `count` field patterns, each with the type of the field of the
/// record type that stands at the same place.
pub open spec fn zipped(fields: Seq<FieldPattern>, declared: Seq<TcIdent>, count: int) -> Seq<
    TcIdent,
> {
    Seq::new(
        count as nat,
        |k: int| TcIdent { name: bound_name(fields[k]), typ: declared[k].typ },
    )
}

/// The identifiers that a pattern brings into scope, in order. A record
/// pattern binds its fields, as far as the pattern's type, with its aliases
/// removed, is a record that has a field at the same place.
pub open spec fn pattern_bindings(types: Seq<Type>, pattern: Pattern) -> Seq<TcIdent> {
    match pattern {
        Pattern::Record { id, fields } => match fields_of(types, unaliased(types, id.typ)) {
            Some(declared) => zipped(
                fields@,
                declared,
                if fields@.len() <= declared.len() {
                    fields@.len() as int
                } else {
                    declared.len() as int
                },
            ),
            None => Seq::empty(),
        },
        Pattern::Identifier(id) => seq![id],
        Pattern::Constructor(_, arguments) => arguments@,
    }
}

/// The identifiers that the patterns of some bindings bring into scope.
pub open spec fn binding_names(types: Seq<Type>, bindings: Seq<Binding>) -> Seq<TcIdent>
    decreases bindings.len(),
{
    if bindings.len() == 0 {
        Seq::empty()
    } else {
        binding_names(types, bindings.drop_last()) + pattern_bindings(
            types,
            bindings.last().name.value,
        )
    }
}

/// The identifiers that come into scope at `e` before the walk goes on below
/// it: at a `let` what all its patterns bind and then, where the walk enters a
/// binding, that binding's formal arguments; at a lambda its arguments.
pub open spec fn registered(types: Seq<Type>, e: LExpr, target: Location) -> Seq<TcIdent> {
    match e.value {
        Expr::Let(bindings, _) => binding_names(types, bindings@) + (match descent(e, target) {
            Descent::Into(i) => if 0 <= i < bindings@.len() {
                bindings@[i].arguments@
            } else {
                Seq::empty()
            },
            _ => Seq::empty(),
        }),
        Expr::Lambda(arguments, _) => arguments@,
        _ => Seq::empty(),
    }
}

/// The identifiers that come into scope on the walk from `e` to `target`, in
/// the order in which the walk meets them.
pub open spec fn bound_names(types: Seq<Type>, e: LExpr, target: Location) -> Seq<TcIdent>
    decreases e,
{
    match descent(e, target) {
        Descent::Stop(_) => Seq::empty(),
        Descent::Into(i) => if 0 <= i < e.children().len() {
            proof {
                lemma_child_smaller(e, i);
            }
            registered(types, e, target) + bound_names(types, e.children()[i], target)
        } else {
            Seq::empty()
        },
    }
}

/// Whether what a walk found lies inside `span`: the expression it ended on,
/// or the expression that the identifier it ended on belongs to.
pub open spec fn found_within(found: Found, span: Span) -> bool {
    match found {
        Found::Expr(node) => node.span.within(span),
        Found::Ident(context, _) => context.span.within(span),
        _ => true,
    }
}

/// Among spans that follow each other without overlap, the one that contains
/// the target is the one chosen, and it counts as found.
pub proof fn lemma_select_containing(spans: Seq<Span>, target: Location, i: int, from: int)
    requires
        0 <= from <= i < spans.len(),
        spans[i].contains(target),
        forall|j: int| 0 <= j < spans.len() ==> (#[trigger] spans[j]).ordered(),
        forall|j: int, k: int|
            0 <= j < k < spans.len() ==> (#[trigger] spans[j]).ends_before(#[trigger] spans[k]),
    ensures
        select_from(spans, target, from) == (Selection { found: true, index: Some(i) }),
    decreases i - from,
{
    if from < i {
        assert(spans[from].ends_before(spans[i]));
        assert(spans[from].ordered());
        assert(spans[from].locate(target) == Containment::After);
        lemma_select_containing(spans, target, i, from + 1);
    }
}

/// Among spans that all lie before the target none is found.
pub proof fn lemma_select_beyond(spans: Seq<Span>, target: Location, from: int)
    requires
        0 <= from,
        forall|j: int| 0 <= j < spans.len() ==> (#[trigger] spans[j]).locate(target)
            == Containment::After,
    ensures
        !select_from(spans, target, from).found,
    decreases spans.len() - from,
{
    if from < spans.len() {
        assert(spans[from].locate(target) == Containment::After);
        lemma_select_beyond(spans, target, from + 1);
    }
}

/// In a tree whose spans are laid out as in a source text, a walk to a target
/// inside one of the expressions directly below `e` goes into that expression.
pub proof fn lemma_descent_into_child(e: LExpr, i: int, target: Location)
    requires
        e.well_formed(),
        0 <= i < e.children().len(),
        e.children()[i].span.contains(target),
    ensures
        descent(e, target) == Descent::Into(i),
{
    let kids = e.children();
    let spans = spans_of(kids);
    assert forall|j: int| 0 <= j < spans.len() implies (#[trigger] spans[j]).ordered() by {
        assert(kids[j].span.ordered());
    }
    assert forall|j: int, k: int| 0 <= j < k < spans.len() implies (
    #[trigger] spans[j]).ends_before(#[trigger] spans[k]) by {
        assert(kids[j].span.ends_before(kids[k].span));
    }
    match e.value {
        Expr::BinOp(left, _, right) => {
            assert(kids[0] == *left && kids[1] == *right);
            assert(kids[0].span.ends_before(kids[1].span));
            assert(kids[0].span.ordered() && kids[1].span.ordered());
        },
        Expr::Let(bindings, body) => {
            let inner = spans_of(expressions_of(bindings@));
            if i < bindings@.len() {
                assert forall|j: int| 0 <= j < inner.len() implies (
                #[trigger] inner[j]).ordered() by {
                    assert(inner[j] == spans[j]);
                }
                assert forall|j: int, k: int| 0 <= j < k < inner.len() implies (
                #[trigger] inner[j]).ends_before(#[trigger] inner[k]) by {
                    assert(inner[j] == spans[j] && inner[k] == spans[k]);
                }
                assert(inner[i] == spans[i]);
                lemma_select_containing(inner, target, i, 0);
            } else {
                assert forall|j: int| 0 <= j < inner.len() implies (#[trigger] inner[j]).locate(
                    target,
                ) == Containment::After by {
                    assert(inner[j] == spans[j]);
                    assert(spans[j].ends_before(spans[i]));
                    assert(spans[j].ordered());
                }
                lemma_select_beyond(inner, target, 0);
            }
        },
        Expr::Type(_, _) => {},
        Expr::FieldAccess(_, _) => {},
        Expr::Lambda(_, _) => {},
        Expr::Identifier(_) => {},
        Expr::Literal(_) => {},
        _ => {
            lemma_select_containing(spans, target, i, 0);
        },
    }
}

/// Whatever a walk from `e` finds lies inside `e`, in a tree whose spans are
/// laid out as in a source text.
pub proof fn lemma_found_inside(e: LExpr, target: Location)
    requires
        e.well_formed(),
    ensures
        found_within(locate(e, target), e.span),
    decreases e,
{
    match descent(e, target) {
        Descent::Stop(found) => {},
        Descent::Into(i) => {
            if 0 <= i < e.children().len() {
                lemma_child_smaller(e, i);
                let child = e.children()[i];
                assert(child.span.within(e.span) && child.well_formed());
                lemma_found_inside(child, target);
            }
        },
    }
}

/// An expression on which a walk ends is an identifier or a literal, and the
/// target lies inside it.
pub proof fn lemma_found_holds_target(e: LExpr, target: Location)
    ensures
        locate(e, target) matches Found::Expr(node) ==> node.span.contains(target)
            && node.children().len() == 0,
    decreases e,
{
    match descent(e, target) {
        Descent::Stop(found) => {},
        Descent::Into(i) => {
            if 0 <= i < e.children().len() {
                lemma_child_smaller(e, i);
                lemma_found_holds_target(e.children()[i], target);
            }
        },
    }
}

/// The walk finds the smallest expression around the target: where the target
/// lies inside an expression directly below `e`, the walk from `e` ends where
/// the walk from that expression ends, and what it finds there lies inside
/// that expression.
pub proof fn lemma_smallest_enclosing(e: LExpr, i: int, target: Location)
    requires
        e.well_formed(),
        0 <= i < e.children().len(),
        e.children()[i].span.contains(target),
    ensures
        locate(e, target) == locate(e.children()[i], target),
        found_within(locate(e, target), e.children()[i].span),
        locate(e, target) matches Found::Expr(node) ==> node.span.contains(target),
{
    lemma_found_holds_target(e, target);
    lemma_descent_into_child(e, i, target);
    assert(e.children()[i].well_formed());
    lemma_found_inside(e.children()[i], target);
}

} // verus!
