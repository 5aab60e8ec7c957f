//! The typed syntax tree that the completion engine walks.

use crate::pos::{Span, Spanned};
use crate::types::{Symbol, TcIdent, TcType};
use vstd::prelude::*;

verus! {

/// The value of a literal.
#[derive(Debug)]
pub enum LiteralValue {
    Integer(i64),
    /// A float, by its spelling.
    Float(Symbol),
    String(Symbol),
    Char(char),
    Bool(bool),
}

/// One field of a record pattern: the field's name and, where the pattern
/// renames it, the name that it binds.
#[derive(Debug)]
pub struct FieldPattern {
    pub name: Symbol,
    pub rename: Option<Symbol>,
}

/// What a `let` or a `match` binds.
#[derive(Debug)]
pub enum Pattern {
    /// A record taken apart. `id` carries the record's type.
    Record { id: TcIdent, fields: Vec<FieldPattern> },
    /// A single name.
    Identifier(TcIdent),
    /// A constructor and the names for its arguments.
    Constructor(TcIdent, Vec<TcIdent>),
}

/// A pattern with its place in the source.
#[derive(Debug)]
pub struct LPattern {
    pub span: Span,
    pub value: Pattern,
}

/// One binding of a `let`: the pattern it binds, the formal arguments where it
/// defines a function, and the bound expression.
#[derive(Debug)]
pub struct Binding {
    pub name: LPattern,
    pub arguments: Vec<TcIdent>,
    pub expression: LExpr,
}

/// One alternative of a `match`.
#[derive(Debug)]
pub struct Alternative {
    pub pattern: LPattern,
    pub expression: LExpr,
}

/// One field of a record expression, with its initializer if it has one.
#[derive(Debug)]
pub struct RecordField {
    pub name: Symbol,
    pub value: Option<LExpr>,
}

/// An expression.
#[derive(Debug)]
pub enum Expr {
    Identifier(TcIdent),
    Literal(LiteralValue),
    /// A function and the arguments it is applied to.
    Call(Box<LExpr>, Vec<LExpr>),
    /// A condition and the two branches.
    IfElse(Box<LExpr>, Box<LExpr>, Box<LExpr>),
    /// The matched expression and the alternatives.
    Match(Box<LExpr>, Vec<Alternative>),
    /// The left operand, the operator with its place in the source, and the
    /// right operand.
    BinOp(Box<LExpr>, Spanned<TcIdent>, Box<LExpr>),
    /// The bindings and the expression in which they hold.
    Let(Vec<Binding>, Box<LExpr>),
    /// The name of a type alias and the expression in which it holds.
    Type(Symbol, Box<LExpr>),
    /// A record and the field that is read from it.
    FieldAccess(Box<LExpr>, TcIdent),
    Array(Vec<LExpr>),
    Record(Vec<RecordField>),
    /// The formal arguments and the body.
    Lambda(Vec<TcIdent>, Box<LExpr>),
    Tuple(Vec<LExpr>),
    Block(Vec<LExpr>),
}

/// An expression with its place in the source and its type.
#[derive(Debug)]
pub struct LExpr {
    pub span: Span,
    pub typ: TcType,
    pub value: Expr,
}

/// The bound expressions of some bindings.
pub open spec fn expressions_of(bindings: Seq<Binding>) -> Seq<LExpr> {
    Seq::new(bindings.len(), |i: int| bindings[i].expression)
}

/// The expressions of some alternatives.
pub open spec fn bodies_of(alternatives: Seq<Alternative>) -> Seq<LExpr> {
    Seq::new(alternatives.len(), |i: int| alternatives[i].expression)
}

/// The initializers of those fields that have one, in the order of the fields.
pub open spec fn initializers(fields: Seq<RecordField>) -> Seq<LExpr>
    decreases fields.len(),
{
    if fields.len() == 0 {
        Seq::empty()
    } else {
        match fields.last().value {
            Some(e) => initializers(fields.drop_last()).push(e),
            None => initializers(fields.drop_last()),
        }
    }
}

/// The spans of some expressions.
pub open spec fn spans_of(items: Seq<LExpr>) -> Seq<Span> {
    Seq::new(items.len(), |i: int| items[i].span)
}

impl LExpr {
    /// The expressions directly below this one, in the order of the source.
    pub open spec fn children(self) -> Seq<LExpr> {
        match self.value {
            Expr::Identifier(_) => Seq::empty(),
            Expr::Literal(_) => Seq::empty(),
            Expr::Call(function, arguments) => seq![*function] + arguments@,
            Expr::IfElse(condition, consequent, alternative) => seq![
                *condition,
                *consequent,
                *alternative,
            ],
            Expr::Match(scrutinee, alternatives) => seq![*scrutinee] + bodies_of(alternatives@),
            Expr::BinOp(left, _, right) => seq![*left, *right],
            Expr::Let(bindings, body) => expressions_of(bindings@).push(*body),
            Expr::Type(_, body) => seq![*body],
            Expr::FieldAccess(record, _) => seq![*record],
            Expr::Array(items) => items@,
            Expr::Record(fields) => initializers(fields@),
            Expr::Lambda(_, body) => seq![*body],
            Expr::Tuple(items) => items@,
            Expr::Block(items) => items@,
        }
    }

    /// Whether the spans in the tree are laid out as in a source text: no span
    /// ends before it starts, every expression lies inside the one above it,
    /// the expressions directly below one expression follow each other without
    /// overlap, and an operator stands between its operands.
    pub open spec fn well_formed(self) -> bool
        decreases self,
        via Self::well_formed_decreases
    {
        &&& self.span.ordered()
        &&& forall|i: int|
            0 <= i < self.children().len() ==> {
                &&& (#[trigger] self.children()[i]).span.ordered()
                &&& self.children()[i].span.within(self.span)
                &&& self.children()[i].well_formed()
            }
        &&& forall|i: int, j: int|
            0 <= i < j < self.children().len() ==> (#[trigger] self.children()[i]).span.ends_before(
                (#[trigger] self.children()[j]).span,
            )
        &&& self.value matches Expr::BinOp(left, op, right) ==> left.span.ends_before(op.span)
            && op.span.ordered() && op.span.ends_before(right.span)
    }

    #[via_fn]
    proof fn well_formed_decreases(self) {
        let children = self.children();
        assert forall|i: int| 0 <= i < children.len() implies decreases_to!(self => children[i]) by {
            lemma_child_smaller(self, i);
        }
    }
}

/// Every initializer belongs to one of the fields.
pub proof fn lemma_initializer_field(fields: Seq<RecordField>, i: int) -> (j: int)
    requires
        0 <= i < initializers(fields).len(),
    ensures
        0 <= j < fields.len(),
        fields[j].value == Some(initializers(fields)[i]),
    decreases fields.len(),
{
    let rest = fields.drop_last();
    match fields.last().value {
        Some(e) => {
            if i == initializers(rest).len() {
                fields.len() - 1
            } else {
                let j = lemma_initializer_field(rest, i);
                assert(rest[j] == fields[j]);
                j
            }
        },
        None => {
            let j = lemma_initializer_field(rest, i);
            assert(rest[j] == fields[j]);
            j
        },
    }
}

/// An expression directly below another is a smaller tree.
pub proof fn lemma_child_smaller(e: LExpr, i: int)
    requires
        0 <= i < e.children().len(),
    ensures
        decreases_to!(e => e.children()[i]),
{
    match e.value {
        Expr::Identifier(_) => {},
        Expr::Literal(_) => {},
        Expr::Call(function, arguments) => {
            if i > 0 {
                assert(e.children()[i] == arguments@[i - 1]);
            }
        },
        Expr::IfElse(condition, consequent, alternative) => {},
        Expr::Match(scrutinee, alternatives) => {
            if i > 0 {
                assert(e.children()[i] == alternatives@[i - 1].expression);
            }
        },
        Expr::BinOp(left, _, right) => {},
        Expr::Let(bindings, body) => {
            if i < bindings@.len() {
                assert(e.children()[i] == bindings@[i].expression);
            }
        },
        Expr::Type(_, body) => {},
        Expr::FieldAccess(record, _) => {},
        Expr::Array(items) => {},
        Expr::Record(fields) => {
            let j = lemma_initializer_field(fields@, i);
            assert(decreases_to!(fields@[j].value => fields@[j].value->0));
        },
        Expr::Lambda(_, body) => {},
        Expr::Tuple(items) => {},
        Expr::Block(items) => {},
    }
}

} // verus!
