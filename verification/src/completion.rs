//! Type queries and completion: what is reported of the place where the walk
//! to a location ends, and the visitor that makes the walk.

use crate::ast::{bodies_of, expressions_of, initializers, lemma_child_smaller, spans_of, Expr,
    LExpr, LPattern, Pattern};
use crate::interner::Interner;
use crate::pos::{Containment, Location, Span};
use crate::scoped_map::{bound_all, lemma_bound_all, lemma_bound_all_append, unique, ScopedMap};
use crate::text::starts_with;
use crate::types::{fields_of, unaliased, Symbol, TcIdent, TcType, Type, TypeEnv};
use crate::walk::{among, binding_names, bound_names, descent, lemma_select_in_range, locate,
    pattern_bindings, registered, select, select_from, zipped, Descent, Found};
use vstd::prelude::*;

verus! {

/// The name under which a symbol is shown: its string in `names`, or the
/// empty string where `names` does not hold it.
pub open spec fn display_name(names: Seq<Seq<char>>, symbol: Symbol) -> Seq<char> {
    if symbol.slot() < names.len() {
        names[symbol.slot() as int]
    } else {
        Seq::empty()
    }
}

/// Those of `candidates` whose displayed name begins with `prefix`, in the
/// order in which they stand.
pub open spec fn with_prefix(
    names: Seq<Seq<char>>,
    candidates: Seq<TcIdent>,
    prefix: Seq<char>,
) -> Seq<TcIdent>
    decreases candidates.len(),
{
    if candidates.len() == 0 {
        Seq::empty()
    } else {
        let rest = with_prefix(names, candidates.drop_last(), prefix);
        if prefix.is_prefix_of(display_name(names, candidates.last().name)) {
            rest.push(candidates.last())
        } else {
            rest
        }
    }
}

/// The type that a type query reports where the walk ended on `found`.
pub open spec fn type_found(found: Found) -> Result<TcType, ()> {
    match found {
        Found::Expr(node) => Ok(node.typ),
        Found::Ident(_, id) => Ok(id.typ),
        _ => Err(()),
    }
}

/// The completions where the walk ended on `found` with `scope` in scope: on
/// an identifier the bindings in scope whose name begins with its name; on the
/// field of a field access the fields of the record, read through its aliases,
/// whose name begins with the field's name; on white space all bindings in
/// scope.
pub open spec fn suggestions(
    names: Seq<Seq<char>>,
    types: Seq<Type>,
    scope: Seq<TcIdent>,
    found: Found,
) -> Seq<TcIdent> {
    match found {
        Found::Expr(node) => match node.value {
            Expr::Identifier(id) => with_prefix(names, scope, display_name(names, id.name)),
            _ => Seq::empty(),
        },
        Found::Ident(context, id) => match context.value {
            Expr::FieldAccess(record, _) => match fields_of(types, unaliased(types, record.typ)) {
                Some(fields) => with_prefix(names, fields, display_name(names, id.name)),
                None => Seq::empty(),
            },
            _ => Seq::empty(),
        },
        Found::Nothing => scope,
        Found::Skipped => Seq::empty(),
    }
}

/// What a query has gathered in the course of a walk.
pub enum Progress {
    /// A type query with the type found, if any.
    Type(Option<TcType>),
    /// A completion query: the interned names, the types, the bindings in
    /// scope and the completions so far.
    Names { names: Seq<Seq<char>>, types: Seq<Type>, scope: Seq<TcIdent>, result: Seq<TcIdent> },
}

impl Progress {
    /// The types that the query reads patterns with.
    pub open spec fn types(self) -> Seq<Type> {
        match self {
            Progress::Type(_) => Seq::empty(),
            Progress::Names { types, .. } => types,
        }
    }

    /// The query once `bindings` have come into scope. A type query keeps no
    /// scope.
    pub open spec fn bind(self, bindings: Seq<TcIdent>) -> Progress {
        match self {
            Progress::Type(_) => self,
            Progress::Names { names, types, scope, result } => Progress::Names {
                names,
                types,
                scope: bound_all(scope, bindings),
                result,
            },
        }
    }

    /// The query once the walk has ended on `found`.
    pub open spec fn conclude(self, found: Found) -> Progress {
        match self {
            Progress::Type(typ) => match type_found(found) {
                Ok(t) => Progress::Type(Some(t)),
                Err(_) => self,
            },
            Progress::Names { names, types, scope, result } => Progress::Names {
                names,
                types,
                scope,
                result: result + suggestions(names, types, scope, found),
            },
        }
    }

    /// The query after the walk from `e` to `target`.
    pub open spec fn visited(self, e: LExpr, target: Location) -> Progress {
        self.bind(bound_names(self.types(), e, target)).conclude(locate(e, target))
    }

    /// What holds of a query at every point of a walk: no name is in scope
    /// twice.
    pub open spec fn wf(self) -> bool {
        self matches Progress::Names { scope, .. } ==> unique(scope)
    }
}

/// A walk that ends at `e` leaves the query as it is but for what it found.
pub proof fn lemma_visited_stop(p: Progress, e: LExpr, target: Location)
    requires
        descent(e, target) is Stop,
    ensures
        p.visited(e, target) == p.conclude(descent(e, target)->Stop_0),
{
    assert(bound_all(p->scope, Seq::empty()) == p->scope);
}

/// A walk that goes on below `e` is the walk from there, with what `e`
/// brings into scope.
pub proof fn lemma_visited_into(p: Progress, e: LExpr, target: Location)
    requires
        descent(e, target) matches Descent::Into(i) && 0 <= i < e.children().len(),
    ensures
        p.visited(e, target) == p.bind(registered(p.types(), e, target)).visited(
            e.children()[descent(e, target)->Into_0],
            target,
        ),
{
    let i = descent(e, target)->Into_0;
    if p is Names {
        lemma_bound_all_append(
            p->scope,
            registered(p.types(), e, target),
            bound_names(p.types(), e.children()[i], target),
        );
    }
}

/// The expressions that some references point to.
pub open spec fn targets(refs: Seq<&LExpr>) -> Seq<LExpr> {
    Seq::new(refs.len(), |i: int| *refs[i])
}

/// One more reference points to one more expression.
pub proof fn lemma_targets_push(refs: Seq<&LExpr>, next: &LExpr)
    ensures
        targets(refs.push(next)) == targets(refs).push(*next),
{
    assert(targets(refs.push(next)) =~= targets(refs).push(*next));
}

/// The answer to a type query.
pub struct GetType {
    pub typ: Option<TcType>,
}

impl GetType {
    fn expr(&mut self, expr: &LExpr)
        ensures
            final(self).typ == Some(expr.typ),
    {
        self.typ = Some(expr.typ);
    }

    fn ident(&mut self, _context: &LExpr, ident: &TcIdent)
        ensures
            final(self).typ == Some(ident.typ),
    {
        self.typ = Some(ident.typ);
    }

    fn nothing(&mut self)
        ensures
            *final(self) == *old(self),
    {
    }
}

/// The name under which `symbol` is shown.
fn name_of<'a>(env: &'a Interner, symbol: Symbol) -> (name: &'a str)
    ensures
        name@ == display_name(env@, symbol),
{
    if symbol.index() < env.len() {
        env.string(symbol)
    } else {
        proof {
            reveal_strlit("");
        }
        assert(""@ =~= Seq::<char>::empty());
        ""
    }
}

/// Adds to `result` those of `candidates` whose displayed name begins with the
/// displayed name of `prefix`.
fn push_with_prefix(
    env: &Interner,
    result: &mut Vec<TcIdent>,
    candidates: &Vec<TcIdent>,
    prefix: Symbol,
)
    ensures
        final(result)@ == old(result)@ + with_prefix(
            env@,
            candidates@,
            display_name(env@, prefix),
        ),
{
    let wanted = name_of(env, prefix);
    let mut i: usize = 0;
    assert(result@ =~= old(result)@ + with_prefix(env@, candidates@.take(0), wanted@));
    while i < candidates.len()
        invariant
            i <= candidates@.len(),
            wanted@ == display_name(env@, prefix),
            result@ == old(result)@ + with_prefix(env@, candidates@.take(i as int), wanted@),
        decreases candidates@.len() - i,
    {
        let candidate = candidates[i];
        assert(candidates@.take(i + 1).drop_last() =~= candidates@.take(i as int));
        assert(candidates@.take(i + 1).last() == candidate);
        if starts_with(name_of(env, candidate.name), wanted) {
            result.push(candidate);
            assert(result@ =~= old(result)@ + with_prefix(
                env@,
                candidates@.take(i + 1),
                wanted@,
            ));
        }
        i += 1;
    }
    assert(candidates@.take(i as int) =~= candidates@);
}

/// A completion query in the course of its walk.
pub struct Suggest<'a> {
    pub env: &'a Interner,
    pub typ_env: &'a TypeEnv,
    pub stack: ScopedMap,
    pub result: Vec<TcIdent>,
}

impl<'a> Suggest<'a> {
    /// What the query has gathered.
    pub open spec fn progress(&self) -> Progress {
        Progress::Names {
            names: self.env@,
            types: self.typ_env@,
            scope: self.stack@,
            result: self.result@,
        }
    }

    fn on_ident(&mut self, ident: &TcIdent)
        requires
            old(self).stack.wf(),
        ensures
            final(self).stack.wf(),
            final(self).progress() == old(self).progress().bind(seq![*ident]),
    {
        self.stack.insert(ident.name, ident.typ);
        assert(bound_all(old(self).stack@, seq![*ident].drop_last()) == old(self).stack@);
    }

    /// Brings every identifier of `bindings` into scope.
    fn on_idents(&mut self, bindings: &Vec<TcIdent>)
        requires
            old(self).stack.wf(),
        ensures
            final(self).stack.wf(),
            final(self).progress() == old(self).progress().bind(bindings@),
    {
        let mut i: usize = 0;
        assert(bindings@.take(0) =~= Seq::<TcIdent>::empty());
        while i < bindings.len()
            invariant
                i <= bindings@.len(),
                self.stack.wf(),
                self.progress() == old(self).progress().bind(bindings@.take(i as int)),
            decreases bindings@.len() - i,
        {
            self.stack.insert(bindings[i].name, bindings[i].typ);
            assert(bindings@.take(i + 1).drop_last() =~= bindings@.take(i as int));
            i += 1;
        }
        assert(bindings@.take(i as int) =~= bindings@);
    }

    fn on_pattern(&mut self, pattern: &LPattern)
        requires
            old(self).stack.wf(),
        ensures
            final(self).stack.wf(),
            final(self).progress() == old(self).progress().bind(
                pattern_bindings(old(self).typ_env@, pattern.value),
            ),
    {
        match &pattern.value {
            Pattern::Record { id, fields: field_ids } => {
                let unaliased = self.typ_env.remove_aliases(id.typ);
                if let Some(fields) = self.typ_env.record_fields(unaliased) {
                    let mut k: usize = 0;
                    assert(zipped(field_ids@, fields@, 0) =~= Seq::<TcIdent>::empty());
                    while k < field_ids.len() && k < fields.len()
                        invariant
                            k <= field_ids@.len(),
                            k <= fields@.len(),
                            self.stack.wf(),
                            self.progress() == old(self).progress().bind(
                                zipped(field_ids@, fields@, k as int),
                            ),
                        decreases field_ids@.len() - k,
                    {
                        let field = &field_ids[k];
                        let f = match field.rename {
                            Some(name) => name,
                            None => field.name,
                        };
                        self.stack.insert(f, fields[k].typ);
                        assert(zipped(field_ids@, fields@, k + 1).drop_last() =~= zipped(
                            field_ids@,
                            fields@,
                            k as int,
                        ));
                        k += 1;
                    }
                } else {
                    assert(bound_all(self.stack@, Seq::empty()) == self.stack@);
                }
            },
            Pattern::Identifier(id) => {
                self.on_ident(id);
            },
            Pattern::Constructor(_, args) => {
                self.on_idents(args);
            },
        }
    }

    fn expr(&mut self, expr: &LExpr)
        ensures
            final(self).stack == old(self).stack,
            final(self).progress() == old(self).progress().conclude(Found::Expr(*expr)),
    {
        if let Expr::Identifier(ident) = &expr.value {
            push_with_prefix(self.env, &mut self.result, self.stack.bindings(), ident.name);
        } else {
            assert(self.result@ + Seq::<TcIdent>::empty() =~= self.result@);
        }
    }

    fn ident(&mut self, context: &LExpr, ident: &TcIdent)
        ensures
            final(self).stack == old(self).stack,
            final(self).progress() == old(self).progress().conclude(Found::Ident(*context, *ident)),
    {
        assert(self.result@ + Seq::<TcIdent>::empty() =~= self.result@);
        if let Expr::FieldAccess(expr, _) = &context.value {
            let typ = self.typ_env.remove_aliases(expr.typ);
            if let Some(fields) = self.typ_env.record_fields(typ) {
                push_with_prefix(self.env, &mut self.result, fields, ident.name);
            }
        }
    }

    fn nothing(&mut self)
        ensures
            final(self).stack == old(self).stack,
            final(self).progress() == old(self).progress().conclude(Found::Nothing),
    {
        let all = self.stack.bindings();
        let mut i: usize = 0;
        assert(self.result@ =~= old(self).result@ + all@.take(0));
        while i < all.len()
            invariant
                i <= all@.len(),
                all@ == self.stack@,
                self.env == old(self).env,
                self.typ_env == old(self).typ_env,
                self.stack == old(self).stack,
                self.result@ == old(self).result@ + all@.take(i as int),
            decreases all@.len() - i,
        {
            self.result.push(all[i]);
            assert(self.result@ =~= old(self).result@ + all@.take(i + 1));
            i += 1;
        }
        assert(all@.take(i as int) =~= all@);
    }
}

/// The query that a walk serves: it is told what comes into scope on the way
/// and where the walk ends.
pub enum OnFound<'a> {
    GetType(GetType),
    Suggest(Suggest<'a>),
}

impl<'a> OnFound<'a> {
    /// What the query has gathered.
    pub open spec fn progress(&self) -> Progress {
        match self {
            OnFound::GetType(query) => Progress::Type(query.typ),
            OnFound::Suggest(query) => query.progress(),
        }
    }

    /// What holds of a query at every point of a walk.
    pub open spec fn wf(&self) -> bool {
        self.progress().wf()
    }

    fn on_ident(&mut self, ident: &TcIdent)
        requires
            old(self).wf(),
        ensures
            final(self).wf(),
            final(self).progress() == old(self).progress().bind(seq![*ident]),
    {
        match self {
            OnFound::GetType(_) => {},
            OnFound::Suggest(query) => query.on_ident(ident),
        }
    }

    fn on_idents(&mut self, bindings: &Vec<TcIdent>)
        requires
            old(self).wf(),
        ensures
            final(self).wf(),
            final(self).progress() == old(self).progress().bind(bindings@),
    {
        match self {
            OnFound::GetType(_) => {},
            OnFound::Suggest(query) => query.on_idents(bindings),
        }
    }

    fn on_pattern(&mut self, pattern: &LPattern)
        requires
            old(self).wf(),
        ensures
            final(self).wf(),
            final(self).progress() == old(self).progress().bind(
                pattern_bindings(old(self).progress().types(), pattern.value),
            ),
    {
        match self {
            OnFound::GetType(_) => {},
            OnFound::Suggest(query) => query.on_pattern(pattern),
        }
    }

    fn expr(&mut self, expr: &LExpr)
        requires
            old(self).wf(),
        ensures
            final(self).wf(),
            final(self).progress() == old(self).progress().conclude(Found::Expr(*expr)),
    {
        match self {
            OnFound::GetType(query) => query.expr(expr),
            OnFound::Suggest(query) => query.expr(expr),
        }
    }

    fn ident(&mut self, context: &LExpr, ident: &TcIdent)
        requires
            old(self).wf(),
        ensures
            final(self).wf(),
            final(self).progress() == old(self).progress().conclude(Found::Ident(*context, *ident)),
    {
        match self {
            OnFound::GetType(query) => query.ident(context, ident),
            OnFound::Suggest(query) => query.ident(context, ident),
        }
    }

    /// The location points to white space.
    fn nothing(&mut self)
        requires
            old(self).wf(),
        ensures
            final(self).wf(),
            final(self).progress() == old(self).progress().conclude(Found::Nothing),
    {
        match self {
            OnFound::GetType(query) => query.nothing(),
            OnFound::Suggest(query) => query.nothing(),
        }
    }
}

/// A walk to `location` on behalf of the query `on_found`.
pub struct FindVisitor<'a> {
    pub location: Location,
    pub on_found: OnFound<'a>,
}

/// The spans of the expressions that `items` point to.
fn spans<'e>(items: &Vec<&'e LExpr>) -> (list: Vec<Span>)
    ensures
        list@ == spans_of(targets(items@)),
{
    let mut list: Vec<Span> = Vec::new();
    let mut i: usize = 0;
    while i < items.len()
        invariant
            i <= items@.len(),
            list@ == spans_of(targets(items@)).take(i as int),
        decreases items@.len() - i,
    {
        list.push(items[i].span);
        assert(list@ =~= spans_of(targets(items@)).take(i + 1));
        i += 1;
    }
    assert(spans_of(targets(items@)).take(i as int) =~= spans_of(targets(items@)));
    list
}

/// References to `first` and then to each of `rest`.
fn siblings<'e>(first: Option<&'e LExpr>, rest: &'e Vec<LExpr>) -> (list: Vec<&'e LExpr>)
    ensures
        targets(list@) == (match first {
            Some(e) => seq![*e],
            None => Seq::empty(),
        }) + rest@,
{
    let mut list: Vec<&LExpr> = Vec::new();
    let ghost head = match first {
        Some(e) => seq![*e],
        None => Seq::<LExpr>::empty(),
    };
    if let Some(e) = first {
        list.push(e);
    }
    assert(targets(list@) =~= head + rest@.take(0));
    let mut i: usize = 0;
    while i < rest.len()
        invariant
            i <= rest@.len(),
            targets(list@) == head + rest@.take(i as int),
        decreases rest@.len() - i,
    {
        proof {
            lemma_targets_push(list@, &rest[i as int]);
        }
        list.push(&rest[i]);
        assert(targets(list@) =~= head + rest@.take(i + 1));
        i += 1;
    }
    assert(rest@.take(i as int) =~= rest@);
    list
}

impl<'a> FindVisitor<'a> {
    /// Chooses among `spans`, which follow each other in the source, the one
    /// to go on with, and says whether it was found or is a last resort.
    pub fn select_spanned(&self, spans: &Vec<Span>) -> (chosen: (bool, Option<usize>))
        ensures
            chosen.0 == select(spans@, self.location).found,
            chosen.1 is Some <==> select(spans@, self.location).index is Some,
            chosen.1 matches Some(i) ==> select(spans@, self.location).index == Some(i as int)
                && i < spans@.len(),
    {
        let mut i: usize = 0;
        while i < spans.len()
            invariant
                i <= spans@.len(),
                select_from(spans@, self.location, i as int) == select(spans@, self.location),
            decreases spans@.len() - i,
        {
            match spans[i].position_of(&self.location) {
                Containment::Within => {
                    return (true, Some(i));
                },
                Containment::Before => {
                    if i > 0 {
                        // Select the previous expression
                        return (true, Some(i - 1));
                    }
                },
                Containment::After => {},
            }
            i += 1;
        }
        if spans.len() > 0 {
            (false, Some(spans.len() - 1))
        } else {
            (false, None)
        }
    }

    /// Goes on into the one of `siblings` that is chosen for the location;
    /// where there is none, the walk ends on nothing.
    fn visit_one(&mut self, siblings: &Vec<&LExpr>, Ghost(parent): Ghost<LExpr>)
        requires
            old(self).on_found.wf(),
            targets(siblings@) == parent.children(),
        ensures
            final(self).on_found.wf(),
            final(self).location == old(self).location,
            final(self).on_found.progress() == (match among(
                spans_of(parent.children()),
                old(self).location,
            ) {
                Descent::Into(i) => old(self).on_found.progress().visited(
                    parent.children()[i],
                    old(self).location,
                ),
                Descent::Stop(found) => old(self).on_found.progress().conclude(found),
            }),
        decreases parent, 0int,
    {
        let spans = spans(siblings);
        let (_, expr) = self.select_spanned(&spans);
        match expr {
            Some(i) => {
                proof {
                    lemma_child_smaller(parent, i as int);
                }
                assert(*siblings@[i as int] == targets(siblings@)[i as int]);
                self.visit_expr(siblings[i])
            },
            None => self.on_found.nothing(),
        }
    }

    fn visit_pattern(&mut self, pattern: &LPattern)
        requires
            old(self).on_found.wf(),
        ensures
            final(self).on_found.wf(),
            final(self).location == old(self).location,
            final(self).on_found.progress() == old(self).on_found.progress().bind(
                pattern_bindings(old(self).on_found.progress().types(), pattern.value),
            ),
    {
        self.on_found.on_pattern(pattern);
    }

    /// Walks from `current` down to the location and tells the query where
    /// the walk ends.
    pub fn visit_expr(&mut self, current: &LExpr)
        requires
            old(self).on_found.wf(),
        ensures
            final(self).on_found.wf(),
            final(self).location == old(self).location,
            final(self).on_found.progress() == old(self).on_found.progress().visited(
                *current,
                old(self).location,
            ),
        decreases *current, 1int,
    {
        let ghost start = self.on_found.progress();
        let ghost target = self.location;
        proof {
            lemma_select_in_range(spans_of(current.children()), target, 0);
            if descent(*current, target) is Stop {
                lemma_visited_stop(start, *current, target);
            } else if 0 <= descent(*current, target)->Into_0 < current.children().len() {
                lemma_visited_into(start, *current, target);
                lemma_child_smaller(*current, descent(*current, target)->Into_0);
            }
            assert(start.bind(Seq::empty()) == start) by {
                if start is Names {
                    assert(bound_all(start->scope, Seq::empty()) == start->scope);
                }
            }
        }
        match &current.value {
            Expr::Identifier(_) | Expr::Literal(_) => {
                match current.span.position_of(&self.location) {
                    Containment::Within => self.on_found.expr(current),
                    _ => self.on_found.nothing(),
                }
            },
            Expr::Call(func, args) => {
                let all = siblings(Some(&**func), args);
                self.visit_one(&all, Ghost(*current));
            },
            Expr::IfElse(pred, if_true, if_false) => {
                let mut all: Vec<&LExpr> = Vec::new();
                all.push(&**pred);
                all.push(&**if_true);
                all.push(&**if_false);
                assert(targets(all@) =~= current.children());
                self.visit_one(&all, Ghost(*current));
            },
            Expr::Match(expr, alts) => {
                let mut all: Vec<&LExpr> = Vec::new();
                all.push(&**expr);
                let mut i: usize = 0;
                assert(targets(all@) =~= seq![**expr] + bodies_of(alts@).take(0));
                while i < alts.len()
                    invariant
                        i <= alts@.len(),
                        targets(all@) == seq![**expr] + bodies_of(alts@).take(i as int),
                    decreases alts@.len() - i,
                {
                    proof {
                        lemma_targets_push(all@, &alts[i as int].expression);
                    }
                    all.push(&alts[i].expression);
                    assert(targets(all@) =~= seq![**expr] + bodies_of(alts@).take(i + 1));
                    i += 1;
                }
                assert(bodies_of(alts@).take(i as int) =~= bodies_of(alts@));
                self.visit_one(&all, Ghost(*current));
            },
            Expr::BinOp(l, op, r) => {
                match (l.span.position_of(&self.location), r.span.position_of(&self.location)) {
                    (Containment::After, Containment::Before) => self.on_found.ident(
                        current,
                        &op.value,
                    ),
                    (_, Containment::After) | (_, Containment::Within) => self.visit_expr(r),
                    _ => self.visit_expr(l),
                }
            },
            Expr::Let(bindings, expr) => {
                let mut i: usize = 0;
                assert(binding_names(start.types(), bindings@.take(0)) =~= Seq::<TcIdent>::empty());
                let mut spans: Vec<Span> = Vec::new();
                while i < bindings.len()
                    invariant
                        i <= bindings@.len(),
                        self.on_found.wf(),
                        self.location == target,
                        start.types() == self.on_found.progress().types(),
                        self.on_found.progress() == start.bind(
                            binding_names(start.types(), bindings@.take(i as int)),
                        ),
                        spans@ == spans_of(expressions_of(bindings@)).take(i as int),
                    decreases bindings@.len() - i,
                {
                    let ghost before = self.on_found.progress();
                    self.visit_pattern(&bindings[i].name);
                    spans.push(bindings[i].expression.span);
                    proof {
                        assert(bindings@.take(i + 1).drop_last() =~= bindings@.take(i as int));
                        assert(bindings@.take(i + 1).last() == bindings@[i as int]);
                        if start is Names {
                            lemma_bound_all_append(
                                start->scope,
                                binding_names(start.types(), bindings@.take(i as int)),
                                pattern_bindings(start.types(), bindings@[i as int].name.value),
                            );
                        }
                        assert(spans@ =~= spans_of(expressions_of(bindings@)).take(i + 1));
                    }
                    i += 1;
                }
                assert(bindings@.take(i as int) =~= bindings@);
                assert(spans@ =~= spans_of(expressions_of(bindings@)));
                let ghost named = self.on_found.progress();
                match self.select_spanned(&spans) {
                    (true, Some(k)) => {
                        let bind = &bindings[k];
                        self.on_found.on_idents(&bind.arguments);
                        proof {
                            if start is Names {
                                lemma_bound_all_append(
                                    start->scope,
                                    binding_names(start.types(), bindings@),
                                    bind.arguments@,
                                );
                            }
                            assert(current.children()[k as int] == bind.expression);
                        }
                        self.visit_expr(&bind.expression)
                    },
                    _ => {
                        proof {
                            assert(binding_names(start.types(), bindings@) + Seq::<
                                TcIdent,
                            >::empty() =~= binding_names(start.types(), bindings@));
                            assert(current.children()[bindings@.len() as int] == **expr);
                        }
                        self.visit_expr(expr)
                    },
                }
            },
            Expr::Type(_, expr) => self.visit_expr(expr),
            Expr::FieldAccess(expr, id) => {
                match expr.span.position_of(&self.location) {
                    Containment::After => self.on_found.ident(current, id),
                    _ => self.visit_expr(expr),
                }
            },
            Expr::Array(array) => {
                let all = siblings(None, array);
                self.visit_one(&all, Ghost(*current));
            },
            Expr::Record(fields) => {
                let mut exprs: Vec<&LExpr> = Vec::new();
                let mut i: usize = 0;
                assert(targets(exprs@) =~= initializers(fields@.take(0)));
                while i < fields.len()
                    invariant
                        i <= fields@.len(),
                        targets(exprs@) == initializers(fields@.take(i as int)),
                    decreases fields@.len() - i,
                {
                    assert(fields@.take(i + 1).drop_last() =~= fields@.take(i as int));
                    if let Some(e) = &fields[i].value {
                        proof {
                            lemma_targets_push(exprs@, e);
                        }
                        exprs.push(e);
                        assert(targets(exprs@) =~= initializers(fields@.take(i + 1)));
                    }
                    i += 1;
                }
                assert(fields@.take(i as int) =~= fields@);
                let spans = spans(&exprs);
                if let (_, Some(k)) = self.select_spanned(&spans) {
                    match spans[k].position_of(&self.location) {
                        Containment::Within => {
                            assert(*exprs@[k as int] == targets(exprs@)[k as int]);
                            self.visit_expr(exprs[k]);
                        },
                        _ => {},
                    }
                }
                proof {
                    if descent(*current, target) is Stop {
                        assert(start.conclude(Found::Skipped) == start) by {
                            if start is Names {
                                assert(start->result + Seq::<TcIdent>::empty() =~= start->result);
                            }
                        }
                    }
                }
            },
            Expr::Lambda(arguments, body) => {
                self.on_found.on_idents(arguments);
                self.visit_expr(body)
            },
            Expr::Tuple(args) => {
                let all = siblings(None, args);
                self.visit_one(&all, Ghost(*current));
            },
            Expr::Block(exprs) => {
                let all = siblings(None, exprs);
                self.visit_one(&all, Ghost(*current));
            },
        }
    }
}

/// The type of what stands at `location` in `expr`: of the identifier or
/// literal there, or of the operator or field there. There is none where the
/// location points to white space.
pub fn find(expr: &LExpr, location: Location) -> (typ: Result<TcType, ()>)
    ensures
        typ == type_found(locate(*expr, location)),
{
    let mut visitor = FindVisitor {
        location: location,
        on_found: OnFound::GetType(GetType { typ: None }),
    };
    visitor.visit_expr(expr);
    match visitor.on_found {
        OnFound::GetType(query) => match query.typ {
            Some(typ) => Ok(typ),
            None => Err(()),
        },
        OnFound::Suggest(_) => Err(()),
    }
}

/// The completions for `location` in `expr`, in the order in which they were
/// found: the names are read in `env`, records and aliases in `typ_env`.
pub fn suggest(env: &Interner, typ_env: &TypeEnv, expr: &LExpr, location: Location) -> (result: Vec<
    TcIdent,
>)
    ensures
        result@ == suggestions(
            env@,
            typ_env@,
            bound_all(Seq::empty(), bound_names(typ_env@, *expr, location)),
            locate(*expr, location),
        ),
{
    let mut visitor = FindVisitor {
        location: location,
        on_found: OnFound::Suggest(
            Suggest { env: env, typ_env: typ_env, stack: ScopedMap::new(), result: Vec::new() },
        ),
    };
    visitor.visit_expr(expr);
    match visitor.on_found {
        OnFound::Suggest(query) => {
            assert(Seq::<TcIdent>::empty() + suggestions(
                env@,
                typ_env@,
                bound_all(Seq::empty(), bound_names(typ_env@, *expr, location)),
                locate(*expr, location),
            ) =~= query.result@);
            query.result
        },
        OnFound::GetType(_) => Vec::new(),
    }
}

/// Every completion chosen by a prefix has a displayed name that begins with
/// that prefix, and is one of the candidates.
pub proof fn lemma_with_prefix(names: Seq<Seq<char>>, candidates: Seq<TcIdent>, prefix: Seq<char>)
    ensures
        forall|k: int|
            0 <= k < with_prefix(names, candidates, prefix).len() ==> prefix.is_prefix_of(
                display_name(names, (#[trigger] with_prefix(names, candidates, prefix)[k]).name),
            ) && candidates.contains(with_prefix(names, candidates, prefix)[k]),
        forall|j: int|
            0 <= j < candidates.len() && prefix.is_prefix_of(
                display_name(names, (#[trigger] candidates[j]).name),
            ) ==> with_prefix(names, candidates, prefix).contains(candidates[j]),
    decreases candidates.len(),
{
    if candidates.len() > 0 {
        let rest = candidates.drop_last();
        let chosen = with_prefix(names, candidates, prefix);
        let before = with_prefix(names, rest, prefix);
        lemma_with_prefix(names, rest, prefix);
        assert forall|k: int| 0 <= k < chosen.len() implies prefix.is_prefix_of(
            display_name(names, (#[trigger] chosen[k]).name),
        ) && candidates.contains(chosen[k]) by {
            if k < before.len() {
                assert(chosen[k] == before[k]);
                let j = choose|j: int| 0 <= j < rest.len() && rest[j] == before[k];
                assert(candidates[j] == before[k]);
            } else {
                assert(chosen[k] == candidates[candidates.len() - 1]);
            }
        }
        assert forall|j: int|
            0 <= j < candidates.len() && prefix.is_prefix_of(
                display_name(names, (#[trigger] candidates[j]).name),
            ) implies chosen.contains(candidates[j]) by {
            if j < rest.len() {
                assert(rest[j] == candidates[j]);
                let k = choose|k: int| 0 <= k < before.len() && before[k] == rest[j];
                assert(chosen[k] == candidates[j]);
            } else {
                assert(chosen[chosen.len() - 1] == candidates[j]);
            }
        }
    }
}

/// On an identifier, every completion has a displayed name that begins with
/// the displayed name of that identifier.
pub proof fn lemma_completions_share_prefix(
    names: Seq<Seq<char>>,
    types: Seq<Type>,
    scope: Seq<TcIdent>,
    node: LExpr,
    k: int,
)
    requires
        node.value is Identifier,
        0 <= k < suggestions(names, types, scope, Found::Expr(node)).len(),
    ensures
        display_name(names, node.value->Identifier_0.name).is_prefix_of(
            display_name(names, suggestions(names, types, scope, Found::Expr(node))[k].name),
        ),
{
    lemma_with_prefix(names, scope, display_name(names, node.value->Identifier_0.name));
}

/// On white space the completions are the bindings in scope, each of them
/// once: no name comes twice.
pub proof fn lemma_completions_on_whitespace(
    names: Seq<Seq<char>>,
    types: Seq<Type>,
    bindings: Seq<TcIdent>,
)
    ensures
        suggestions(names, types, bound_all(Seq::empty(), bindings), Found::Nothing) == bound_all(
            Seq::empty(),
            bindings,
        ),
        unique(suggestions(names, types, bound_all(Seq::empty(), bindings), Found::Nothing)),
{
    lemma_bound_all(Seq::empty(), bindings);
}

} // verus!
