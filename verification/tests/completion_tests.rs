use langfront::ast::{
    Alternative, Binding, Expr, FieldPattern, LExpr, LPattern, LiteralValue, Pattern, RecordField,
};
use langfront::completion::{find, suggest, FindVisitor, GetType, OnFound};
use langfront::interner::Interner;
use langfront::pos::{Location, Span, Spanned};
use langfront::types::{Symbol, TcIdent, TcType, Type, TypeEnv};

const INT: TcType = TcType { id: 0 };
const STRING: TcType = TcType { id: 1 };
const FUNCTION: TcType = TcType { id: 2 };

fn types() -> TypeEnv {
    let mut env = TypeEnv::new();
    assert_eq!(env.declare(Type::Opaque), INT);
    assert_eq!(env.declare(Type::Opaque), STRING);
    assert_eq!(env.declare(Type::Opaque), FUNCTION);
    env
}

fn at(column: i32) -> Location {
    Location { line: 1, column, absolute: column - 1 }
}

fn span(start: i32, end: i32) -> Span {
    Span { start: at(start), end: at(end) }
}

fn node(start: i32, end: i32, typ: TcType, value: Expr) -> LExpr {
    LExpr { span: span(start, end), typ, value }
}

fn ident(name: Symbol, typ: TcType) -> TcIdent {
    TcIdent { name, typ }
}

fn variable(start: i32, end: i32, name: Symbol, typ: TcType) -> LExpr {
    node(start, end, typ, Expr::Identifier(ident(name, typ)))
}

fn number(start: i32, end: i32, value: i64) -> LExpr {
    node(start, end, INT, Expr::Literal(LiteralValue::Integer(value)))
}

fn name_pattern(start: i32, end: i32, name: Symbol, typ: TcType) -> LPattern {
    LPattern { span: span(start, end), value: Pattern::Identifier(ident(name, typ)) }
}

fn names(env: &Interner, found: &[TcIdent]) -> Vec<String> {
    found.iter().map(|id| env.string(id.name).to_string()).collect()
}

/// `let x = 1 in x + y`
fn let_x_in_x_plus_y(env: &mut Interner) -> LExpr {
    let x = env.intern("x");
    let y = env.intern("y");
    let plus = env.intern("+");
    let sum = node(
        14,
        19,
        INT,
        Expr::BinOp(
            Box::new(variable(14, 15, x, INT)),
            Spanned { span: span(16, 17), value: ident(plus, FUNCTION) },
            Box::new(variable(18, 19, y, STRING)),
        ),
    );
    node(
        1,
        19,
        INT,
        Expr::Let(
            vec![Binding {
                name: name_pattern(5, 6, x, INT),
                arguments: vec![],
                expression: number(9, 10, 1),
            }],
            Box::new(sum),
        ),
    )
}

#[test]
fn the_type_at_an_identifier_is_its_type() {
    let mut env = Interner::new();
    let tree = let_x_in_x_plus_y(&mut env);
    assert_eq!(find(&tree, at(18)), Ok(STRING));
    assert_eq!(find(&tree, at(14)), Ok(INT));
    assert_eq!(find(&tree, at(9)), Ok(INT));
}

#[test]
fn completions_at_an_identifier_start_with_its_name() {
    let mut env = Interner::new();
    let tree = let_x_in_x_plus_y(&mut env);
    let types = types();
    assert_eq!(suggest(&env, &types, &tree, at(18)), vec![]);
    let x = env.intern("x");
    assert_eq!(suggest(&env, &types, &tree, at(14)), vec![ident(x, INT)]);
}

#[test]
fn between_the_operands_the_operator_is_found() {
    let mut env = Interner::new();
    let tree = let_x_in_x_plus_y(&mut env);
    assert_eq!(find(&tree, at(16)), Ok(FUNCTION));
    assert_eq!(find(&tree, at(15)), Ok(FUNCTION));
    assert_eq!(find(&tree, at(17)), Ok(FUNCTION));
    assert_eq!(suggest(&env, &types(), &tree, at(16)), vec![]);
}

#[test]
fn beyond_the_right_operand_nothing_is_found() {
    let mut env = Interner::new();
    let tree = let_x_in_x_plus_y(&mut env);
    assert_eq!(find(&tree, at(25)), Err(()));
    let x = env.intern("x");
    assert_eq!(suggest(&env, &types(), &tree, at(25)), vec![ident(x, INT)]);
}

#[test]
fn the_visitor_can_be_driven_by_hand() {
    let mut env = Interner::new();
    let tree = let_x_in_x_plus_y(&mut env);
    let mut visitor =
        FindVisitor { location: at(18), on_found: OnFound::GetType(GetType { typ: None }) };
    visitor.visit_expr(&tree);
    match visitor.on_found {
        OnFound::GetType(query) => assert_eq!(query.typ, Some(STRING)),
        OnFound::Suggest(_) => panic!("the query changed its kind"),
    }
}

fn chosen(location: Location, spans: &[Span]) -> (bool, Option<usize>) {
    let visitor = FindVisitor { location, on_found: OnFound::GetType(GetType { typ: None }) };
    visitor.select_spanned(&spans.to_vec())
}

#[test]
fn select_takes_the_first_span_that_contains_the_target() {
    let spans = [span(1, 3), span(5, 8), span(10, 12)];
    assert_eq!(chosen(at(1), &spans), (true, Some(0)));
    assert_eq!(chosen(at(6), &spans), (true, Some(1)));
    assert_eq!(chosen(at(11), &spans), (true, Some(2)));
}

#[test]
fn select_takes_the_span_before_the_gap() {
    let spans = [span(1, 3), span(5, 8), span(10, 12)];
    assert_eq!(chosen(at(3), &spans), (true, Some(0)));
    assert_eq!(chosen(at(4), &spans), (true, Some(0)));
    assert_eq!(chosen(at(9), &spans), (true, Some(1)));
}

#[test]
fn select_falls_back_to_the_last_span() {
    let spans = [span(1, 3), span(5, 8), span(10, 12)];
    assert_eq!(chosen(at(12), &spans), (false, Some(2)));
    assert_eq!(chosen(at(40), &spans), (false, Some(2)));
    assert_eq!(chosen(at(40), &[]), (false, None));
    assert_eq!(chosen(at(1), &[span(5, 8)]), (false, Some(0)));
    assert_eq!(chosen(at(1), &[span(5, 8), span(9, 10)]), (true, Some(0)));
}

/// `let f a b = ab in f`, with `ab` at columns 13 and 14
fn function_binding(env: &mut Interner) -> LExpr {
    let f = env.intern("f");
    let a = env.intern("a");
    let b = env.intern("b");
    let ab = env.intern("ab");
    node(
        1,
        20,
        INT,
        Expr::Let(
            vec![Binding {
                name: name_pattern(5, 6, f, FUNCTION),
                arguments: vec![ident(a, INT), ident(b, STRING)],
                expression: variable(13, 15, ab, INT),
            }],
            Box::new(variable(19, 20, f, FUNCTION)),
        ),
    )
}

#[test]
fn inside_a_binding_its_arguments_are_in_scope() {
    let mut env = Interner::new();
    let tree = function_binding(&mut env);
    let found = suggest(&env, &types(), &tree, at(13));
    assert_eq!(names(&env, &found), vec!["ab"; 0]);
    let a = env.intern("a");
    let f = env.intern("f");
    let whole = node(
        1,
        20,
        INT,
        Expr::Let(
            vec![Binding {
                name: name_pattern(5, 6, f, FUNCTION),
                arguments: vec![ident(a, INT), ident(env.intern("b"), STRING)],
                expression: variable(13, 14, a, INT),
            }],
            Box::new(variable(19, 20, f, FUNCTION)),
        ),
    );
    assert_eq!(suggest(&env, &types(), &whole, at(13)), vec![ident(a, INT)]);
    assert_eq!(find(&whole, at(13)), Ok(INT));
    // Behind the only binding the walk goes on in the body.
    assert_eq!(suggest(&env, &types(), &tree, at(15)), vec![ident(f, FUNCTION)]);
    assert_eq!(suggest(&env, &types(), &tree, at(19)), vec![ident(f, FUNCTION)]);
    assert_eq!(suggest(&env, &types(), &tree, at(30)), vec![ident(f, FUNCTION)]);
}

#[test]
fn between_two_bindings_the_walk_enters_the_first() {
    let mut env = Interner::new();
    let f = env.intern("f");
    let g = env.intern("g");
    let a = env.intern("a");
    let b = env.intern("b");
    let tree = node(
        1,
        40,
        INT,
        Expr::Let(
            vec![
                Binding {
                    name: name_pattern(5, 6, f, FUNCTION),
                    arguments: vec![ident(a, INT)],
                    expression: number(11, 12, 1),
                },
                Binding {
                    name: name_pattern(15, 16, g, FUNCTION),
                    arguments: vec![ident(b, STRING)],
                    expression: number(21, 22, 2),
                },
            ],
            Box::new(variable(30, 31, f, FUNCTION)),
        ),
    );
    assert_eq!(
        suggest(&env, &types(), &tree, at(14)),
        vec![ident(f, FUNCTION), ident(g, FUNCTION), ident(a, INT)]
    );
    assert_eq!(
        suggest(&env, &types(), &tree, at(3)),
        vec![ident(f, FUNCTION), ident(g, FUNCTION), ident(a, INT)]
    );
    assert_eq!(
        suggest(&env, &types(), &tree, at(25)),
        vec![ident(f, FUNCTION), ident(g, FUNCTION)]
    );
    assert_eq!(find(&tree, at(21)), Ok(INT));
    assert_eq!(find(&tree, at(14)), Err(()));
    assert_eq!(suggest(&env, &types(), &tree, at(30)), vec![ident(f, FUNCTION)]);
}

#[test]
fn completions_keep_the_order_of_the_scope() {
    let mut env = Interner::new();
    let value = env.intern("value");
    let other = env.intern("other");
    let va = env.intern("va");
    let v = env.intern("v");
    let tree = node(
        1,
        40,
        INT,
        Expr::Lambda(
            vec![ident(value, INT), ident(other, STRING), ident(va, STRING), ident(value, STRING)],
            Box::new(variable(30, 31, v, INT)),
        ),
    );
    assert_eq!(
        suggest(&env, &types(), &tree, at(30)),
        vec![ident(value, STRING), ident(va, STRING)]
    );
    assert_eq!(
        suggest(&env, &types(), &tree, at(35)),
        vec![ident(value, STRING), ident(other, STRING), ident(va, STRING)]
    );
    assert_eq!(find(&tree, at(30)), Ok(INT));
}

fn record_types(env: &mut Interner) -> (TypeEnv, TcType) {
    let mut types = types();
    let first = env.intern("first");
    let second = env.intern("second");
    let fine = env.intern("fine");
    let record = types.declare(Type::Record(vec![
        ident(first, INT),
        ident(second, STRING),
        ident(fine, FUNCTION),
    ]));
    let alias = types.declare(Type::Alias(record));
    (types, alias)
}

#[test]
fn behind_a_record_its_fields_are_offered() {
    let mut env = Interner::new();
    let (types, alias) = record_types(&mut env);
    let r = env.intern("r");
    let fi = env.intern("fi");
    let first = env.intern("first");
    let fine = env.intern("fine");
    let tree = node(
        1,
        5,
        INT,
        Expr::FieldAccess(Box::new(variable(1, 2, r, alias)), ident(fi, INT)),
    );
    assert_eq!(
        suggest(&env, &types, &tree, at(3)),
        vec![ident(first, INT), ident(fine, FUNCTION)]
    );
    assert_eq!(find(&tree, at(3)), Ok(INT));
    assert_eq!(find(&tree, at(1)), Ok(alias));
    assert_eq!(suggest(&env, &types, &tree, at(1)), vec![]);
    let plain = node(
        1,
        5,
        INT,
        Expr::FieldAccess(Box::new(variable(1, 2, r, INT)), ident(fi, INT)),
    );
    assert_eq!(suggest(&env, &types, &plain, at(3)), vec![]);
}

#[test]
fn a_record_pattern_binds_its_fields_by_position() {
    let mut env = Interner::new();
    let (types, alias) = record_types(&mut env);
    let first = env.intern("first");
    let second = env.intern("second");
    let renamed = env.intern("renamed");
    let r = env.intern("r");
    let pattern = LPattern {
        span: span(5, 20),
        value: Pattern::Record {
            id: ident(r, alias),
            fields: vec![
                FieldPattern { name: first, rename: None },
                FieldPattern { name: second, rename: Some(renamed) },
            ],
        },
    };
    let tree = node(
        1,
        40,
        INT,
        Expr::Let(
            vec![Binding { name: pattern, arguments: vec![], expression: number(23, 24, 1) }],
            Box::new(number(30, 31, 2)),
        ),
    );
    assert_eq!(
        suggest(&env, &types, &tree, at(35)),
        vec![ident(first, INT), ident(renamed, STRING)]
    );
    assert_eq!(find(&tree, at(35)), Err(()));
    assert_eq!(find(&tree, at(30)), Ok(INT));
}

#[test]
fn a_constructor_pattern_binds_its_arguments() {
    let mut env = Interner::new();
    let some = env.intern("Some");
    let x = env.intern("x");
    let pattern = LPattern {
        span: span(5, 11),
        value: Pattern::Constructor(ident(some, FUNCTION), vec![ident(x, STRING)]),
    };
    let tree = node(
        1,
        40,
        INT,
        Expr::Let(
            vec![Binding { name: pattern, arguments: vec![], expression: number(14, 15, 1) }],
            Box::new(number(30, 31, 2)),
        ),
    );
    assert_eq!(suggest(&env, &types(), &tree, at(35)), vec![ident(x, STRING)]);
}

#[test]
fn calls_branches_and_lists_go_into_the_chosen_expression() {
    let mut env = Interner::new();
    let f = env.intern("f");
    let a = env.intern("a");
    let call = node(
        1,
        10,
        INT,
        Expr::Call(
            Box::new(variable(1, 2, f, FUNCTION)),
            vec![variable(3, 4, a, STRING), number(5, 6, 1)],
        ),
    );
    assert_eq!(find(&call, at(1)), Ok(FUNCTION));
    assert_eq!(find(&call, at(3)), Ok(STRING));
    assert_eq!(find(&call, at(5)), Ok(INT));
    assert_eq!(find(&call, at(4)), Err(()));
    let branches = node(
        1,
        30,
        INT,
        Expr::IfElse(
            Box::new(variable(4, 5, a, STRING)),
            Box::new(number(8, 9, 1)),
            Box::new(variable(17, 18, f, FUNCTION)),
        ),
    );
    assert_eq!(find(&branches, at(4)), Ok(STRING));
    assert_eq!(find(&branches, at(8)), Ok(INT));
    assert_eq!(find(&branches, at(17)), Ok(FUNCTION));
    assert_eq!(find(&branches, at(1)), Err(()));
    for list in [
        Expr::Array(vec![number(2, 3, 1), variable(5, 6, a, STRING)]),
        Expr::Tuple(vec![number(2, 3, 1), variable(5, 6, a, STRING)]),
        Expr::Block(vec![number(2, 3, 1), variable(5, 6, a, STRING)]),
    ] {
        let tree = node(1, 8, INT, list);
        assert_eq!(find(&tree, at(2)), Ok(INT));
        assert_eq!(find(&tree, at(5)), Ok(STRING));
        assert_eq!(find(&tree, at(7)), Err(()));
    }
}

#[test]
fn an_empty_list_has_nothing_to_find() {
    let a = Interner::new().intern("a");
    for list in [Expr::Array(vec![]), Expr::Tuple(vec![]), Expr::Block(vec![])] {
        let tree = node(
            1,
            10,
            INT,
            Expr::Lambda(vec![ident(a, INT)], Box::new(node(4, 6, INT, list))),
        );
        assert_eq!(find(&tree, at(4)), Err(()));
        let mut env = Interner::new();
        env.intern("a");
        assert_eq!(suggest(&env, &types(), &tree, at(4)), vec![ident(a, INT)]);
    }
}

#[test]
fn a_match_goes_into_the_scrutinee_or_an_alternative() {
    let mut env = Interner::new();
    let a = env.intern("a");
    let x = env.intern("x");
    let tree = node(
        1,
        30,
        INT,
        Expr::Match(
            Box::new(variable(7, 8, a, STRING)),
            vec![
                Alternative {
                    pattern: name_pattern(11, 12, x, INT),
                    expression: number(16, 17, 1),
                },
                Alternative {
                    pattern: name_pattern(20, 21, x, INT),
                    expression: variable(25, 26, x, FUNCTION),
                },
            ],
        ),
    );
    assert_eq!(find(&tree, at(7)), Ok(STRING));
    assert_eq!(find(&tree, at(16)), Ok(INT));
    assert_eq!(find(&tree, at(25)), Ok(FUNCTION));
}

#[test]
fn a_type_alias_is_passed_through() {
    let mut env = Interner::new();
    let t = env.intern("T");
    let tree = node(1, 20, INT, Expr::Type(t, Box::new(number(15, 16, 1))));
    assert_eq!(find(&tree, at(15)), Ok(INT));
    assert_eq!(find(&tree, at(3)), Err(()));
}

#[test]
fn a_record_is_entered_only_through_an_initializer_that_holds_the_target() {
    let mut env = Interner::new();
    let a = env.intern("a");
    let b = env.intern("b");
    let c = env.intern("c");
    let record = node(
        3,
        30,
        INT,
        Expr::Record(vec![
            RecordField { name: a, value: Some(number(9, 10, 1)) },
            RecordField { name: b, value: None },
            RecordField { name: c, value: Some(variable(20, 21, a, STRING)) },
        ]),
    );
    let tree = node(1, 30, INT, Expr::Lambda(vec![ident(a, STRING)], Box::new(record)));
    assert_eq!(find(&tree, at(9)), Ok(INT));
    assert_eq!(find(&tree, at(20)), Ok(STRING));
    assert_eq!(find(&tree, at(12)), Err(()));
    assert_eq!(find(&tree, at(25)), Err(()));
    assert_eq!(suggest(&env, &types(), &tree, at(20)), vec![ident(a, STRING)]);
    assert_eq!(suggest(&env, &types(), &tree, at(12)), vec![]);
    assert_eq!(suggest(&env, &types(), &tree, at(25)), vec![]);
    let bare = node(1, 5, INT, Expr::Record(vec![RecordField { name: b, value: None }]));
    assert_eq!(find(&bare, at(2)), Err(()));
}

#[test]
fn a_symbol_that_the_interner_does_not_hold_shows_as_the_empty_name() {
    let mut other = Interner::new();
    other.intern("zero");
    let stray = other.intern("stray");
    let mut env = Interner::new();
    let a = env.intern("a");
    let tree = node(
        1,
        10,
        INT,
        Expr::Lambda(vec![ident(a, INT)], Box::new(variable(5, 6, stray, STRING))),
    );
    assert_eq!(suggest(&env, &types(), &tree, at(5)), vec![ident(a, INT)]);
}
