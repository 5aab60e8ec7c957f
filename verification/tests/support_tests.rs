use langfront::interner::Interner;
use langfront::pos::{Containment, Location, Span};
use langfront::scoped_map::ScopedMap;
use langfront::types::{TcIdent, TcType, Type, TypeEnv};
use std::cmp::Ordering;

fn at(line: i32, column: i32) -> Location {
    Location { line, column, absolute: 0 }
}

#[test]
fn eof_is_minus_one_everywhere() {
    assert_eq!(Location::eof(), Location { line: -1, column: -1, absolute: -1 });
}

#[test]
fn locations_compare_by_line_then_column_then_offset() {
    assert!(at(1, 9).is_before(&at(2, 1)));
    assert!(at(2, 1).is_before(&at(2, 2)));
    assert!(!at(2, 2).is_before(&at(2, 2)));
    assert!(!at(3, 1).is_before(&at(2, 9)));
    let early = Location { line: 1, column: 1, absolute: 3 };
    let late = Location { line: 1, column: 1, absolute: 4 };
    assert!(early.is_before(&late));
    assert!(!late.is_before(&early));
}

#[test]
fn containment_is_half_open() {
    let span = Span { start: at(1, 5), end: at(1, 8) };
    assert_eq!(span.containment(&at(1, 4)), Ordering::Less);
    assert_eq!(span.containment(&at(1, 5)), Ordering::Equal);
    assert_eq!(span.containment(&at(1, 7)), Ordering::Equal);
    assert_eq!(span.containment(&at(1, 8)), Ordering::Greater);
    assert_eq!(span.containment(&at(2, 1)), Ordering::Greater);
    assert_eq!(span.position_of(&at(1, 4)), Containment::Before);
    assert_eq!(span.position_of(&at(1, 6)), Containment::Within);
    assert_eq!(span.position_of(&at(1, 8)), Containment::After);
}

#[test]
fn an_empty_span_contains_nothing() {
    let span = Span { start: at(1, 5), end: at(1, 5) };
    assert_eq!(span.containment(&at(1, 5)), Ordering::Greater);
    assert_eq!(span.containment(&at(1, 4)), Ordering::Less);
}

#[test]
fn interning_gives_one_handle_per_string() {
    let mut interner = Interner::new();
    let a = interner.intern("alpha");
    let b = interner.intern("beta");
    let again = interner.intern("alpha");
    assert_eq!(a, again);
    assert_ne!(a, b);
    assert_eq!(interner.len(), 2);
    assert_eq!(interner.string(a), "alpha");
    assert_eq!(interner.string(b), "beta");
    assert_eq!(a.index(), 0);
    assert_eq!(b.index(), 1);
    assert_eq!(interner.lookup("beta"), Some(b));
    assert_eq!(interner.lookup("gamma"), None);
}

#[test]
fn a_later_binding_replaces_the_earlier_one_in_place() {
    let mut interner = Interner::new();
    let x = interner.intern("x");
    let y = interner.intern("y");
    let mut map = ScopedMap::new();
    map.insert(x, TcType { id: 1 });
    map.insert(y, TcType { id: 2 });
    map.insert(x, TcType { id: 3 });
    assert_eq!(
        map.bindings(),
        &vec![
            TcIdent { name: x, typ: TcType { id: 3 } },
            TcIdent { name: y, typ: TcType { id: 2 } },
        ]
    );
    assert_eq!(map.get(x), Some(TcType { id: 3 }));
    assert_eq!(map.get(y), Some(TcType { id: 2 }));
    assert_eq!(ScopedMap::new().get(x), None);
}

#[test]
fn aliases_are_removed_up_to_the_record() {
    let mut interner = Interner::new();
    let f = interner.intern("f");
    let mut env = TypeEnv::new();
    let int = env.declare(Type::Opaque);
    let record = env.declare(Type::Record(vec![TcIdent { name: f, typ: int }]));
    let alias = env.declare(Type::Alias(record));
    let alias_of_alias = env.declare(Type::Alias(alias));
    assert_eq!(int, TcType { id: 0 });
    assert_eq!(env.remove_aliases(alias_of_alias), record);
    assert_eq!(env.remove_aliases(record), record);
    assert_eq!(env.remove_aliases(int), int);
    assert_eq!(env.remove_aliases(TcType { id: 99 }), TcType { id: 99 });
    assert_eq!(env.record_fields(record), Some(&vec![TcIdent { name: f, typ: int }]));
    assert_eq!(env.record_fields(alias), None);
    assert_eq!(env.record_fields(int), None);
    assert_eq!(env.record_fields(TcType { id: 99 }), None);
}

#[test]
fn a_circle_of_aliases_ends() {
    let mut env = TypeEnv::new();
    let a = env.declare(Type::Alias(TcType { id: 1 }));
    let b = env.declare(Type::Alias(TcType { id: 0 }));
    assert_eq!(env.remove_aliases(a), a);
    assert_eq!(env.remove_aliases(b), b);
}
