use ninja_front::arena::Arena;
use ninja_front::ast::{Binding, Scope, Scopes, Value};
use ninja_front::blob::{Blob, Builder};
use ninja_front::intern::Table;
use ninja_front::lex::{Identifier, ValuePart};
use ninja_front::lex::Value as LexValue;

#[test]
fn blob_owns_its_bytes() {
    let blob = Blob::new(b"abc");
    assert_eq!(blob.as_bytes(), b"abc");
    assert_eq!(Blob::empty().as_bytes(), b"");
}

#[test]
fn builder_accumulates_in_order() {
    let mut builder = Builder::new();
    builder.push(97);
    builder.extend(b"bc");
    builder.push(100);
    assert_eq!(builder.blob().as_bytes(), b"abcd");
}

#[test]
fn arena_handles_index_their_values() {
    let mut arena: Arena<u32> = Arena::new();
    let first = arena.insert(10);
    let second = arena.insert(20);
    assert_eq!(*arena.get(first), 10);
    assert_eq!(*arena.get(second), 20);
    *arena.get_mut(first) = 30;
    assert_eq!(*arena.get(first), 30);
    assert_eq!(*arena.get(second), 20);
}

#[test]
fn scope_rejects_duplicate_names() {
    let mut table = Table::new();
    let x = Identifier::new(&mut table, b"x");
    let mut scope = Scope::empty(None);
    assert!(scope.push(Binding::new(x, Blob::new(b"1"))).is_ok());
    assert!(scope.push(Binding::new(x, Blob::new(b"2"))).is_err());
}

#[test]
fn scope_chaining_resolves_through_parent() {
    let mut table = Table::new();
    let in_top = Identifier::new(&mut table, b"in_top");
    let in_both = Identifier::new(&mut table, b"in_both");
    let nowhere = Identifier::new(&mut table, b"nowhere");

    let mut scopes = Scopes::new();
    let top = scopes.top();
    scopes
        .get_scope_mut(top)
        .push(Binding::new(in_top, Blob::new(b"top value")))
        .expect("failed to bind in top");
    scopes
        .get_scope_mut(top)
        .push(Binding::new(in_both, Blob::new(b"outer")))
        .expect("failed to bind in top");

    let child = scopes
        .new_scope(vec![Binding::new(in_both, Blob::new(b"inner"))])
        .expect("failed to allocate child scope");

    // a name bound only in top is visible from the child via chained lookup
    assert_eq!(scopes.get(child, in_top), Some(&b"top value"[..]));
    // but not by a single-scope lookup on the child
    assert_eq!(scopes.get_scope(child).get(in_top), None);
    // a name bound in both resolves to the child's own value
    assert_eq!(scopes.get(child, in_both), Some(&b"inner"[..]));
    // a name bound nowhere is absent through the whole chain
    assert_eq!(scopes.get(child, nowhere), None);
}

#[test]
fn evaluate_concatenates_parts() {
    let mut table = Table::new();
    let x = Identifier::new(&mut table, b"x");
    let mut scope = Scope::empty(None);
    scope.push(Binding::new(x, Blob::new(b"ab"))).expect("failed to bind");

    let value = Value::new(LexValue {
        parts: vec![
            ValuePart::Text(Blob::new(b"c")),
            ValuePart::Variable(x),
            ValuePart::Text(Blob::new(b"d")),
        ],
    });
    assert_eq!(scope.evaluate(&value).as_bytes(), b"cabd");
}

#[test]
fn undefined_variable_expands_to_empty() {
    let mut table = Table::new();
    let missing = Identifier::new(&mut table, b"missing");
    let scope = Scope::empty(None);
    let value = Value::new(LexValue { parts: vec![ValuePart::Variable(missing)] });
    assert_eq!(scope.evaluate(&value).as_bytes(), b"");

    let framed = Value::new(LexValue {
        parts: vec![
            ValuePart::Text(Blob::new(b"a")),
            ValuePart::Variable(missing),
            ValuePart::Text(Blob::new(b"b")),
        ],
    });
    assert_eq!(scope.evaluate(&framed).as_bytes(), b"ab");
}

#[test]
fn scope_size_counts_bindings() {
    let mut table = Table::new();
    let x = Identifier::new(&mut table, b"x");
    let y = Identifier::new(&mut table, b"y");
    let mut scope = Scope::empty(None);
    assert_eq!(scope.size(), 0);
    scope.push(Binding::new(x, Blob::new(b"1"))).expect("failed to bind");
    scope.push(Binding::new(y, Blob::new(b"2"))).expect("failed to bind");
    assert_eq!(scope.size(), 2);
    assert_eq!(scope.get(x), Some(&b"1"[..]));
    assert_eq!(scope.get(y), Some(&b"2"[..]));
}
