use std::sync::Arc;

use yara_x::{lookup_field, Location, StackedSymbolTable, Symbol, SymbolLookup, SymbolTable, Type, Value};

#[test]
fn symbol_accessors() {
    let s = Symbol::new(Type::Integer, Value::Integer(7));
    assert_eq!(s.ty(), Type::Integer);
    assert!(matches!(s.value(), Value::Integer(7)));
    assert_eq!(*s.location(), Location::Unassigned);
    assert_eq!(s.mem_location(), None);
    let s = s.set_location(Location::Memory(12));
    assert_eq!(s.mem_location(), Some(12));
    assert_eq!(*s.location(), Location::Memory(12));
    assert_eq!(s.ty(), Type::Integer);
}

#[test]
fn struct_symbols_hold_tables() {
    let mut inner = SymbolTable::new();
    inner.insert("x", Symbol::new(Type::Bool, Value::Bool(true)));
    let s = Symbol::new_struct(Arc::new(inner));
    assert_eq!(s.ty(), Type::Struct);
    match s.value() {
        Value::Struct(t) => assert!(matches!(t.lookup("x").map(|x| x.ty()), Some(Type::Bool))),
        _ => panic!("not a structure"),
    }
}

#[test]
fn table_insert_returns_previous() {
    let mut t = SymbolTable::new();
    assert!(t.lookup("a").is_none());
    assert!(t.insert("a", Symbol::new(Type::Integer, Value::Integer(1))).is_none());
    assert!(t.insert("b", Symbol::new(Type::String, Value::String(b"s".to_vec()))).is_none());
    let old = t.insert("a", Symbol::new(Type::Integer, Value::Integer(2)));
    assert!(matches!(old.as_ref().map(|s| s.value()), Some(Value::Integer(1))));
    assert!(matches!(t.lookup("a").map(|s| s.value()), Some(Value::Integer(2))));
    assert_eq!(t.lookup("b").map(|s| s.ty()), Some(Type::String));
}

#[test]
fn stacked_tables_shadow() {
    let mut bottom = SymbolTable::new();
    bottom.insert("foo", Symbol::new(Type::Integer, Value::Integer(1)));
    bottom.insert("bar", Symbol::new(Type::Bool, Value::Bool(false)));
    let mut top = SymbolTable::new();
    top.insert("foo", Symbol::new(Type::Integer, Value::Integer(2)));

    let mut st = StackedSymbolTable::new();
    assert!(st.lookup("foo").is_none());
    st.push(Arc::new(bottom));
    st.push(Arc::new(top));
    assert!(matches!(st.lookup("foo").map(|s| s.value()), Some(Value::Integer(2))));
    assert_eq!(st.lookup("bar").map(|s| s.ty()), Some(Type::Bool));
    assert!(st.lookup("baz").is_none());
    assert!(st.pop().is_some());
    assert!(matches!(st.lookup("foo").map(|s| s.value()), Some(Value::Integer(1))));
    assert!(st.pop().is_some());
    assert!(st.pop().is_none());
}

fn type_of<L: SymbolLookup>(scope: &L, ident: &str) -> Option<Type> {
    SymbolLookup::lookup(scope, ident).map(|s| s.ty())
}

#[test]
fn lookup_through_the_trait() {
    let mut t = SymbolTable::default();
    t.insert("n", Symbol::new(Type::Integer, Value::Unknown));
    assert_eq!(type_of(&t, "n"), Some(Type::Integer));
    assert_eq!(type_of(&t, "m"), None);
    let mut st = StackedSymbolTable::new();
    st.push(Arc::new(t));
    assert_eq!(type_of(&st, "n"), Some(Type::Integer));
}

#[test]
fn chained_field_lookup() {
    let mut inner = SymbolTable::new();
    inner.insert("int32_zero", Symbol::new(Type::Integer, Value::Integer(0)));
    let mut outer = SymbolTable::new();
    outer.insert("nested", Symbol::new_struct(Arc::new(inner)));
    outer.insert("flat", Symbol::from(Type::Bool));
    let nested = outer.lookup("nested");
    assert!(matches!(lookup_field(nested, "int32_zero").map(|s| s.value()), Some(Value::Integer(0))));
    assert!(lookup_field(nested, "missing").is_none());
    assert!(lookup_field(outer.lookup("flat"), "x").is_none());
    assert!(lookup_field(None, "x").is_none());
    let s = Symbol::from(Type::Bool);
    assert_eq!(s.ty(), Type::Bool);
    assert!(matches!(s.value(), Value::Unknown));
}
