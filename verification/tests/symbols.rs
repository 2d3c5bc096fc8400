use summit_breeze::parse;
use summit_breeze::symbols::{build_index, SymbolKind};

#[test]
fn test_index_declarations() {
    let result = parse(
        "(declare-fun f (Int) Bool)\n(declare-const x Int)\n(declare-sort MySort 0)",
    );
    let index = build_index(&result.script);
    assert!(index.definitions.contains_key("f"));
    assert!(index.definitions.contains_key("x"));
    assert!(index.definitions.contains_key("MySort"));
    assert_eq!(index.definitions.get("f").unwrap()[0].kind, SymbolKind::Function);
    assert_eq!(index.definitions.get("x").unwrap()[0].kind, SymbolKind::Constant);
    assert_eq!(index.definitions.get("MySort").unwrap()[0].kind, SymbolKind::Sort);
}

#[test]
fn test_index_push_pop() {
    let result = parse("(push 1)(assert true)(pop 1)");
    let index = build_index(&result.script);
    assert_eq!(index.push_pop_pairs.len(), 1);
    assert!(index.push_pop_pairs[0].pop_span.is_some());
}

#[test]
fn test_index_references() {
    let result = parse("(declare-fun f () Int)\n(assert (= f 0))");
    let index = build_index(&result.script);
    let f_refs: Vec<_> = index.references.iter().filter(|r| r.name == "f").collect();
    assert!(!f_refs.is_empty());
}

#[test]
fn test_index_define_fun_params() {
    let result = parse("(define-fun add ((x Int) (y Int)) Int (+ x y))");
    let index = build_index(&result.script);
    assert!(index.definitions.contains_key("add"));
    assert!(index.definitions.contains_key("x"));
    assert!(index.definitions.contains_key("y"));
    assert_eq!(index.definitions.get("x").unwrap()[0].kind, SymbolKind::Variable);
}

#[test]
fn test_index_datatypes() {
    let src = "(declare-datatypes ((Color 0)) (((Red) (Green) (Blue))))";
    let result = parse(src);
    let index = build_index(&result.script);
    assert!(index.definitions.contains_key("Color"));
    assert!(index.definitions.contains_key("Red"));
    assert!(index.definitions.contains_key("Green"));
    assert!(index.definitions.contains_key("Blue"));
    assert_eq!(index.definitions.get("Color").unwrap()[0].kind, SymbolKind::Datatype);
    assert_eq!(index.definitions.get("Red").unwrap()[0].kind, SymbolKind::Constructor);
}

#[test]
fn test_assert_not_references() {
    let src = "(declare-fun foo (Int) Int)\n(assert-not (= (foo 10) 20))";
    let result = parse(src);
    assert!(result.diagnostics.is_empty(), "{:?}", result.diagnostics);
    let index = build_index(&result.script);
    assert!(index.definitions.contains_key("foo"));
    let foo_refs: Vec<_> = index.references.iter().filter(|r| r.name == "foo").collect();
    assert!(!foo_refs.is_empty(), "foo should have references inside assert-not");
}

#[test]
fn test_sort_references() {
    let src = "(declare-sort MySort 0)\n(declare-fun f (MySort) MySort)";
    let result = parse(src);
    assert!(result.diagnostics.is_empty(), "{:?}", result.diagnostics);
    let index = build_index(&result.script);
    assert!(index.definitions.contains_key("MySort"));
    let sort_refs: Vec<_> = index.references.iter().filter(|r| r.name == "MySort").collect();
    // Should have at least 2 refs: param sort and result sort
    assert!(sort_refs.len() >= 2, "MySort should be referenced in param and result sort, got {}", sort_refs.len());
}

#[test]
fn test_local_variable_defs_forall() {
    let src = "(declare-fun f (Int) Bool)\n(assert (forall ((x Int)) (f x)))";
    let result = parse(src);
    assert!(result.diagnostics.is_empty(), "{:?}", result.diagnostics);
    let index = build_index(&result.script);
    // x should be a local variable definition
    assert!(index.definitions.contains_key("x"), "forall-bound x should be a definition");
    assert_eq!(index.definitions.get("x").unwrap()[0].kind, SymbolKind::Variable);
    assert!(index.definitions.get("x").unwrap()[0].scope_end.is_some(), "x should have a scope_end");
    // x should also appear as a reference in (f x)
    let x_refs: Vec<_> = index.references.iter().filter(|r| r.name == "x").collect();
    assert!(!x_refs.is_empty(), "x should be referenced in body");
}

#[test]
fn test_local_variable_defs_let() {
    let src = "(assert (let ((a 1) (b 2)) (+ a b)))";
    let result = parse(src);
    assert!(result.diagnostics.is_empty(), "{:?}", result.diagnostics);
    let index = build_index(&result.script);
    assert!(index.definitions.contains_key("a"), "let-bound a should be a definition");
    assert!(index.definitions.contains_key("b"), "let-bound b should be a definition");
    assert_eq!(index.definitions.get("a").unwrap()[0].kind, SymbolKind::Variable);
    assert!(index.definitions.get("a").unwrap()[0].scope_end.is_some());
}

#[test]
fn test_let_simultaneous_binding() {
    // In SMT-LIB, let bindings are simultaneous: the second binding's RHS
    // should NOT see the first binding's definition.
    let src = "(declare-fun x () Int)\n(assert (let ((x 1) (y x)) (+ x y)))";
    let result = parse(src);
    assert!(result.diagnostics.is_empty(), "{:?}", result.diagnostics);
    let index = build_index(&result.script);
    // There should be a global x (declare-fun) and a local x (let)
    assert_eq!(index.definitions.get("x").unwrap().len(), 2, "should have global and local x");
    // The 'x' reference in (y x) should resolve to global x (before the let defs)
    // Find the ref for x that appears in the second binding's value
    let global_x = &index.definitions.get("x").unwrap()[0]; // declare-fun
    let local_x = &index.definitions.get("x").unwrap()[1]; // let
    assert!(global_x.scope_end.is_none(), "global x should have no scope_end");
    assert!(local_x.scope_end.is_some(), "local x should have scope_end");
}

#[test]
fn test_lexical_scope_boundary() {
    // x bound in forall should not be visible after the forall body
    let src = "(declare-fun f (Int) Bool)\n(assert (and (forall ((x Int)) (f x)) (f 42)))";
    let result = parse(src);
    assert!(result.diagnostics.is_empty(), "{:?}", result.diagnostics);
    let index = build_index(&result.script);
    let x_def = &index.definitions.get("x").unwrap()[0];
    assert!(x_def.scope_end.is_some());
    // The x ref inside forall body should be within scope
    let x_refs: Vec<_> = index.references.iter().filter(|r| r.name == "x").collect();
    assert_eq!(x_refs.len(), 1, "only one x reference (inside forall)");
    let x_ref = x_refs[0];
    assert!(x_ref.span.start >= x_def.name_span.start);
    assert!(x_ref.span.end <= x_def.scope_end.unwrap());
}

#[test]
fn test_pattern_refs() {
    let src = "(declare-fun f (Int) Int)\n(assert (forall ((x Int)) (! (= (f x) 0) :pattern ((f x)))))";
    let result = parse(src);
    assert!(result.diagnostics.is_empty(), "{:?}", result.diagnostics);
    let index = build_index(&result.script);
    // f should appear multiple times: in body and in :pattern
    let f_refs: Vec<_> = index.references.iter().filter(|r| r.name == "f").collect();
    assert!(f_refs.len() >= 2, "f should be referenced in body and pattern, got {}", f_refs.len());
}

#[test]
fn test_resolve_respects_scope() {
    let src = "(declare-fun x () Int)\n(assert (forall ((x Int)) (= x 0)))";
    let result = parse(src);
    let index = build_index(&result.script);
    // Find the x reference inside the forall body
    let x_ref = index.references.iter().find(|r| r.name == "x").unwrap();
    // Resolve should find the forall-bound x (local), not the global one
    let resolved = index.resolve("x", x_ref.span.start, x_ref.stack_depth).unwrap();
    assert!(resolved.scope_end.is_some(), "should resolve to local x, not global");
}

#[test]
fn test_sort_refs_in_selector() {
    let src = "(declare-sort MySort 0)\n(declare-datatypes ((MyDT 0)) (((mk-dt (field1 MySort)))))";
    let result = parse(src);
    assert!(result.diagnostics.is_empty(), "{:?}", result.diagnostics);
    let index = build_index(&result.script);
    let sort_refs: Vec<_> = index.references.iter().filter(|r| r.name == "MySort").collect();
    assert!(!sort_refs.is_empty(), "MySort should be referenced in selector sort");
}
