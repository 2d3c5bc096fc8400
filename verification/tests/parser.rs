use summit_breeze::ast::{Command, Identifier, QualifiedIdentifier, Sort, Term};
use summit_breeze::parse;

#[test]
fn test_parse_empty() {
    let result = parse("");
    assert!(result.script.commands.is_empty());
    assert!(result.diagnostics.is_empty());
}

#[test]
fn test_parse_set_logic() {
    let result = parse("(set-logic QF_LIA)");
    assert_eq!(result.script.commands.len(), 1);
    match &result.script.commands[0].node {
        Command::SetLogic(sym) => assert_eq!(sym.node.name, "QF_LIA"),
        other => panic!("expected SetLogic, got {:?}", other),
    }
    assert!(result.diagnostics.is_empty());
}

#[test]
fn test_parse_declare_fun() {
    let result = parse("(declare-fun x () Int)");
    assert_eq!(result.script.commands.len(), 1);
    match &result.script.commands[0].node {
        Command::DeclareFun(name, params, sort) => {
            assert_eq!(name.node.name, "x");
            assert!(params.is_empty());
            match &sort.node {
                Sort::Simple(Identifier::Simple(s)) => assert_eq!(s.name, "Int"),
                other => panic!("expected simple sort, got {:?}", other),
            }
        }
        other => panic!("expected DeclareFun, got {:?}", other),
    }
}

#[test]
fn test_parse_declare_const() {
    let result = parse("(declare-const y Bool)");
    match &result.script.commands[0].node {
        Command::DeclareConst(name, _sort) => {
            assert_eq!(name.node.name, "y");
        }
        other => panic!("expected DeclareConst, got {:?}", other),
    }
}

#[test]
fn test_parse_assert() {
    let result = parse("(assert (> x 0))");
    assert_eq!(result.script.commands.len(), 1);
    match &result.script.commands[0].node {
        Command::Assert(_) => {}
        other => panic!("expected Assert, got {:?}", other),
    }
}

#[test]
fn test_parse_check_sat() {
    let result = parse("(check-sat)");
    match &result.script.commands[0].node {
        Command::CheckSat => {}
        other => panic!("expected CheckSat, got {:?}", other),
    }
}

#[test]
fn test_parse_push_pop() {
    let result = parse("(push 1)(pop 1)");
    assert_eq!(result.script.commands.len(), 2);
    match &result.script.commands[0].node {
        Command::Push(n) => assert_eq!(*n, 1),
        other => panic!("expected Push, got {:?}", other),
    }
    match &result.script.commands[1].node {
        Command::Pop(n) => assert_eq!(*n, 1),
        other => panic!("expected Pop, got {:?}", other),
    }
}

#[test]
fn test_parse_define_fun() {
    let src = "(define-fun add ((x Int) (y Int)) Int (+ x y))";
    let result = parse(src);
    assert!(result.diagnostics.is_empty(), "{:?}", result.diagnostics);
    match &result.script.commands[0].node {
        Command::DefineFun(def) => {
            assert_eq!(def.name.node.name, "add");
            assert_eq!(def.params.len(), 2);
        }
        other => panic!("expected DefineFun, got {:?}", other),
    }
}

#[test]
fn test_parse_let_term() {
    let src = "(assert (let ((x 1)) (+ x 2)))";
    let result = parse(src);
    assert!(result.diagnostics.is_empty(), "{:?}", result.diagnostics);
}

#[test]
fn test_parse_quantifier() {
    let src = "(assert (forall ((x Int)) (> x 0)))";
    let result = parse(src);
    assert!(result.diagnostics.is_empty(), "{:?}", result.diagnostics);
}

#[test]
fn test_parse_annotated_term() {
    let src = "(assert (! (> x 0) :named foo))";
    let result = parse(src);
    assert!(result.diagnostics.is_empty(), "{:?}", result.diagnostics);
}

#[test]
fn test_parse_indexed_identifier() {
    let src = "(assert (= (_ bv0 32) x))";
    let result = parse(src);
    assert!(result.diagnostics.is_empty(), "{:?}", result.diagnostics);
}

#[test]
fn test_parse_unknown_command() {
    let src = "(my-custom-command arg1 42)";
    let result = parse(src);
    assert_eq!(result.script.commands.len(), 1);
    match &result.script.commands[0].node {
        Command::Unknown(name, args) => {
            assert_eq!(name, "my-custom-command");
            assert_eq!(args.len(), 2);
        }
        other => panic!("expected Unknown, got {:?}", other),
    }
}

#[test]
fn test_error_recovery() {
    // Malformed first command, valid second
    let src = "(assert )(check-sat)";
    let result = parse(src);
    // Should recover and parse check-sat
    assert!(!result.diagnostics.is_empty());
    let check_sat_found = result
        .script
        .commands
        .iter()
        .any(|c| matches!(c.node, Command::CheckSat));
    assert!(check_sat_found, "should recover and parse check-sat");
}

#[test]
fn test_full_script() {
    let src = r#"
(set-logic QF_LIA)
(declare-fun x () Int)
(declare-fun y () Int)
(assert (> x 0))
(assert (< y 10))
(assert (= (+ x y) 7))
(check-sat)
(get-model)
(exit)
"#;
    let result = parse(src);
    assert!(result.diagnostics.is_empty(), "{:?}", result.diagnostics);
    assert_eq!(result.script.commands.len(), 9);
}

#[test]
fn test_declare_datatypes() {
    let src = r#"
(declare-datatypes ((Color 0)) (
  ((Red) (Green) (Blue))
))
"#;
    let result = parse(src);
    assert!(result.diagnostics.is_empty(), "{:?}", result.diagnostics);
    match &result.script.commands[0].node {
        Command::DeclareDatatypes(sorts, decs) => {
            assert_eq!(sorts.len(), 1);
            assert_eq!(sorts[0].0.node.name, "Color");
            assert_eq!(decs[0].node.constructors.len(), 3);
        }
        other => panic!("expected DeclareDatatypes, got {:?}", other),
    }
}

#[test]
fn test_comments_ignored() {
    let src = "; comment\n(check-sat) ; inline comment\n";
    let result = parse(src);
    assert_eq!(result.script.commands.len(), 1);
    assert!(result.diagnostics.is_empty());
}

#[test]
fn test_declare_sort_no_arity() {
    // Z3 extension: declare-sort without arity defaults to 0
    let result = parse("(declare-sort MySort)");
    assert!(result.diagnostics.is_empty(), "{:?}", result.diagnostics);
    match &result.script.commands[0].node {
        Command::DeclareSort(name, arity) => {
            assert_eq!(name.node.name, "MySort");
            assert_eq!(*arity, 0);
        }
        other => panic!("expected DeclareSort, got {:?}", other),
    }
}

#[test]
fn test_z3_legacy_declare_datatypes() {
    // Z3 legacy syntax: (declare-datatypes () ((TypeName (Ctor1) (Ctor2 (field Sort)))))
    let src = "(declare-datatypes () ((Fuel (ZFuel) (SFuel (prec Fuel)))))";
    let result = parse(src);
    assert!(result.diagnostics.is_empty(), "{:?}", result.diagnostics);
    match &result.script.commands[0].node {
        Command::DeclareDatatypes(sorts, decs) => {
            assert_eq!(sorts.len(), 1);
            assert_eq!(sorts[0].0.node.name, "Fuel");
            assert_eq!(decs[0].node.constructors.len(), 2);
            assert_eq!(decs[0].node.constructors[0].node.name.node.name, "ZFuel");
            assert_eq!(decs[0].node.constructors[1].node.name.node.name, "SFuel");
            assert_eq!(decs[0].node.constructors[1].node.selectors.len(), 1);
            assert_eq!(decs[0].node.constructors[1].node.selectors[0].name.node.name, "prec");
        }
        other => panic!("expected DeclareDatatypes, got {:?}", other),
    }
}

#[test]
fn test_identifier_span_precision() {
    // Verify that simple identifier references have tight spans
    let src = "(assert (= foo bar))";
    let result = parse(src);
    assert!(result.diagnostics.is_empty(), "{:?}", result.diagnostics);
    match &result.script.commands[0].node {
        Command::Assert(term) => match &term.node {
            Term::Application(func, args) => {
                // '=' should have a tight span
                let eq_span = func.span;
                assert_eq!(&src[eq_span.start as usize..eq_span.end as usize], "=");
                // 'foo' and 'bar' should have tight spans
                for arg in args {
                    match &arg.node {
                        Term::QualifiedIdentifier(QualifiedIdentifier::Simple(ident)) => {
                            let text =
                                &src[ident.span.start as usize..ident.span.end as usize];
                            assert!(
                                text == "foo" || text == "bar",
                                "unexpected ident text: '{}'",
                                text
                            );
                        }
                        other => panic!("expected QualifiedIdentifier, got {:?}", other),
                    }
                }
            }
            other => panic!("expected Application, got {:?}", other),
        },
        other => panic!("expected Assert, got {:?}", other),
    }
}
