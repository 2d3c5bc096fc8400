use summit_breeze::ast::{Command, Constant, Sort, Term};
use summit_breeze::document::{Document, OutlineKind, Position, Range};
use summit_breeze::lexer::{span_text, tokenize, tokenize_with_comments, Lexer, Token, TokenKind};
use summit_breeze::parse;
use summit_breeze::span::Span;
use summit_breeze::symbols::{build_index, CommandInfoKind, PushPopPair, SymbolKind};

fn pos(line: u32, character: u32) -> Position {
    Position::new(line, character)
}

fn range(a: (u32, u32), b: (u32, u32)) -> Range {
    Range { start: pos(a.0, a.1), end: pos(b.0, b.1) }
}

// ---------------------------------------------------------------------------
// Lexer
// ---------------------------------------------------------------------------

#[test]
fn tokenize_leaves_out_exactly_the_comments() {
    let src = "; head\n(a ; mid\n b) ; tail";
    let all = tokenize_with_comments(src);
    let kinds: Vec<TokenKind> = all.iter().map(|t| t.kind).collect();
    assert_eq!(
        kinds,
        vec![
            TokenKind::Comment,
            TokenKind::LParen,
            TokenKind::Symbol,
            TokenKind::Comment,
            TokenKind::Symbol,
            TokenKind::RParen,
            TokenKind::Comment
        ]
    );
    let kept: Vec<Token> = all.into_iter().filter(|t| t.kind != TokenKind::Comment).collect();
    assert_eq!(tokenize(src), kept);
}

#[test]
fn tokens_cover_every_non_whitespace_byte() {
    let src = "(f  #z\t\"s\" |q|)";
    let toks = tokenize_with_comments(src);
    for (i, b) in src.bytes().enumerate() {
        let covered = toks
            .iter()
            .any(|t| (t.span.start as usize) <= i && i < t.span.end as usize);
        let ws = b == b' ' || b == b'\t' || b == b'\n' || b == b'\r';
        assert_eq!(covered, !ws, "byte {} ({})", i, b);
    }
}

#[test]
fn lexer_error_tokens() {
    let src = "#z {";
    let mut lexer = Lexer::new(src);
    let a = lexer.next_token().unwrap();
    assert_eq!(a.kind, TokenKind::Error);
    assert_eq!(a.span, Span::new(0, 1));
    let b = lexer.next_token().unwrap();
    assert_eq!(b.kind, TokenKind::Symbol);
    assert_eq!(b.span, Span::new(1, 2));
    let c = lexer.next_token().unwrap();
    assert_eq!(c.kind, TokenKind::Error);
    assert_eq!(c.span, Span::new(3, 4));
    assert!(lexer.next_token().is_none());
}

#[test]
fn lexer_unterminated_literals_run_to_the_end() {
    let toks = tokenize("\"abc");
    assert_eq!(toks.len(), 1);
    assert_eq!(toks[0].kind, TokenKind::StringLiteral);
    assert_eq!(toks[0].span, Span::new(0, 4));
    let toks = tokenize("|a\\|b");
    assert_eq!(toks.len(), 1);
    assert_eq!(toks[0].kind, TokenKind::QuotedSymbol);
    assert_eq!(toks[0].span, Span::new(0, 5));
}

#[test]
fn lexer_text_and_source() {
    let src = "(\u{e9})";
    let mut lexer = Lexer::new(src);
    let first = lexer.next_token().unwrap();
    assert_eq!(lexer.text(&first), "(");
    let half = lexer.next_token().unwrap();
    assert_eq!(half.kind, TokenKind::Error);
    assert_eq!(half.span, Span::new(1, 2));
    assert_eq!(lexer.text(&half), "<invalid utf8>");
    let whole = Token { kind: TokenKind::Symbol, span: Span::new(1, 3) };
    assert_eq!(lexer.text(&whole), "\u{e9}");
    let outside = Token { kind: TokenKind::Symbol, span: Span::new(3, 9) };
    assert_eq!(lexer.text(&outside), "");
    assert_eq!(lexer.source(), src);
}

#[test]
fn span_text_slices_the_source() {
    assert_eq!(span_text("hello world", &Span::new(6, 11)), "world");
    assert_eq!(span_text("hello", &Span::new(2, 2)), "");
}

// ---------------------------------------------------------------------------
// Parser
// ---------------------------------------------------------------------------

#[test]
fn parse_reports_missing_lparen() {
    let result = parse(")");
    assert!(result.script.commands.is_empty());
    assert_eq!(result.diagnostics.len(), 1);
    assert_eq!(result.diagnostics[0].message, "expected LParen, found RParen");
    assert_eq!(result.diagnostics[0].span, Span::new(0, 1));
}

#[test]
fn parse_reports_missing_rparen_at_end() {
    let result = parse("(check-sat");
    assert_eq!(result.script.commands.len(), 1);
    assert!(matches!(result.script.commands[0].node, Command::CheckSat));
    assert_eq!(result.script.commands[0].span, Span::new(0, 10));
    assert_eq!(result.diagnostics.len(), 1);
    assert_eq!(result.diagnostics[0].message, "expected RParen, found EOF");
    assert_eq!(result.diagnostics[0].span, Span::new(10, 10));
}

#[test]
fn parse_reports_missing_command_name() {
    let result = parse("(42 (x)) (exit)");
    assert_eq!(result.diagnostics.len(), 1);
    assert_eq!(result.diagnostics[0].message, "expected command name");
    assert_eq!(result.diagnostics[0].span, Span::new(1, 3));
    assert_eq!(result.script.commands.len(), 1);
    assert!(matches!(result.script.commands[0].node, Command::Exit));
}

#[test]
fn parse_reports_missing_term() {
    let result = parse("(assert )");
    assert!(result.script.commands.is_empty());
    assert_eq!(result.diagnostics[0].message, "expected term");
    assert_eq!(result.diagnostics[0].span, Span::new(8, 9));
}

#[test]
fn parse_push_pop_defaults_and_overflow() {
    let result = parse("(push)(pop 3)(push 99999999999999999999)");
    assert!(result.diagnostics.is_empty(), "{:?}", result.diagnostics);
    assert!(matches!(result.script.commands[0].node, Command::Push(1)));
    assert!(matches!(result.script.commands[1].node, Command::Pop(3)));
    assert!(matches!(result.script.commands[2].node, Command::Push(0)));
}

#[test]
fn parse_echo_unescapes_quotes() {
    let result = parse("(echo \"a\"\"b\")");
    match &result.script.commands[0].node {
        Command::Echo(text) => assert_eq!(text, "a\"b"),
        other => panic!("expected Echo, got {:?}", other),
    }
}

#[test]
fn parse_constants() {
    let result = parse("(assert (f 7 3.5 #x1F #b101 \"s\"))");
    assert!(result.diagnostics.is_empty(), "{:?}", result.diagnostics);
    match &result.script.commands[0].node {
        Command::Assert(t) => match &t.node {
            Term::Application(_, args) => {
                assert_eq!(args.len(), 5);
                assert!(matches!(&args[0].node, Term::Constant(Constant::Numeral(7))));
                assert!(matches!(&args[1].node, Term::Constant(Constant::Decimal(d)) if d == "3.5"));
                assert!(
                    matches!(&args[2].node, Term::Constant(Constant::Hexadecimal(h)) if h == "#x1F")
                );
                assert!(matches!(&args[3].node, Term::Constant(Constant::Binary(b)) if b == "#b101"));
                assert!(matches!(&args[4].node, Term::Constant(Constant::String(s)) if s == "s"));
            }
            other => panic!("expected Application, got {:?}", other),
        },
        other => panic!("expected Assert, got {:?}", other),
    }
}

#[test]
fn parse_quoted_symbol_name() {
    let result = parse("(declare-fun |\u{e9} x| () Int)");
    assert!(result.diagnostics.is_empty(), "{:?}", result.diagnostics);
    match &result.script.commands[0].node {
        Command::DeclareFun(name, _, _) => {
            assert_eq!(name.node.name, "\u{e9} x");
            assert!(name.node.quoted);
        }
        other => panic!("expected DeclareFun, got {:?}", other),
    }
}

#[test]
fn parse_command_spans_in_order() {
    let src = "(set-logic ALL) (check-sat)\n(exit)";
    let result = parse(src);
    let spans: Vec<Span> = result.script.commands.iter().map(|c| c.span).collect();
    assert_eq!(spans, vec![Span::new(0, 15), Span::new(16, 27), Span::new(28, 34)]);
}

// ---------------------------------------------------------------------------
// Symbol index
// ---------------------------------------------------------------------------

#[test]
fn definitions_of_a_name_share_it() {
    let result = parse("(declare-fun x () Int)(declare-const x Int)");
    let index = build_index(&result.script);
    let xs = index.definitions.get("x").unwrap();
    assert_eq!(xs.len(), 2);
    assert!(xs.iter().all(|d| d.name == "x"));
    assert_eq!(xs[0].kind, SymbolKind::Function);
    assert_eq!(xs[1].kind, SymbolKind::Constant);
    assert!(index.definitions.get("y").is_none());
    assert!(!index.definitions.is_empty());
    assert!(build_index(&parse("").script).definitions.is_empty());
}

#[test]
fn push_pop_pairs_record_open_depths() {
    let result = parse("(push 2)(push 1)(pop 1)");
    let index = build_index(&result.script);
    let s1 = Span::new(0, 8);
    let s2 = Span::new(8, 16);
    let s3 = Span::new(16, 23);
    assert_eq!(
        index.push_pop_pairs,
        vec![
            PushPopPair { push_span: s2, pop_span: Some(s3), depth: 2 },
            PushPopPair { push_span: s1, pop_span: None, depth: 0 },
            PushPopPair { push_span: s1, pop_span: None, depth: 1 },
        ]
    );
    let depths: Vec<u32> = index.command_spans.iter().map(|c| c.stack_depth).collect();
    assert_eq!(depths, vec![1, 2, 2]);
    assert_eq!(index.command_spans[2].kind, CommandInfoKind::Pop);
}

#[test]
fn pop_without_push_is_ignored() {
    let index = build_index(&parse("(pop 2)(declare-fun a () Int)").script);
    assert!(index.push_pop_pairs.is_empty());
    assert_eq!(index.command_spans[0].stack_depth, 0);
    assert_eq!(index.definitions.get("a").unwrap()[0].stack_depth, 0);
}

#[test]
fn push_zero_at_depth_zero_wraps_its_entry_depth() {
    let index = build_index(&parse("(push 0)").script);
    assert!(index.push_pop_pairs.is_empty());
    assert_eq!(index.command_spans[0].stack_depth, u32::MAX);
}

#[test]
fn definitions_inside_push_block_are_hidden_after_pop_depth() {
    let src = "(push 1)(declare-fun b () Int)(pop 1)(assert b)";
    let index = build_index(&parse(src).script);
    let b_ref = index.references.iter().find(|r| r.name == "b").unwrap();
    assert_eq!(b_ref.stack_depth, 0);
    // The only definition is deeper than the reference: resolution falls back to it.
    let d = index.resolve("b", b_ref.span.start, b_ref.stack_depth).unwrap();
    assert_eq!(d.stack_depth, 1);
    assert!(index.resolve("nothing", 0, 0).is_none());
}

const SCOPED: &str = "(declare-fun x () Int)\n(assert (forall ((x Int)) (= x 0)))\n(assert (= x 1))";

#[test]
fn references_are_scope_aware() {
    let index = build_index(&parse(SCOPED).script);
    // From the global definition: its name, then the use in the last assert.
    assert_eq!(
        index.reference_spans(13, true),
        Some(vec![Span::new(13, 14), Span::new(70, 71)])
    );
    assert_eq!(index.reference_spans(13, false), Some(vec![Span::new(70, 71)]));
    // From the use inside the forall: the bound variable and that use.
    assert_eq!(
        index.reference_spans(52, true),
        Some(vec![Span::new(41, 42), Span::new(52, 53)])
    );
    // Nothing under the cursor.
    assert_eq!(index.reference_spans(0, true), None);
}

#[test]
fn definition_span_follows_scopes_and_push_pop() {
    let index = build_index(&parse(SCOPED).script);
    assert_eq!(index.definition_span(52), Some(Span::new(41, 42)));
    assert_eq!(index.definition_span(70), Some(Span::new(13, 14)));
    assert_eq!(index.definition_span(13), None);
    let r = index.ref_at(70).unwrap();
    assert_eq!(r.name, "x");
    assert_eq!(r.span, Span::new(70, 71));
    assert!(index.ref_at(0).is_none());

    let index = build_index(&parse("(push 1)\n(pop 1)").script);
    assert_eq!(index.definition_span(2), Some(Span::new(9, 16)));
    assert_eq!(index.definition_span(10), Some(Span::new(0, 8)));
}

// ---------------------------------------------------------------------------
// Documents
// ---------------------------------------------------------------------------

const DOC: &str = "(declare-fun x () Int)\n(assert (> x 0))\n";

#[test]
fn document_line_starts() {
    let doc = Document::new(DOC.to_string());
    assert_eq!(doc.line_starts, vec![0, 23, 40]);
    assert!(doc.diagnostics.is_empty());
    assert_eq!(doc.script.commands.len(), 2);
}

#[test]
fn document_offset_position_conversions() {
    let doc = Document::new(DOC.to_string());
    assert_eq!(doc.offset_to_position(13), pos(0, 13));
    assert_eq!(doc.offset_to_position(22), pos(0, 22));
    assert_eq!(doc.offset_to_position(23), pos(1, 0));
    assert_eq!(doc.offset_to_position(34), pos(1, 11));
    assert_eq!(doc.offset_to_position(40), pos(2, 0));
    assert_eq!(doc.offset_to_position(45), pos(2, 5));
    assert_eq!(doc.position_to_offset(pos(1, 11)), 34);
    assert_eq!(doc.position_to_offset(pos(0, 0)), 0);
    assert_eq!(doc.position_to_offset(pos(7, 3)), 40);
    assert_eq!(doc.span_to_range(Span::new(13, 34)), range((0, 13), (1, 11)));
}

#[test]
fn document_conversions_round_trip() {
    let doc = Document::new(DOC.to_string());
    for offset in 0..60u32 {
        assert_eq!(doc.position_to_offset(doc.offset_to_position(offset)), offset);
    }
    for line in 0..2u32 {
        let width = doc.line_starts[line as usize + 1] - doc.line_starts[line as usize];
        for character in 0..width {
            let p = pos(line, character);
            assert_eq!(doc.offset_to_position(doc.position_to_offset(p)), p);
        }
    }
}

#[test]
fn document_definition_and_references() {
    let doc = Document::new(DOC.to_string());
    assert_eq!(doc.definition_at(34), Some(range((0, 13), (0, 14))));
    assert_eq!(doc.definition_at(0), None);
    assert_eq!(
        doc.references_at(34, true),
        Some(vec![range((0, 13), (0, 14)), range((1, 11), (1, 12))])
    );
    assert_eq!(doc.references_at(13, false), Some(vec![range((1, 11), (1, 12))]));
    assert_eq!(doc.references_at(0, true), None);
}

#[test]
fn document_outline() {
    let src = "(set-logic QF_LIA)\n(declare-fun f () Int)\n(assert true)\n(check-sat)\n(exit)";
    let doc = Document::new(src.to_string());
    let outline = doc.outline();
    let entries: Vec<(String, OutlineKind, Range)> =
        outline.into_iter().map(|o| (o.name, o.kind, o.range)).collect();
    assert_eq!(
        entries,
        vec![
            ("set-logic QF_LIA".to_string(), OutlineKind::Key, range((0, 0), (0, 18))),
            ("f".to_string(), OutlineKind::Function, range((1, 0), (1, 22))),
            ("assert".to_string(), OutlineKind::Event, range((2, 0), (2, 13))),
            ("check-sat".to_string(), OutlineKind::Event, range((3, 0), (3, 11))),
        ]
    );
}

#[test]
fn document_folding_ranges() {
    let src = "(push 1)\n(assert\n true)\n(pop 1)";
    let doc = Document::new(src.to_string());
    assert_eq!(
        doc.folding_ranges(),
        vec![range((1, 0), (2, 6)), range((0, 0), (3, 7))]
    );
    let flat = Document::new("(push 1)(pop 1)".to_string());
    assert!(flat.folding_ranges().is_empty());
}

// ---------------------------------------------------------------------------
// Command contents
// ---------------------------------------------------------------------------

#[test]
fn parse_define_funs_rec_pairs_signatures_with_bodies() {
    let src = "(define-funs-rec ((f ((x Int)) Int) (g () Bool)) ((+ x 1) true))";
    let result = parse(src);
    assert!(result.diagnostics.is_empty());
    assert_eq!(result.script.commands.len(), 1);
    match &result.script.commands[0].node {
        Command::DefineFunsRec(defs) => {
            assert_eq!(defs.len(), 2);
            assert_eq!(defs[0].name.node.name, "f");
            assert_eq!(defs[0].params.len(), 1);
            assert_eq!(defs[0].params[0].node.name.node.name, "x");
            assert!(matches!(defs[0].body.node, Term::Application(_, _)));
            assert_eq!(defs[1].name.node.name, "g");
            assert!(defs[1].params.is_empty());
            assert!(matches!(defs[1].body.node, Term::QualifiedIdentifier(_)));
            assert_eq!(&src[defs[1].body.span.start as usize..defs[1].body.span.end as usize], "true");
        }
        other => panic!("unexpected command {:?}", other),
    }
}

#[test]
fn parse_parametric_datatype() {
    let src = "(declare-datatype List (par (T) ((nil) (cons (hd T) (tl (List T))))))";
    let result = parse(src);
    assert!(result.diagnostics.is_empty());
    match &result.script.commands[0].node {
        Command::DeclareDatatype(name, dec) => {
            assert_eq!(name.node.name, "List");
            assert_eq!(dec.node.params.len(), 1);
            assert_eq!(dec.node.params[0].node.name, "T");
            assert_eq!(dec.node.constructors.len(), 2);
            assert_eq!(dec.node.constructors[1].node.name.node.name, "cons");
            assert_eq!(dec.node.constructors[1].node.selectors.len(), 2);
            assert!(matches!(dec.node.constructors[1].node.selectors[1].sort.node, Sort::Parameterized(_, _)));
            assert_eq!(
                &src[dec.span.start as usize..dec.span.end as usize],
                "(par (T) ((nil) (cons (hd T) (tl (List T)))))"
            );
        }
        other => panic!("unexpected command {:?}", other),
    }
}

#[test]
fn parse_lambda_and_term_lists() {
    let src = "(assert (= f (lambda ((x Int)) x)))\n(check-sat-assuming (a b))\n(get-value (x (f 1)))";
    let result = parse(src);
    assert!(result.diagnostics.is_empty());
    assert_eq!(result.script.commands.len(), 3);
    match &result.script.commands[1].node {
        Command::CheckSatAssuming(ts) => assert_eq!(ts.len(), 2),
        other => panic!("unexpected command {:?}", other),
    }
    match &result.script.commands[2].node {
        Command::GetValue(ts) => {
            assert_eq!(ts.len(), 2);
            assert_eq!(&src[ts[1].span.start as usize..ts[1].span.end as usize], "(f 1)");
        }
        other => panic!("unexpected command {:?}", other),
    }
}

#[test]
fn commands_before_an_error_are_kept_exactly() {
    let src = "(set-logic QF_LIA)\n(declare-const x Int)\n(assert (> x 1 )\n(check-sat";
    let result = parse(src);
    assert!(!result.diagnostics.is_empty());
    assert!(result.script.commands.len() >= 2);
    assert!(matches!(result.script.commands[0].node, Command::SetLogic(_)));
    assert!(matches!(result.script.commands[1].node, Command::DeclareConst(_, _)));
    let first = &result.script.commands[0].span;
    assert_eq!(&src[first.start as usize..first.end as usize], "(set-logic QF_LIA)");
    let second = &result.script.commands[1].span;
    assert_eq!(&src[second.start as usize..second.end as usize], "(declare-const x Int)");
}

#[test]
fn recovery_skips_from_the_token_after_a_bad_name() {
    // The token after `(` is read as the name; the skip to the balanced `)`
    // starts after it, so an empty group runs on through the next command.
    let result = parse("() (check-sat)");
    assert_eq!(result.diagnostics.len(), 1);
    assert!(result.script.commands.is_empty());
    // A bad name inside its own group is skipped with that group.
    let result = parse("(1 2) (check-sat)");
    assert_eq!(result.diagnostics.len(), 1);
    assert_eq!(result.script.commands.len(), 1);
    assert!(matches!(result.script.commands[0].node, Command::CheckSat));
}

#[test]
fn groups_without_a_name_are_skipped_one_diagnostic_each() {
    let src = "(check-sat) (\"oops\" (x y)) (:k 1) (exit)";
    let result = parse(src);
    assert_eq!(result.diagnostics.len(), 2);
    assert_eq!(result.diagnostics[0].span, Span::new(13, 19));
    assert_eq!(result.diagnostics[0].message, "expected command name");
    assert_eq!(result.diagnostics[1].span, Span::new(28, 30));
    assert_eq!(result.diagnostics[1].message, "expected command name");
    assert_eq!(result.script.commands.len(), 2);
    assert!(matches!(result.script.commands[0].node, Command::CheckSat));
    assert!(matches!(result.script.commands[1].node, Command::Exit));
    let last = &result.script.commands[1].span;
    assert_eq!(&src[last.start as usize..last.end as usize], "(exit)");
}

#[test]
fn let_binds_in_parallel() {
    let src = "(declare-fun x () Int)\n(assert (let ((x 1) (y x)) (+ x y)))";
    let result = parse(src);
    assert!(result.diagnostics.is_empty());
    let index = build_index(&result.script);
    // The `x` in `(y x)` is the global one: the right-hand sides of a `let`
    // do not see its names.
    let d = index.resolve("x", 46, 0).unwrap();
    assert!(d.scope_end.is_none());
    assert_eq!(d.name_span, Span::new(13, 14));
    // The `x` in the body is the `let`-bound one.
    let body_x = src.rfind("x y").unwrap() as u32;
    let d = index.resolve("x", body_x, 0).unwrap();
    assert_eq!(d.name_span, Span::new(38, 39));
    assert!(d.scope_start.is_some());
}

#[test]
fn parsing_resumes_after_a_command_with_a_missing_argument() {
    let result = parse("(assert )(check-sat)");
    assert_eq!(result.diagnostics.len(), 1);
    assert_eq!(result.diagnostics[0].span, Span::new(8, 9));
    assert_eq!(result.diagnostics[0].message, "expected term");
    assert_eq!(result.script.commands.len(), 1);
    assert!(matches!(result.script.commands[0].node, Command::CheckSat));
    assert_eq!(result.script.commands[0].span, Span::new(9, 20));
}

#[test]
fn running_out_of_input_is_reported() {
    let result = parse("(");
    assert_eq!(result.diagnostics.len(), 1);
    assert_eq!(result.diagnostics[0].message, "unexpected end of input");
    assert_eq!(result.diagnostics[0].span, Span::new(1, 1));
    assert!(result.script.commands.is_empty());
    let result = parse("(assert");
    assert_eq!(result.diagnostics.len(), 1);
    assert_eq!(result.diagnostics[0].message, "unexpected end of input");
    assert_eq!(result.diagnostics[0].span, Span::new(7, 7));
    assert!(result.script.commands.is_empty());
    let result = parse("(assert (> x");
    assert_eq!(result.diagnostics.len(), 1);
    assert_eq!(result.diagnostics[0].span, Span::new(12, 12));
    assert!(result.script.commands.is_empty());
}

#[test]
fn a_command_left_open_at_the_end_is_kept() {
    let src = "(check-sat)(assert (> x 0)";
    let result = parse(src);
    assert_eq!(result.script.commands.len(), 2);
    assert!(matches!(result.script.commands[0].node, Command::CheckSat));
    assert_eq!(result.script.commands[0].span, Span::new(0, 11));
    assert!(matches!(result.script.commands[1].node, Command::Assert(_)));
    assert_eq!(result.script.commands[1].span, Span::new(11, src.len() as u32));
    assert_eq!(result.diagnostics.len(), 1);
    assert_eq!(result.diagnostics[0].message, "expected RParen, found EOF");
    assert_eq!(result.diagnostics[0].span, Span::new(26, 26));
}

#[test]
fn a_script_with_a_stray_token_is_reported() {
    // Every lexically clean input that is not a well-formed script gets a
    // diagnostic.
    for src in ["x", "(check-sat))", "((check-sat)", "(assert (let ((x 1)) x)", "(declare-fun f (Int) )"] {
        let result = parse(src);
        assert!(!result.diagnostics.is_empty(), "{}", src);
    }
}

#[test]
fn a_malformed_command_is_skipped_through_its_closing_paren() {
    // The failure is inside a nested group; parsing still resumes after the
    // whole command.
    let result = parse("(assert (f :k))(check-sat)");
    assert_eq!(result.diagnostics.len(), 1);
    assert_eq!(result.diagnostics[0].message, "expected term");
    assert_eq!(result.diagnostics[0].span, Span::new(11, 13));
    assert_eq!(result.script.commands.len(), 1);
    assert!(matches!(result.script.commands[0].node, Command::CheckSat));
    assert_eq!(result.script.commands[0].span, Span::new(15, 26));
    // Extra arguments: the command is kept, reported once, and parsing
    // resumes after its `)`.
    let result = parse("(check-sat x)(exit)");
    assert_eq!(result.diagnostics.len(), 1);
    assert_eq!(result.diagnostics[0].span, Span::new(11, 12));
    assert_eq!(result.diagnostics[0].message, "expected RParen, found Symbol");
    assert_eq!(result.script.commands.len(), 2);
    assert!(matches!(result.script.commands[0].node, Command::CheckSat));
    assert!(matches!(result.script.commands[1].node, Command::Exit));
    assert_eq!(result.script.commands[1].span, Span::new(13, 19));
}

#[test]
fn entries_carry_the_depth_reached_before_their_command() {
    let src = "(declare-const a Int)(push 2)(declare-fun f (Int) Int)(assert (forall ((y Int)) (= (f y) a)))(pop 1)(declare-const c Int)";
    let index = build_index(&parse(src).script);
    assert_eq!(index.definitions.get("a").unwrap()[0].stack_depth, 0);
    assert_eq!(index.definitions.get("f").unwrap()[0].stack_depth, 2);
    assert_eq!(index.definitions.get("y").unwrap()[0].stack_depth, 2);
    assert_eq!(index.definitions.get("c").unwrap()[0].stack_depth, 1);
    let depths: Vec<(&str, u32)> =
        index.references.iter().map(|r| (r.name.as_str(), r.stack_depth)).collect();
    assert_eq!(
        depths,
        vec![
            ("Int", 0),
            ("Int", 2),
            ("Int", 2),
            ("Int", 2),
            ("=", 2),
            ("f", 2),
            ("y", 2),
            ("a", 2),
            ("Int", 1),
        ]
    );
}

#[test]
fn a_lexing_error_as_an_attribute_value_is_not_reported() {
    // The attribute value fails without a diagnostic; the command is skipped.
    let result = parse("(set-info :source #)(exit)");
    assert!(result.diagnostics.is_empty());
    assert_eq!(result.script.commands.len(), 1);
    assert!(matches!(result.script.commands[0].node, Command::Exit));
}
