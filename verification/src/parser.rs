use vstd::prelude::*;
use vstd::string::StringSliceAdditionalSpecFns;
use vstd::string::StringExecFns;
use crate::ast::{
    Spanned, Script, Command, Constant, Symbol, Identifier, Index, QualifiedIdentifier, Sort, SortedVar,
    VarBinding, MatchPattern, MatchCase, AttributeValue, Attribute, Term, SExpr, ConstructorDec, SelectorDec,
    DatatypeDec, FunDef,
};
use crate::lexer::{
    Token, TokenKind, tokenize, spec_tokenize, lemma_scan_tokens_wf, lemma_scan_no_comments, text_of,
    utf8_str,
};
use crate::span::Span;
use crate::reading::{
    spans_to, then_close, symbol_read, spanned_symbol_read, symbols_read, spanned_symbols_read, keyword_read,
    indices_read, identifier_read, spanned_identifier_read, sort_read, sorts_read, sorted_var_read,
    sorted_vars_read, qualified_rest_read, qualified_read, sexpr_read, sexprs_read, attribute_value_read,
    attribute_read, attributes_read, pattern_read, term_read, compound_read, let_read, binder_term_read,
    match_read, annotated_read, binder_read, terms_read, binding_read, bindings_read, case_read, cases_read,
    fun_def_read, selectors_read, constructor_read, constructors_read, datatype_dec_read, datatype_decs_read,
    sort_decs_read, legacy_entries_read, signature_read, signatures_read, signature_triples_read,
    lemma_signatures_of_triples, bodies_read, command_args_read,
};
use crate::grammar::{
    kind_at, symbol_at, spelled_at, word_at, one_end, symbol_end, index_end, indices_close_end,
    identifier_end, sort_end, sorts_close_end, sorted_var_end, vars_close_end, symbols_close_end,
    qualified_rest_end, qualified_end, sexpr_end, sexprs_close_end, attribute_value_end, attribute_end,
    attributes_close_end, pattern_end, term_end, compound_end, let_rest_end, binder_rest_end, match_rest_end,
    annotated_rest_end, body_close_end, terms_close_end, bindings_close_end, cases_close_end, fun_def_end,
    constructor_end, constructors_close_end, datatype_dec_end, datatype_decs_close_end, sort_decs_close_end,
    legacy_datatypes_close_end, datatypes_args_end, signature_end, signatures_close_end, signatures_stop,
    signatures_count, terms_count_end, funs_rec_args_end, unknown_args_end, optional_numeral_end,
    declare_sort_args_end, define_sort_args_end, declare_fun_args_end, declare_const_args_end,
    declare_datatype_args_end, term_list_end, command_args_end, command_end, commands_from,
    well_formed_script, bad_head_at, recovery_walk, lemma_recovery_step, commands_prefix_end, lemma_commands_from_prefix_end, lemma_commands_prefix_end_bounds, lemma_var_step, lemma_signature_step, binding_end, case_end, lemma_binding_step,
    lemma_case_step,
};

verus! {

/// A parse diagnostic.
#[derive(Debug, Clone)]
pub struct Diagnostic {
    pub span: Span,
    pub message: String,
}

/// Parse result: AST + diagnostics.
#[derive(Debug)]
pub struct ParseResult {
    pub script: Script,
    pub diagnostics: Vec<Diagnostic>,
}

// ---------------------------------------------------------------------------
// What the parser reads off single tokens
// ---------------------------------------------------------------------------

/// Every token lies in a source of `n` bytes and is non-empty.
pub open spec fn tokens_in_bounds(toks: Seq<Token>, n: int) -> bool {
    forall|i: int| 0 <= i < toks.len() ==> (#[trigger] toks[i]).span.start < toks[i].span.end <= n
}

/// Each token ends before the next one starts.
pub open spec fn tokens_ordered(toks: Seq<Token>) -> bool {
    forall|i: int, j: int|
        0 <= i < j < toks.len() ==> (#[trigger] toks[i]).span.end <= (#[trigger] toks[j]).span.start
}

/// Every diagnostic points into a source of `n` bytes.
pub open spec fn diagnostics_in_bounds(ds: Seq<Diagnostic>, n: int) -> bool {
    forall|i: int| 0 <= i < ds.len() ==> (#[trigger] ds[i]).span.start <= ds[i].span.end <= n
}

/// A message the parser reports.
pub open spec fn parser_message(m: Seq<char>) -> bool {
    ||| m == "expected symbol"@
    ||| m == "expected index (numeral or symbol)"@
    ||| m == "expected '_' for indexed identifier"@
    ||| m == "unexpected token in s-expression"@
    ||| m == "expected term"@
    ||| m == "expected command name"@
    ||| m == "unexpected end of input"@
    ||| exists|want: TokenKind, found: TokenKind|
        m == "expected "@ + token_kind_name(want) + ", found "@ + token_kind_name(found)
    ||| exists|want: TokenKind| m == "expected "@ + token_kind_name(want) + ", found EOF"@
}

/// Where a diagnostic can point: at a token of the input, or, empty, at the
/// start of a token, at the start of the source or at its end.
pub open spec fn span_placed(span: Span, toks: Seq<Token>, n: int) -> bool {
    ||| exists|j: int| 0 <= j < toks.len() && span == (#[trigger] toks[j]).span
    ||| span.start == span.end && (span.start == 0 || span.start == n || exists|j: int|
        0 <= j < toks.len() && span.start == (#[trigger] toks[j]).span.start)
}

/// Every diagnostic points where a diagnostic can and says one of the parser's
/// messages.
#[verifier::opaque]
pub open spec fn diagnostics_placed(ds: Seq<Diagnostic>, toks: Seq<Token>, n: int) -> bool {
    forall|i: int|
        0 <= i < ds.len() ==> span_placed((#[trigger] ds[i]).span, toks, n) && parser_message(
            ds[i].message@,
        )
}

/// `after` is `before` with one more diagnostic, at `span`, saying `msg`.
#[verifier::opaque]
pub open spec fn reports_one(after: Seq<Diagnostic>, before: Seq<Diagnostic>, span: Span, msg: Seq<char>) -> bool {
    &&& after.len() == before.len() + 1
    &&& after.drop_last() == before
    &&& after.last().span == span
    &&& after.last().message@ == msg
}

/// What `expect` reports when the next token is not of kind `kind`: the token
/// found, or the end of the source.
pub open spec fn expect_report(next: Option<Token>, kind: TokenKind, n: int) -> (Span, Seq<char>) {
    match next {
        Some(t) => (t.span, "expected "@ + token_kind_name(kind) + ", found "@ + token_kind_name(t.kind)),
        None => (Span { start: n as u32, end: n as u32 }, "expected "@ + token_kind_name(kind) + ", found EOF"@),
    }
}

/// The bytes a token covers.
pub open spec fn token_bytes(src: Seq<u8>, t: Token) -> Seq<u8> {
    src.subrange(t.span.start as int, t.span.end as int)
}

/// The bytes between the delimiters of a quoted symbol or string literal
/// (nothing when the token is a lone delimiter).
pub open spec fn inner_bytes(src: Seq<u8>, t: Token) -> Seq<u8> {
    if t.span.end - t.span.start >= 2 {
        src.subrange(t.span.start + 1, t.span.end - 1)
    } else {
        Seq::empty()
    }
}

/// The name a symbol token stands for: its text, without the `|` delimiters
/// when it is quoted.
pub open spec fn symbol_name(src: Seq<u8>, t: Token) -> Seq<char> {
    if t.kind == TokenKind::QuotedSymbol {
        text_of(inner_bytes(src, t))
    } else {
        text_of(token_bytes(src, t))
    }
}

/// A string literal's body with each `""` turned into `"`, read left to right.
pub open spec fn unescape_quotes(b: Seq<u8>) -> Seq<u8>
    decreases b.len(),
{
    if b.len() == 0 {
        Seq::empty()
    } else if b.len() >= 2 && b[0] == 34 && b[1] == 34 {
        seq![34u8] + unescape_quotes(b.subrange(2, b.len() as int))
    } else {
        seq![b[0]] + unescape_quotes(b.subrange(1, b.len() as int))
    }
}

/// The value of a string literal token.
pub open spec fn string_literal_value(src: Seq<u8>, t: Token) -> Seq<char> {
    text_of(unescape_quotes(inner_bytes(src, t)))
}

pub open spec fn all_digits(b: Seq<u8>) -> bool {
    forall|i: int| 0 <= i < b.len() ==> 48 <= #[trigger] b[i] <= 57
}

/// The number that a sequence of decimal digits denotes.
pub open spec fn digits_value(b: Seq<u8>) -> int
    decreases b.len(),
{
    if b.len() == 0 {
        0
    } else {
        digits_value(b.drop_last()) * 10 + (b.last() - 48)
    }
}

/// What `u64`'s `from_str` gives for the text `b`: an optional `+`, then at
/// least one decimal digit and nothing else, denoting a number that fits.
pub open spec fn u64_from_text(b: Seq<u8>) -> Option<u64> {
    let d = if b.len() > 0 && b[0] == 43 {
        b.subrange(1, b.len() as int)
    } else {
        b
    };
    if d.len() > 0 && all_digits(d) && digits_value(d) <= u64::MAX {
        Some(digits_value(d) as u64)
    } else {
        None
    }
}

/// The value of a numeral token: its number, or 0 when it does not fit.
pub open spec fn numeral_value(src: Seq<u8>, t: Token) -> u64 {
    match u64_from_text(token_bytes(src, t)) {
        Some(v) => v,
        None => 0,
    }
}

/// The constant that a literal token denotes.
pub open spec fn constant_matches(src: Seq<u8>, t: Token, c: Constant) -> bool {
    match t.kind {
        TokenKind::Numeral => c == Constant::Numeral(numeral_value(src, t)),
        TokenKind::Decimal => c matches Constant::Decimal(s) && s@ == text_of(token_bytes(src, t)),
        TokenKind::Hexadecimal => c matches Constant::Hexadecimal(s) && s@ == text_of(
            token_bytes(src, t),
        ),
        TokenKind::Binary => c matches Constant::Binary(s) && s@ == text_of(token_bytes(src, t)),
        TokenKind::StringLiteral => c matches Constant::String(s) && s@ == string_literal_value(
            src,
            t,
        ),
        _ => c matches Constant::String(s) && s@ == text_of(token_bytes(src, t)),
    }
}

pub open spec fn is_literal_kind(k: TokenKind) -> bool {
    k == TokenKind::Numeral || k == TokenKind::Decimal || k == TokenKind::Hexadecimal || k
        == TokenKind::Binary || k == TokenKind::StringLiteral
}

/// The number of tokens after position `i` up to and including the `)` that
/// closes `depth` open parentheses; the end of input when they never close.
pub open spec fn balanced_end(toks: Seq<Token>, i: int, depth: int) -> int
    decreases toks.len() - i,
{
    if i < 0 || i >= toks.len() {
        toks.len() as int
    } else if toks[i].kind == TokenKind::LParen {
        balanced_end(toks, i + 1, depth + 1)
    } else if toks[i].kind == TokenKind::RParen {
        if depth <= 1 {
            i + 1
        } else {
            balanced_end(toks, i + 1, depth - 1)
        }
    } else {
        balanced_end(toks, i + 1, depth)
    }
}

pub open spec fn is_symbol_kind(k: TokenKind) -> bool {
    k == TokenKind::Symbol || k == TokenKind::QuotedSymbol
}

/// `sym` is what the symbol token `t` reads as.
pub open spec fn symbol_matches(src: Seq<u8>, t: Token, sym: Symbol) -> bool {
    &&& sym.name@ == symbol_name(src, t)
    &&& sym.quoted == (t.kind == TokenKind::QuotedSymbol)
}

/// `ix` is what the index token `t` reads as.
pub open spec fn index_matches(src: Seq<u8>, t: Token, ix: Index) -> bool {
    match ix {
        Index::Numeral(v) => t.kind == TokenKind::Numeral && v == numeral_value(src, t),
        Index::Symbol(sym) => is_symbol_kind(t.kind) && symbol_matches(src, t, sym),
    }
}

/// A literal token reads as the constant it denotes.
pub open spec fn literal_term_read(src: Seq<u8>, next: Option<Token>, res: Option<Spanned<Term>>) -> bool {
    match next {
        Some(tok) => is_literal_kind(tok.kind) ==> match res {
            Some(t) => match t.node {
                Term::Constant(c) => constant_matches(src, tok, c),
                _ => false,
            },
            None => false,
        },
        None => true,
    }
}

/// `q` is the simple qualified identifier that the symbol token `t` reads as.
pub open spec fn symbol_identifier_read(src: Seq<u8>, t: Token, q: QualifiedIdentifier) -> bool {
    match q {
        QualifiedIdentifier::Simple(id) => id.span == t.span && match id.node {
            Identifier::Simple(sym) => symbol_matches(src, t, sym),
            _ => false,
        },
        _ => false,
    }
}

/// The kind of term that a `(` followed by the token `head` starts: a special
/// form named by its head symbol, else an application.
pub open spec fn compound_kind(src: Seq<u8>, head: Token, t: Term) -> bool {
    let b = token_bytes(src, head);
    if is_symbol_kind(head.kind) && b == "let".spec_bytes() {
        t is Let
    } else if is_symbol_kind(head.kind) && b == "forall".spec_bytes() {
        t is Forall
    } else if is_symbol_kind(head.kind) && b == "exists".spec_bytes() {
        t is Exists
    } else if is_symbol_kind(head.kind) && b == "lambda".spec_bytes() {
        t is Lambda
    } else if is_symbol_kind(head.kind) && b == "match".spec_bytes() {
        t is Match
    } else if is_symbol_kind(head.kind) && b == "!".spec_bytes() {
        t is Annotated
    } else if is_symbol_kind(head.kind) && (b == "_".spec_bytes() || b == "as".spec_bytes()) {
        t is QualifiedIdentifier
    } else {
        t is Application
    }
}

/// The value of the numeral at token `i`, or `default` when token `i` is not a
/// numeral.
pub open spec fn optional_numeral(src: Seq<u8>, toks: Seq<Token>, i: int, default: u64) -> u64 {
    if 0 <= i < toks.len() && toks[i].kind == TokenKind::Numeral {
        numeral_value(src, toks[i])
    } else {
        default
    }
}

/// Whether the name bytes are one of the commands the parser knows.
pub open spec fn known_command(n: Seq<u8>) -> bool {
    ||| n == "set-logic".spec_bytes()
    ||| n == "set-info".spec_bytes()
    ||| n == "set-option".spec_bytes()
    ||| n == "get-info".spec_bytes()
    ||| n == "get-option".spec_bytes()
    ||| n == "declare-sort".spec_bytes()
    ||| n == "define-sort".spec_bytes()
    ||| n == "declare-fun".spec_bytes()
    ||| n == "declare-const".spec_bytes()
    ||| n == "define-fun".spec_bytes()
    ||| n == "define-fun-rec".spec_bytes()
    ||| n == "define-funs-rec".spec_bytes()
    ||| n == "declare-datatype".spec_bytes()
    ||| n == "declare-datatypes".spec_bytes()
    ||| n == "assert".spec_bytes()
    ||| n == "assert-not".spec_bytes()
    ||| n == "check-sat".spec_bytes()
    ||| n == "check-sat-assuming".spec_bytes()
    ||| n == "push".spec_bytes()
    ||| n == "pop".spec_bytes()
    ||| n == "reset".spec_bytes()
    ||| n == "reset-assertions".spec_bytes()
    ||| n == "get-model".spec_bytes()
    ||| n == "get-value".spec_bytes()
    ||| n == "get-proof".spec_bytes()
    ||| n == "get-unsat-core".spec_bytes()
    ||| n == "get-unsat-assumptions".spec_bytes()
    ||| n == "get-assertions".spec_bytes()
    ||| n == "get-assignment".spec_bytes()
    ||| n == "echo".spec_bytes()
    ||| n == "exit".spec_bytes()
}

/// Token `i` is a symbol token, and `s` is what it reads as, with its span.
pub open spec fn names_symbol(src: Seq<u8>, toks: Seq<Token>, i: int, s: Spanned<Symbol>) -> bool {
    &&& 0 <= i < toks.len()
    &&& symbol_matches(src, toks[i], s.node)
    &&& s.span == toks[i].span
}

/// Token `i` is a keyword token, and `k` is its text, with its span.
pub open spec fn names_keyword(src: Seq<u8>, toks: Seq<Token>, i: int, k: Spanned<String>) -> bool {
    &&& 0 <= i < toks.len()
    &&& toks[i].kind == TokenKind::Keyword
    &&& k.node@ == text_of(token_bytes(src, toks[i]))
    &&& k.span == toks[i].span
}

/// The command `c` is the one that the name token `name` selects, its
/// arguments starting at token `i`.
pub open spec fn command_named(src: Seq<u8>, toks: Seq<Token>, i: int, name: Token, c: Command) -> bool {
    let n = token_bytes(src, name);
    &&& name.kind == TokenKind::Symbol
    &&& match c {
        Command::SetLogic(sym) => n == "set-logic".spec_bytes() && names_symbol(src, toks, i, sym),
        Command::SetInfo(a) => n == "set-info".spec_bytes() && names_keyword(src, toks, i, a.keyword),
        Command::SetOption(a) => n == "set-option".spec_bytes() && names_keyword(
            src,
            toks,
            i,
            a.keyword,
        ),
        Command::GetInfo(kw) => n == "get-info".spec_bytes() && names_keyword(src, toks, i, kw),
        Command::GetOption(kw) => n == "get-option".spec_bytes() && names_keyword(src, toks, i, kw),
        Command::DeclareSort(name, arity) => n == "declare-sort".spec_bytes() && names_symbol(
            src,
            toks,
            i,
            name,
        ) && arity == optional_numeral(src, toks, i + 1, 0),
        Command::DefineSort(name, _, _) => n == "define-sort".spec_bytes() && names_symbol(
            src,
            toks,
            i,
            name,
        ),
        Command::DeclareFun(name, _, _) => n == "declare-fun".spec_bytes() && names_symbol(
            src,
            toks,
            i,
            name,
        ),
        Command::DeclareConst(name, _) => n == "declare-const".spec_bytes() && names_symbol(
            src,
            toks,
            i,
            name,
        ),
        Command::DefineFun(def) => n == "define-fun".spec_bytes() && names_symbol(src, toks, i, def.name),
        Command::DefineFunRec(def) => n == "define-fun-rec".spec_bytes() && names_symbol(
            src,
            toks,
            i,
            def.name,
        ),
        Command::DefineFunsRec(_) => n == "define-funs-rec".spec_bytes(),
        Command::DeclareDatatype(name, _) => n == "declare-datatype".spec_bytes() && names_symbol(
            src,
            toks,
            i,
            name,
        ),
        Command::DeclareDatatypes(..) => n == "declare-datatypes".spec_bytes(),
        Command::Assert(_) => n == "assert".spec_bytes() || n == "assert-not".spec_bytes(),
        Command::CheckSat => n == "check-sat".spec_bytes(),
        Command::CheckSatAssuming(_) => n == "check-sat-assuming".spec_bytes(),
        Command::Push(k) => n == "push".spec_bytes() && k == optional_numeral(src, toks, i, 1),
        Command::Pop(k) => n == "pop".spec_bytes() && k == optional_numeral(src, toks, i, 1),
        Command::Reset => n == "reset".spec_bytes(),
        Command::ResetAssertions => n == "reset-assertions".spec_bytes(),
        Command::GetModel => n == "get-model".spec_bytes(),
        Command::GetValue(_) => n == "get-value".spec_bytes(),
        Command::GetProof => n == "get-proof".spec_bytes(),
        Command::GetUnsatCore => n == "get-unsat-core".spec_bytes(),
        Command::GetUnsatAssumptions => n == "get-unsat-assumptions".spec_bytes(),
        Command::GetAssertions => n == "get-assertions".spec_bytes(),
        Command::GetAssignment => n == "get-assignment".spec_bytes(),
        Command::Echo(text) => n == "echo".spec_bytes() && 0 <= i < toks.len() && text@
            == string_literal_value(src, toks[i]),
        Command::Exit => n == "exit".spec_bytes(),
        Command::Unknown(cname, _) => !known_command(n) && cname@ == text_of(n),
    }
}

/// The token that `expect` gives back: the next one, when it has the kind.
pub open spec fn expected(next: Option<Token>, kind: TokenKind) -> Option<Token> {
    match next {
        Some(t) => if t.kind == kind {
            Some(t)
        } else {
            None
        },
        None => None,
    }
}

/// Some token is not part of the grammar: a lexing error (or a comment).
pub open spec fn has_stray_token(toks: Seq<Token>) -> bool {
    exists|i: int|
        0 <= i < toks.len() && ((#[trigger] toks[i]).kind == TokenKind::Error || toks[i].kind
            == TokenKind::Comment)
}

/// No token is a lexing error.
pub open spec fn lexes_cleanly(toks: Seq<Token>) -> bool {
    forall|i: int| 0 <= i < toks.len() ==> (#[trigger] toks[i]).kind != TokenKind::Error
}

/// The command `c` starts at a `(` token, is the command that the token after
/// it names, and its arguments are what the tokens after the name read as.
pub open spec fn command_from(src: Seq<u8>, toks: Seq<Token>, c: Spanned<Command>) -> bool {
    exists|p: int|
        0 <= p && p + 1 < toks.len() && (#[trigger] toks[p]).kind == TokenKind::LParen
            && toks[p].span.start == c.span.start && command_named(src, toks, p + 2, toks[p + 1], c.node)
            && command_args_read(src, toks, p + 2, c.node) is Some
}

/// The command `c` was read from token `from`, a `(`, through token `to - 1`,
/// a `)`: its span runs over them, it is the command that its name token
/// selects, and its arguments are what the tokens between the name and the `)`
/// read as.
#[verifier::opaque]
pub open spec fn command_read(
    src: Seq<u8>,
    toks: Seq<Token>,
    c: Spanned<Command>,
    from: int,
    to: int,
) -> bool {
    &&& 0 <= from
    &&& from + 2 < to <= toks.len()
    &&& toks[from].kind == TokenKind::LParen
    &&& toks[to - 1].kind == TokenKind::RParen
    &&& c.span == (Span { start: toks[from].span.start, end: toks[to - 1].span.end })
    &&& command_named(src, toks, from + 2, toks[from + 1], c.node)
    &&& command_args_read(src, toks, from + 2, c.node) == Some(to - 1)
}

/// The commands were read one after another, command `i` from token `b[i]`
/// through token `b[i + 1] - 1`.
pub open spec fn commands_read(
    src: Seq<u8>,
    toks: Seq<Token>,
    cmds: Seq<Spanned<Command>>,
    b: Seq<int>,
) -> bool {
    &&& b.len() == cmds.len() + 1
    &&& forall|i: int|
        0 <= i < cmds.len() ==> command_read(src, toks, #[trigger] cmds[i], b[i], b[i + 1])
}

/// Reading one more command, from token `p` through token `q - 1`.
proof fn lemma_commands_read_push(
    src: Seq<u8>,
    toks: Seq<Token>,
    cmds: Seq<Spanned<Command>>,
    b: Seq<int>,
    c: Spanned<Command>,
    q: int,
)
    requires
        commands_read(src, toks, cmds, b),
        command_read(src, toks, c, b[b.len() - 1], q),
    ensures
        commands_read(src, toks, cmds.push(c), b.push(q)),
{
    let nc = cmds.push(c);
    let nb = b.push(q);
    assert forall|i: int| 0 <= i < nc.len() implies command_read(
        src,
        toks,
        #[trigger] nc[i],
        nb[i],
        nb[i + 1],
    ) by {
        if i < cmds.len() {
            assert(nc[i] == cmds[i]);
            assert(nb[i] == b[i] && nb[i + 1] == b[i + 1]);
        }
    }
}

/// The diagnostics `ds` report a missing command name at each of `spans`, in
/// order.
pub open spec fn reports_bad_heads(ds: Seq<Diagnostic>, spans: Seq<Span>) -> bool {
    &&& ds.len() == spans.len()
    &&& forall|i: int|
        0 <= i < ds.len() ==> (#[trigger] ds[i]).span == spans[i] && ds[i].message@
            == "expected command name"@
}

/// The commands `cmds` were read at the first starts of the recovery walk `w`,
/// the diagnostics `added` report its first bad heads, and the walk goes on
/// from token `pos` with the starts and bad heads left.
#[verifier::opaque]
spec fn walk_done(
    src: Seq<u8>,
    toks: Seq<Token>,
    w: (Seq<int>, Seq<Span>),
    cmds: Seq<Spanned<Command>>,
    pos: int,
    added: Seq<Diagnostic>,
) -> bool {
    match recovery_walk(src, toks, pos) {
        Some(rest) => {
            &&& cmds.len() + rest.0.len() == w.0.len()
            &&& rest.0 == w.0.subrange(cmds.len() as int, w.0.len() as int)
            &&& forall|i: int|
                0 <= i < cmds.len() ==> command_read(
                    src,
                    toks,
                    #[trigger] cmds[i],
                    w.0[i],
                    command_end(src, toks, w.0[i])->0,
                )
            &&& added.len() + rest.1.len() == w.1.len()
            &&& rest.1 == w.1.subrange(added.len() as int, w.1.len() as int)
            &&& reports_bad_heads(added, w.1.take(added.len() as int))
        },
        None => false,
    }
}

proof fn lemma_walk_start(src: Seq<u8>, toks: Seq<Token>, w: (Seq<int>, Seq<Span>), p: int)
    requires
        recovery_walk(src, toks, p) == Some(w),
    ensures
        walk_done(src, toks, w, Seq::empty(), p, Seq::empty()),
{
    reveal(walk_done);
    assert(w.0.subrange(0, w.0.len() as int) =~= w.0);
    assert(w.1.subrange(0, w.1.len() as int) =~= w.1);
}

proof fn lemma_walk_command(
    src: Seq<u8>,
    toks: Seq<Token>,
    w: (Seq<int>, Seq<Span>),
    cmds: Seq<Spanned<Command>>,
    p: int,
    c: Spanned<Command>,
    q: int,
    added: Seq<Diagnostic>,
)
    requires
        walk_done(src, toks, w, cmds, p, added),
        0 <= p < toks.len(),
        command_end(src, toks, p) == Some(q),
        command_read(src, toks, c, p, q),
    ensures
        walk_done(src, toks, w, cmds.push(c), q, added),
{
    reveal(walk_done);
    lemma_recovery_step(src, toks, p);
    let rest = recovery_walk(src, toks, p).unwrap();
    let next = recovery_walk(src, toks, q).unwrap();
    let k = cmds.len() as int;
    let ncmds = cmds.push(c);
    assert(rest.0 == seq![p] + next.0);
    assert(rest.0 == w.0.subrange(k, w.0.len() as int));
    assert(w.0[k] == rest.0[0]);
    assert(w.0[k] == p);
    assert(next.0 =~= rest.0.subrange(1, rest.0.len() as int));
    assert(next.0 =~= w.0.subrange(k + 1, w.0.len() as int));
    assert forall|i: int| 0 <= i < ncmds.len() implies command_read(
        src,
        toks,
        #[trigger] ncmds[i],
        w.0[i],
        command_end(src, toks, w.0[i])->0,
    ) by {
        if i < k {
            assert(ncmds[i] == cmds[i]);
        }
    }
}

proof fn lemma_walk_bad_head(
    src: Seq<u8>,
    toks: Seq<Token>,
    w: (Seq<int>, Seq<Span>),
    cmds: Seq<Spanned<Command>>,
    p: int,
    added: Seq<Diagnostic>,
    d: Diagnostic,
)
    requires
        walk_done(src, toks, w, cmds, p, added),
        0 <= p < toks.len(),
        command_end(src, toks, p) is None,
        p + 1 < toks.len() ==> d.span == toks[p + 1].span,
        d.message@ == "expected command name"@,
    ensures
        bad_head_at(toks, p),
        walk_done(src, toks, w, cmds, balanced_end(toks, p + 2, 1), added.push(d)),
{
    reveal(walk_done);
    lemma_recovery_step(src, toks, p);
    let rest = recovery_walk(src, toks, p).unwrap();
    let next = recovery_walk(src, toks, balanced_end(toks, p + 2, 1)).unwrap();
    let k = added.len() as int;
    let nadded = added.push(d);
    assert(rest.1 == seq![toks[p + 1].span] + next.1);
    assert(rest.1 == w.1.subrange(k, w.1.len() as int));
    assert(w.1[k] == rest.1[0]);
    assert(next.1 =~= rest.1.subrange(1, rest.1.len() as int));
    assert(next.1 =~= w.1.subrange(k + 1, w.1.len() as int));
    assert(w.1.take(k + 1) =~= w.1.take(k).push(w.1[k]));
    assert forall|i: int| 0 <= i < nadded.len() implies (#[trigger] nadded[i]).span == w.1.take(k + 1)[i]
        && nadded[i].message@ == "expected command name"@ by {
        if i < k {
            assert(nadded[i] == added[i]);
            assert(w.1.take(k + 1)[i] == w.1.take(k)[i]);
        }
    }
}

proof fn lemma_walk_end(
    src: Seq<u8>,
    toks: Seq<Token>,
    w: (Seq<int>, Seq<Span>),
    cmds: Seq<Spanned<Command>>,
    added: Seq<Diagnostic>,
)
    requires
        walk_done(src, toks, w, cmds, toks.len() as int, added),
    ensures
        cmds.len() == w.0.len(),
        forall|i: int|
            0 <= i < w.0.len() ==> command_read(
                src,
                toks,
                #[trigger] cmds[i],
                w.0[i],
                command_end(src, toks, w.0[i])->0,
            ),
        reports_bad_heads(added, w.1),
{
    reveal(walk_done);
    assert(w.1.take(added.len() as int) =~= w.1);
}

/// The arguments of `define-funs-rec` read from their signature list, closed
/// at `q - 1`, and their body list, closed at `r`.
proof fn lemma_funs_rec_read(src: Seq<u8>, toks: Seq<Token>, p: int, q: int, r: int, defs: Vec<FunDef>)
    requires
        kind_at(toks, p, TokenKind::LParen),
        then_close(toks, signatures_read(src, toks, p + 1, defs@)) == Some(q),
        kind_at(toks, q, TokenKind::LParen),
        bodies_read(src, toks, q + 1, defs@) == Some(r),
        kind_at(toks, r, TokenKind::RParen),
    ensures
        command_args_read(src, toks, p, Command::DefineFunsRec(defs)) == Some(r + 1),
{
    reveal(command_args_read);
}

/// Some command reads the group that starts with the `(` at token `p`: the
/// token after it names the command, and the command's arguments are what the
/// tokens after the name read as, up to a `)`.
pub open spec fn group_readable(src: Seq<u8>, toks: Seq<Token>, p: int) -> bool {
    exists|c: Command, q: int|
        #![trigger command_args_read(src, toks, p + 2, c), kind_at(toks, q, TokenKind::RParen)]
        command_named(src, toks, p + 2, toks[p + 1], c) && command_args_read(src, toks, p + 2, c) == Some(q)
            && kind_at(toks, q, TokenKind::RParen)
}

/// The group at token `p` is a command left open at the end of the input: a
/// `(` that no `)` balances, a symbol naming the command, and arguments that
/// the grammar reads up to the last token.
#[verifier::opaque]
pub open spec fn unclosed_at_end(src: Seq<u8>, toks: Seq<Token>, p: int) -> bool {
    &&& kind_at(toks, p, TokenKind::LParen)
    &&& kind_at(toks, p + 1, TokenKind::Symbol)
    &&& command_args_end(src, toks, toks[p + 1], p + 2) == Some(toks.len() as int)
    &&& balanced_end(toks, p + 2, 1) == toks.len()
}

/// Where parsing resumes after a command that does not read from token `p`:
/// past the `)` that balances the `(` at `p`, or past token `p` when it is no
/// `(`.
pub open spec fn resume_after(toks: Seq<Token>, p: int) -> int {
    if kind_at(toks, p, TokenKind::LParen) {
        balanced_end(toks, p + 2, 1)
    } else {
        p + 1
    }
}

/// The tokens from `p` on, taken step by step the way parsing recovers: a
/// well-formed command is read through its `)`; a `(` group that no command
/// reads is skipped past the `)` that balances it; a token that is no `(` is
/// skipped. Gives where each step starts and whether its command is
/// well-formed; nothing when some group is read by a command that the grammar
/// does not accept.
pub open spec fn resync_walk(src: Seq<u8>, toks: Seq<Token>, p: int) -> Option<Seq<(int, bool)>>
    decreases toks.len() - p,
{
    if p < 0 || p > toks.len() {
        None
    } else if p == toks.len() {
        Some(Seq::empty())
    } else {
        match command_end(src, toks, p) {
            Some(q) => if p < q <= toks.len() {
                match resync_walk(src, toks, q) {
                    Some(w) => Some(seq![(p, true)] + w),
                    None => None,
                }
            } else {
                None
            },
            None => if kind_at(toks, p, TokenKind::LParen) && group_readable(src, toks, p) {
                None
            } else if p < resume_after(toks, p) <= toks.len() {
                match resync_walk(src, toks, resume_after(toks, p)) {
                    Some(w) => Some(seq![(p, false)] + w),
                    None => None,
                }
            } else {
                None
            },
        }
    }
}

/// The commands `cmds` come from the steps `w` at the positions `ks`, in
/// order and at most one per step: each starts at its step's first token, a
/// well-formed step's command is read exactly from its tokens, and every
/// well-formed step gives its command.
pub open spec fn kept_steps(
    src: Seq<u8>,
    toks: Seq<Token>,
    w: Seq<(int, bool)>,
    cmds: Seq<Spanned<Command>>,
    ks: Seq<int>,
) -> bool {
    &&& ks.len() == cmds.len()
    &&& forall|j: int|
        0 <= j < ks.len() ==> 0 <= #[trigger] ks[j] < w.len() && cmds[j].span.start == toks[w[ks[j]].0].span.start
    &&& forall|j1: int, j2: int| 0 <= j1 < j2 < ks.len() ==> #[trigger] ks[j1] < #[trigger] ks[j2]
    &&& forall|j: int|
        0 <= j < ks.len() && w[ks[j]].1 ==> command_read(
            src,
            toks,
            #[trigger] cmds[j],
            w[ks[j]].0,
            command_end(src, toks, w[ks[j]].0)->0,
        )
    &&& forall|i: int| 0 <= i < w.len() && (#[trigger] w[i]).1 ==> exists|j: int| 0 <= j < ks.len() && ks[j] == i
}

/// The commands `cmds` were kept from the first `done` steps of `w`, and the
/// steps from token `pos` on are the rest of `w`.
#[verifier::opaque]
spec fn resync_done(
    src: Seq<u8>,
    toks: Seq<Token>,
    w: Seq<(int, bool)>,
    cmds: Seq<Spanned<Command>>,
    ks: Seq<int>,
    done: int,
    pos: int,
) -> bool {
    &&& 0 <= done <= w.len()
    &&& resync_walk(src, toks, pos) == Some(w.subrange(done, w.len() as int))
    &&& ks.len() == cmds.len()
    &&& forall|j: int|
        0 <= j < ks.len() ==> 0 <= #[trigger] ks[j] < done && cmds[j].span.start == toks[w[ks[j]].0].span.start
    &&& forall|j1: int, j2: int| 0 <= j1 < j2 < ks.len() ==> #[trigger] ks[j1] < #[trigger] ks[j2]
    &&& forall|j: int|
        0 <= j < ks.len() && w[ks[j]].1 ==> command_read(
            src,
            toks,
            #[trigger] cmds[j],
            w[ks[j]].0,
            command_end(src, toks, w[ks[j]].0)->0,
        )
    &&& forall|i: int| 0 <= i < done && (#[trigger] w[i]).1 ==> exists|j: int| 0 <= j < ks.len() && ks[j] == i
}

proof fn lemma_resync_start(src: Seq<u8>, toks: Seq<Token>, w: Seq<(int, bool)>, p: int)
    requires
        resync_walk(src, toks, p) == Some(w),
    ensures
        resync_done(src, toks, w, Seq::empty(), Seq::empty(), 0, p),
{
    reveal(resync_done);
    assert(w.subrange(0, w.len() as int) =~= w);
}

/// One step of the walk from token `p`: its start, its kind, and where the
/// next step starts.
proof fn lemma_resync_step(
    src: Seq<u8>,
    toks: Seq<Token>,
    w: Seq<(int, bool)>,
    cmds: Seq<Spanned<Command>>,
    ks: Seq<int>,
    done: int,
    p: int,
)
    requires
        resync_done(src, toks, w, cmds, ks, done, p),
        0 <= p < toks.len(),
    ensures
        done < w.len(),
        w[done].0 == p,
        w[done].1 <==> command_end(src, toks, p) is Some,
        !w[done].1 ==> !(kind_at(toks, p, TokenKind::LParen) && group_readable(src, toks, p)),
{
    reveal(resync_done);
    let rest = w.subrange(done, w.len() as int);
    assert(rest.len() > 0);
    assert(rest[0] == w[done]);
}

/// Taking the step from token `p` to `next`, with the command `c` kept when
/// there is one.
proof fn lemma_resync_advance(
    src: Seq<u8>,
    toks: Seq<Token>,
    w: Seq<(int, bool)>,
    cmds: Seq<Spanned<Command>>,
    ks: Seq<int>,
    done: int,
    p: int,
    next: int,
    c: Option<Spanned<Command>>,
)
    requires
        resync_done(src, toks, w, cmds, ks, done, p),
        0 <= p < toks.len(),
        next == (match command_end(src, toks, p) {
            Some(q) => q,
            None => resume_after(toks, p),
        }),
        command_end(src, toks, p) is Some ==> c is Some && command_read(
            src,
            toks,
            c->0,
            p,
            command_end(src, toks, p)->0,
        ),
        c matches Some(cmd) ==> cmd.span.start == toks[p].span.start,
    ensures
        resync_done(
            src,
            toks,
            w,
            match c {
                Some(cmd) => cmds.push(cmd),
                None => cmds,
            },
            match c {
                Some(_) => ks.push(done),
                None => ks,
            },
            done + 1,
            next,
        ),
{
    lemma_resync_step(src, toks, w, cmds, ks, done, p);
    reveal(resync_done);
    let rest = w.subrange(done, w.len() as int);
    assert(resync_walk(src, toks, p) == Some(rest));
    assert(resync_walk(src, toks, next) is Some);
    let after = resync_walk(src, toks, next).unwrap();
    assert(rest.len() > 0);
    assert(rest[0] == w[done]);
    assert(rest == seq![w[done]] + after);
    assert(after =~= rest.subrange(1, rest.len() as int));
    assert(after =~= w.subrange(done + 1, w.len() as int));
    match c {
        Some(cmd) => {
            let ncmds = cmds.push(cmd);
            let nks = ks.push(done);
            assert forall|j: int| 0 <= j < nks.len() implies 0 <= #[trigger] nks[j] < done + 1 && ncmds[j].span.start
                == toks[w[nks[j]].0].span.start by {
                if j < ks.len() {
                    assert(nks[j] == ks[j] && ncmds[j] == cmds[j]);
                }
            }
            assert forall|j1: int, j2: int| 0 <= j1 < j2 < nks.len() implies #[trigger] nks[j1] < #[trigger] nks[j2] by {
                if j2 < ks.len() {
                    assert(nks[j1] == ks[j1] && nks[j2] == ks[j2]);
                } else {
                    assert(nks[j1] == ks[j1]);
                }
            }
            assert forall|j: int| 0 <= j < nks.len() && w[nks[j]].1 implies command_read(
                src,
                toks,
                #[trigger] ncmds[j],
                w[nks[j]].0,
                command_end(src, toks, w[nks[j]].0)->0,
            ) by {
                if j < ks.len() {
                    assert(nks[j] == ks[j] && ncmds[j] == cmds[j]);
                }
            }
            assert forall|i: int| 0 <= i < done + 1 && (#[trigger] w[i]).1 implies exists|j: int|
                0 <= j < nks.len() && nks[j] == i by {
                if i < done {
                    let j = choose|j: int| 0 <= j < ks.len() && ks[j] == i;
                    assert(nks[j] == i);
                } else {
                    assert(nks[ks.len() as int] == i);
                }
            }
        },
        None => {
            assert forall|i: int| 0 <= i < done + 1 && (#[trigger] w[i]).1 implies exists|j: int|
                0 <= j < ks.len() && ks[j] == i by {
                if i == done {
                    assert(w[done].1 ==> command_end(src, toks, p) is Some);
                }
            }
        },
    }
}

proof fn lemma_resync_end(
    src: Seq<u8>,
    toks: Seq<Token>,
    w: Seq<(int, bool)>,
    cmds: Seq<Spanned<Command>>,
    ks: Seq<int>,
    done: int,
)
    requires
        resync_done(src, toks, w, cmds, ks, done, toks.len() as int),
    ensures
        kept_steps(src, toks, w, cmds, ks),
{
    reveal(resync_done);
    assert(w.subrange(done, w.len() as int).len() == 0);
}

/// The command `c` is the one left open at token `p`: it spans from that `(`
/// to the end of the source, is the command that the token after it names, and
/// its arguments are what the tokens read as, up to the end.
pub open spec fn open_command_kept(src: Seq<u8>, toks: Seq<Token>, p: int, c: Spanned<Command>) -> bool {
    &&& 0 <= p < toks.len()
    &&& c.span == (Span { start: toks[p].span.start, end: src.len() as u32 })
    &&& command_named(src, toks, p + 2, toks[p + 1], c.node)
    &&& command_args_read(src, toks, p + 2, c.node) == Some(toks.len() as int)
}

/// The commands cover the tokens from first to last, one after another.
pub open spec fn commands_cover(src: Seq<u8>, toks: Seq<Token>, cmds: Seq<Spanned<Command>>) -> bool {
    exists|b: Seq<int>|
        commands_read(src, toks, cmds, b) && b[0] == 0 && b[b.len() - 1] == toks.len()
}

/// What parsing the source `src` into the commands `cmds` and the diagnostics
/// `diags` guarantees: the commands lie in the source in order, each is the
/// command that the token after its `(` names, with the arguments that the
/// tokens after the name read as, and each diagnostic points at a token (or,
/// empty, at a token's start or an end of the source) and says one of the
/// parser's messages;
/// a source without tokens gives neither; the well-formed commands before the
/// first malformed one come first, each read exactly from its tokens; a
/// well-formed script gives no diagnostic, and commands that cover its tokens
/// one after another; an input without lexing errors gives no diagnostic only
/// when it is a well-formed script; an input of well-formed commands and groups
/// whose head is a single token other than a name gives exactly those
/// commands, each read from its tokens, and one diagnostic per such group, at
/// its head, saying that a command name was expected; parsing recovers from a
/// group that no command reads by resuming past the `)` that balances its `(`,
/// so every well-formed command is kept, read exactly, and each malformed group
/// gives at most one command, in order; finally, when the well-formed commands
/// are followed by one left open at the end of the input, that command is kept
/// too, spanning to the end of the source, and the one diagnostic says, at the
/// end of the source, that a `)` was expected.
pub open spec fn parsed_as(src: Seq<u8>, cmds: Seq<Spanned<Command>>, diags: Seq<Diagnostic>) -> bool {
    let toks = spec_tokenize(src);
    &&& script_spans_ordered(cmds, src.len() as int)
    &&& diagnostics_in_bounds(diags, src.len() as int)
    &&& diagnostics_placed(diags, toks, src.len() as int)
    &&& toks.len() == 0 ==> cmds.len() == 0 && diags.len() == 0
    &&& forall|k: int| 0 <= k < cmds.len() ==> command_from(src, toks, #[trigger] cmds[k])
    &&& exists|m: int, b: Seq<int>|
        0 <= m <= cmds.len() && commands_read(src, toks, cmds.take(m), b) && b[0] == 0 && b[m]
            == commands_prefix_end(src, toks, 0)
    &&& diags.len() == 0 && lexes_cleanly(toks) ==> well_formed_script(src)
    &&& well_formed_script(src) ==> diags.len() == 0 && commands_cover(src, toks, cmds)
    &&& recovery_walk(src, toks, 0) matches Some(w) ==> {
        &&& cmds.len() == w.0.len()
        &&& forall|i: int|
            0 <= i < w.0.len() ==> command_read(
                src,
                toks,
                #[trigger] cmds[i],
                w.0[i],
                command_end(src, toks, w.0[i])->0,
            )
        &&& reports_bad_heads(diags, w.1)
    }
    &&& resync_walk(src, toks, 0) matches Some(w) ==> exists|ks: Seq<int>| kept_steps(src, toks, w, cmds, ks)
    &&& unclosed_at_end(src, toks, commands_prefix_end(src, toks, 0)) ==> {
        &&& cmds.len() >= 1
        &&& exists|b: Seq<int>|
            commands_read(src, toks, cmds.drop_last(), b) && b[0] == 0 && b[b.len() - 1] == commands_prefix_end(
                src,
                toks,
                0,
            )
        &&& open_command_kept(src, toks, commands_prefix_end(src, toks, 0), cmds.last())
        &&& reports_one(
            diags,
            Seq::empty(),
            Span { start: src.len() as u32, end: src.len() as u32 },
            "expected RParen, found EOF"@,
        )
    }
}

/// Parse an SMT-LIB source string into a script.
#[verifier::spinoff_prover]
#[verifier::rlimit(40)]
pub fn parse(src: &str) -> (res: ParseResult)
    requires
        src.spec_bytes().len() <= u32::MAX,
    ensures
        parsed_as(src.spec_bytes(), res.script.commands@, res.diagnostics@),
{
    let mut parser = Parser::new(src);
    let ghost start = parser;
    let script = parser.parse_script();
    proof {
        let toks = spec_tokenize(src.spec_bytes());
        lemma_scan_no_comments(src.spec_bytes(), 0);
        if parser.diagnostics@.len() == 0 && lexes_cleanly(toks) {
            assert(!has_stray_token(toks));
            assert(parser.clean_since(start));
        }
        assert(parser.diagnostics@.subrange(0, parser.diagnostics@.len() as int) =~= parser.diagnostics@);
        assert(start.diagnostics@ =~= Seq::<Diagnostic>::empty());
    }
    ParseResult { script, diagnostics: parser.diagnostics }
}

/// The commands of a script lie in the source, are non-empty, and start in
/// source order.
pub open spec fn script_spans_ordered(cmds: Seq<Spanned<Command>>, n: int) -> bool {
    &&& forall|i: int|
        0 <= i < cmds.len() ==> (#[trigger] cmds[i]).span.start < cmds[i].span.end <= n
    &&& forall|i: int, j: int|
        0 <= i < j < cmds.len() ==> (#[trigger] cmds[i]).span.start < (
        #[trigger] cmds[j]).span.start
}

struct Parser<'a> {
    src: &'a [u8],
    /// The source's tokens, comments left out.
    toks: Vec<Token>,
    /// The next token to read.
    pos: usize,
    diagnostics: Vec<Diagnostic>,
}

/// What reading an identifier from `before` to `after` gave: a symbol token
/// reads as a simple identifier; an identifier that starts with `(` is indexed
/// and ends with a `)`.
spec fn identifier_outcome(before: Parser, after: Parser, res: Option<Identifier>) -> bool {
    match before.peek_spec() {
        Some(t) => if t.kind == TokenKind::LParen {
            res matches Some(id) ==> id is Indexed && after.toks@[after.pos - 1].kind
                == TokenKind::RParen
        } else {
            &&& res is Some <==> is_symbol_kind(t.kind)
            &&& res matches Some(id) ==> id matches Identifier::Simple(sym) && symbol_matches(
                before.src@,
                t,
                sym,
            )
            &&& res is Some ==> after.pos == before.pos + 1
        },
        None => res is None,
    }
}

impl<'a> Parser<'a> {
    spec fn wf(self) -> bool {
        &&& self.src@.len() <= u32::MAX
        &&& self.pos <= self.toks@.len() <= self.src@.len()
        &&& tokens_in_bounds(self.toks@, self.src@.len() as int)
        &&& tokens_ordered(self.toks@)
        &&& diagnostics_in_bounds(self.diagnostics@, self.src@.len() as int)
        &&& diagnostics_placed(self.diagnostics@, self.toks@, self.src@.len() as int)
    }

    /// `self` is a well-formed later state of `old`: same source and tokens,
    /// position not moved back.
    spec fn follows(self, old: Self) -> bool {
        &&& self.wf()
        &&& self.src@ == old.src@
        &&& self.toks@ == old.toks@
        &&& old.pos <= self.pos
        &&& old.diagnostics@.len() <= self.diagnostics@.len()
    }

    /// When the grammar reads a form from where `old` stood to `end`, the parse
    /// succeeded, read exactly those tokens and reported nothing; and when the
    /// parse reported nothing on clean tokens, the grammar reads a form there.
    spec fn accepts(self, old: Self, end: Option<int>, ok: bool) -> bool {
        &&& end matches Some(q) ==> ok && self.pos == q && self.diagnostics@ == old.diagnostics@
        &&& self.clean_since(old) ==> end is Some
    }

    /// Since `old`, no diagnostic was reported, and the tokens are all part of
    /// the grammar.
    spec fn clean_since(self, old: Self) -> bool {
        &&& self.diagnostics@.len() == old.diagnostics@.len()
        &&& !has_stray_token(self.toks@)
    }

    spec fn peek_spec(self) -> Option<Token> {
        if self.pos < self.toks@.len() {
            Some(self.toks@[self.pos as int])
        } else {
            None
        }
    }

    /// The span from the start of token `i` to the end of the last token read.
    spec fn span_from(self, i: int) -> Span {
        Span { start: self.toks@[i].span.start, end: self.toks@[self.pos - 1].span.end }
    }

    /// A successful parse that started at token `from`: at least one token was
    /// read, and `span` runs from the first to the last of them.
    spec fn spans_read(self, from: int, span: Span) -> bool {
        &&& from < self.pos
        &&& span == self.span_from(from)
    }

    spec fn bytes_of(self, t: Token) -> Seq<u8> {
        token_bytes(self.src@, t)
    }

    fn new(src: &'a str) -> (res: Self)
        requires
            src.spec_bytes().len() <= u32::MAX,
        ensures
            res.wf(),
            res.src@ == src.spec_bytes(),
            res.toks@ == spec_tokenize(src.spec_bytes()),
            res.pos == 0,
            res.diagnostics@.len() == 0,
    {
        let toks = tokenize(src);
        proof {
            reveal(diagnostics_placed);
            lemma_scan_tokens_wf(src.spec_bytes(), 0, false);
        }
        Self { src: src.as_bytes(), toks, pos: 0, diagnostics: Vec::new() }
    }

    fn error(&mut self, span: Span, msg: String)
        requires
            old(self).wf(),
            span.start <= span.end <= old(self).src@.len(),
            span_placed(span, old(self).toks@, old(self).src@.len() as int),
            parser_message(msg@),
        ensures
            final(self).follows(*old(self)),
            final(self).pos == old(self).pos,
            final(self).diagnostics@ == old(self).diagnostics@.push(
                Diagnostic { span, message: msg },
            ),
    {
        let ghost before = self.diagnostics@;
        self.diagnostics.push(Diagnostic { span, message: msg });
        proof {
            reveal(diagnostics_placed);
            assert forall|i: int| 0 <= i < self.diagnostics@.len() implies span_placed(
                (#[trigger] self.diagnostics@[i]).span,
                self.toks@,
                self.src@.len() as int,
            ) && parser_message(self.diagnostics@[i].message@) by {
                if i < before.len() {
                    assert(self.diagnostics@[i] == before[i]);
                }
            }
        }
    }

    /// The text of a byte range of the source.
    fn text_string(&self, start: u32, end: u32) -> (res: String)
        requires
            start <= end <= self.src@.len(),
        ensures
            res@ == text_of(self.src@.subrange(start as int, end as int)),
    {
        let b = vstd::slice::slice_subrange(self.src, start as usize, end as usize);
        match utf8_str(b) {
            Some(text) => {
                proof { vstd::utf8::encode_utf8_decode_utf8(text@); }
                text.to_owned()
            },
            None => "<invalid utf8>".to_owned(),
        }
    }

    /// The next token without consuming it; at the end of input, reports that
    /// the input ended.
    fn peek_or_report(&mut self) -> (res: Option<Token>)
        requires
            old(self).wf(),
        ensures
            final(self).follows(*old(self)),
            final(self).pos == old(self).pos,
            res == old(self).peek_spec(),
            res is Some ==> final(self).diagnostics@ == old(self).diagnostics@,
            res is None ==> final(self).diagnostics@.len() == old(self).diagnostics@.len() + 1,
    {
        match self.peek() {
            Some(t) => Some(t),
            None => {
                let end = self.src.len() as u32;
                self.error(Span::new(end, end), "unexpected end of input".to_owned());
                None
            },
        }
    }

    /// Consume the next token; at the end of input, reports that the input
    /// ended.
    fn next_or_report(&mut self) -> (res: Option<Token>)
        requires
            old(self).wf(),
        ensures
            final(self).follows(*old(self)),
            res == old(self).peek_spec(),
            final(self).pos == old(self).pos + if res is Some { 1int } else { 0 },
            res is Some ==> final(self).diagnostics@ == old(self).diagnostics@,
            res is None ==> final(self).diagnostics@.len() == old(self).diagnostics@.len() + 1,
    {
        match self.next() {
            Some(t) => Some(t),
            None => {
                let end = self.src.len() as u32;
                self.error(Span::new(end, end), "unexpected end of input".to_owned());
                None
            },
        }
    }

    /// Peek at the next token (returns a copy).
    fn peek(&self) -> (res: Option<Token>)
        requires
            self.wf(),
        ensures
            res == self.peek_spec(),
    {
        if self.pos < self.toks.len() {
            Some(self.toks[self.pos])
        } else {
            None
        }
    }

    /// Consume and return the next token.
    fn next(&mut self) -> (res: Option<Token>)
        requires
            old(self).wf(),
        ensures
            final(self).follows(*old(self)),
            final(self).diagnostics@ == old(self).diagnostics@,
            res == old(self).peek_spec(),
            final(self).pos == old(self).pos + if res is Some { 1int } else { 0 },
    {
        if self.pos < self.toks.len() {
            let t = self.toks[self.pos];
            self.pos = self.pos + 1;
            Some(t)
        } else {
            None
        }
    }

    fn peek_is(&self, kind: TokenKind) -> (res: bool)
        requires
            self.wf(),
        ensures
            res == (self.peek_spec() matches Some(t) && t.kind == kind),
    {
        match self.peek() {
            Some(t) => t.kind == kind,
            None => false,
        }
    }

    /// Whether the bytes of token `t` spell `lit`.
    fn token_is(&self, t: Token, lit: &str) -> (res: bool)
        requires
            self.wf(),
            t.span.start < t.span.end <= self.src@.len(),
        ensures
            res == (self.bytes_of(t) == lit.spec_bytes()),
    {
        let b = lit.as_bytes();
        let start = t.span.start as usize;
        let end = t.span.end as usize;
        if end - start != b.len() {
            return false;
        }
        let mut i: usize = 0;
        while i < b.len()
            invariant
                0 <= i <= b@.len(),
                b@ == lit.spec_bytes(),
                start == t.span.start,
                end == t.span.end,
                start + b@.len() == end <= self.src@.len(),
                forall|k: int| 0 <= k < i ==> self.src@[start + k] == b@[k],
            decreases b@.len() - i,
        {
            if self.src[start + i] != b[i] {
                proof {
                    assert(self.bytes_of(t)[i as int] != b@[i as int]);
                }
                return false;
            }
            i = i + 1;
        }
        proof {
            assert(self.bytes_of(t) =~= b@);
        }
        true
    }

    fn peek_is_symbol(&self, name: &str) -> (res: bool)
        requires
            self.wf(),
        ensures
            res == (self.peek_spec() matches Some(t) && t.kind == TokenKind::Symbol
                && self.bytes_of(t) == name.spec_bytes()),
    {
        match self.peek() {
            Some(t) => t.kind == TokenKind::Symbol && self.token_is(t, name),
            None => false,
        }
    }

    /// Expect a specific token kind; return it or emit an error.
    fn expect(&mut self, kind: TokenKind) -> (res: Option<Token>)
        requires
            old(self).wf(),
        ensures
            final(self).follows(*old(self)),
            res == expected(old(self).peek_spec(), kind),
            final(self).pos == old(self).pos + if old(self).peek_spec() is Some {
                1int
            } else {
                0
            },
            res is Some ==> final(self).diagnostics@ == old(self).diagnostics@,
            res is None ==> final(self).diagnostics@.len() == old(self).diagnostics@.len() + 1,
            res is None ==> ({
                let (span, msg) = expect_report(old(self).peek_spec(), kind, old(self).src@.len() as int);
                reports_one(final(self).diagnostics@, old(self).diagnostics@, span, msg)
            }),
    {
        match self.next() {
            Some(tok) => {
                if tok.kind == kind {
                    Some(tok)
                } else {
                    let ghost before = self.diagnostics@;
                    let mut msg = "expected ".to_owned();
                    msg.append(kind_name(kind));
                    msg.append(", found ");
                    msg.append(kind_name(tok.kind));
                    self.error(tok.span, msg);
                    proof {
                        reveal(reports_one);
                        assert(self.diagnostics@.drop_last() =~= before);
                    }
                    None
                }
            },
            None => {
                let end = self.src.len() as u32;
                let ghost before = self.diagnostics@;
                let mut msg = "expected ".to_owned();
                msg.append(kind_name(kind));
                msg.append(", found EOF");
                self.error(Span::new(end, end), msg);
                proof {
                    reveal(reports_one);
                    assert(self.diagnostics@.drop_last() =~= before);
                }
                None
            },
        }
    }

    /// Expect an LParen.
    fn expect_lparen(&mut self) -> (res: Option<Token>)
        requires
            old(self).wf(),
        ensures
            final(self).follows(*old(self)),
            res == expected(old(self).peek_spec(), TokenKind::LParen),
            final(self).pos == old(self).pos + if old(self).peek_spec() is Some {
                1int
            } else {
                0
            },
            res is Some ==> final(self).diagnostics@ == old(self).diagnostics@,
            res is None ==> final(self).diagnostics@.len() == old(self).diagnostics@.len() + 1,
    {
        self.expect(TokenKind::LParen)
    }

    /// Expect an RParen.
    fn expect_rparen(&mut self) -> (res: Option<Token>)
        requires
            old(self).wf(),
        ensures
            final(self).follows(*old(self)),
            res == expected(old(self).peek_spec(), TokenKind::RParen),
            final(self).pos == old(self).pos + if old(self).peek_spec() is Some {
                1int
            } else {
                0
            },
            res is Some ==> final(self).diagnostics@ == old(self).diagnostics@,
            res is None ==> final(self).diagnostics@.len() == old(self).diagnostics@.len() + 1,
            res is None ==> ({
                let (span, msg) = expect_report(old(self).peek_spec(), TokenKind::RParen, old(self).src@.len() as int);
                reports_one(final(self).diagnostics@, old(self).diagnostics@, span, msg)
            }),
    {
        self.expect(TokenKind::RParen)
    }

    /// Skip tokens until we find a balanced RParen at the current depth (depth starts at 1).
    fn skip_to_balanced_rparen(&mut self)
        requires
            old(self).wf(),
        ensures
            final(self).follows(*old(self)),
            final(self).diagnostics@ == old(self).diagnostics@,
            final(self).pos == balanced_end(old(self).toks@, old(self).pos as int, 1),
    {
        let mut depth: u64 = 1;
        let ghost d0 = self.diagnostics@;
        loop
            invariant
                self.follows(*old(self)),
                self.diagnostics@ == d0,
                d0 == old(self).diagnostics@,
                1 <= depth <= 1 + self.pos,
                balanced_end(self.toks@, self.pos as int, depth as int) == balanced_end(
                    self.toks@,
                    old(self).pos as int,
                    1,
                ),
            ensures
                self.follows(*old(self)),
                self.diagnostics@ == old(self).diagnostics@,
                self.pos == balanced_end(old(self).toks@, old(self).pos as int, 1),
            decreases self.toks@.len() - self.pos,
        {
            let tok = match self.next() {
                Some(tok) => tok,
                None => break,
            };
            if tok.kind == TokenKind::LParen {
                depth = depth + 1;
            } else if tok.kind == TokenKind::RParen {
                if depth <= 1 {
                    return;
                }
                depth = depth - 1;
            }
        }
    }

    // -----------------------------------------------------------------------
    // Identifiers, literals
    // -----------------------------------------------------------------------

    fn parse_symbol(&mut self) -> (res: Option<Symbol>)
        requires
            old(self).wf(),
        ensures
            res matches Some(sym) ==> symbol_read(
                old(self).src@,
                old(self).toks@,
                old(self).pos as int,
                sym,
            ) == Some(final(self).pos as int),
            final(self).accepts(*old(self), symbol_end(old(self).toks@, old(self).pos as int), res is Some),
            final(self).follows(*old(self)),
            final(self).pos == old(self).pos + if old(self).peek_spec() is Some {
                1int
            } else {
                0
            },
            res is Some <==> (old(self).peek_spec() matches Some(t) && is_symbol_kind(t.kind)),
            res matches Some(sym) ==> symbol_matches(
                old(self).src@,
                old(self).peek_spec().unwrap(),
                sym,
            ),
    {
        let tok = self.next_or_report()?;
        let start = tok.span.start;
        let end = tok.span.end;
        if tok.kind == TokenKind::Symbol {
            Some(Symbol { name: self.text_string(start, end), quoted: false })
        } else if tok.kind == TokenKind::QuotedSymbol {
            // Strip the | delimiters
            let name = if end - start >= 2 {
                self.text_string(start + 1, end - 1)
            } else {
                proof {
                    assert(self.src@.subrange(start as int, start as int) =~= Seq::<u8>::empty());
                }
                self.text_string(start, start)
            };
            Some(Symbol { name, quoted: true })
        } else {
            self.error(tok.span, "expected symbol".to_owned());
            None
        }
    }

    fn parse_spanned_symbol(&mut self) -> (res: Option<Spanned<Symbol>>)
        requires
            old(self).wf(),
        ensures
            res matches Some(sym) ==> spanned_symbol_read(
                old(self).src@,
                old(self).toks@,
                old(self).pos as int,
                sym,
            ) == Some(final(self).pos as int),
            final(self).accepts(*old(self), symbol_end(old(self).toks@, old(self).pos as int), res is Some),
            final(self).follows(*old(self)),
            res is Some <==> (old(self).peek_spec() matches Some(t) && is_symbol_kind(t.kind)),
            res is Some ==> final(self).pos == old(self).pos + 1,
            res matches Some(sym) ==> final(self).spans_read(old(self).pos as int, sym.span)
                && symbol_matches(old(self).src@, old(self).peek_spec().unwrap(), sym.node),
    {
        let tok = self.peek_or_report()?;
        let span = tok.span;
        let sym = self.parse_symbol()?;
        Some(Spanned::new(sym, span))
    }

    fn parse_keyword(&mut self) -> (res: Option<Spanned<String>>)
        requires
            old(self).wf(),
        ensures
            res matches Some(kw) ==> keyword_read(
                old(self).src@,
                old(self).toks@,
                old(self).pos as int,
                kw,
            ) == Some(final(self).pos as int),
            final(self).accepts(
                *old(self),
                one_end(old(self).toks@, old(self).pos as int, TokenKind::Keyword),
                res is Some,
            ),
            final(self).follows(*old(self)),
            res is Some <==> (old(self).peek_spec() matches Some(t) && t.kind
                == TokenKind::Keyword),
            res is Some ==> final(self).pos == old(self).pos + 1,
            res matches Some(kw) ==> final(self).spans_read(old(self).pos as int, kw.span)
                && kw.node@ == text_of(token_bytes(old(self).src@, old(self).peek_spec().unwrap())),
    {
        let tok = self.expect(TokenKind::Keyword)?;
        let text = self.text_string(tok.span.start, tok.span.end);
        Some(Spanned::new(text, tok.span))
    }

    fn parse_numeral_value(&mut self) -> (res: Option<u64>)
        requires
            old(self).wf(),
        ensures
            final(self).accepts(
                *old(self),
                one_end(old(self).toks@, old(self).pos as int, TokenKind::Numeral),
                res is Some,
            ),
            final(self).follows(*old(self)),
            res is Some <==> (old(self).peek_spec() matches Some(t) && t.kind
                == TokenKind::Numeral),
            res is Some ==> final(self).pos == old(self).pos + 1,
            res matches Some(v) ==> v == numeral_value(
                old(self).src@,
                old(self).peek_spec().unwrap(),
            ),
    {
        let tok = self.expect(TokenKind::Numeral)?;
        Some(self.numeral_of(tok))
    }

    fn numeral_of(&self, tok: Token) -> (res: u64)
        requires
            self.wf(),
            tok.span.start < tok.span.end <= self.src@.len(),
        ensures
            res == numeral_value(self.src@, tok),
    {
        let b = vstd::slice::slice_subrange(
            self.src,
            tok.span.start as usize,
            tok.span.end as usize,
        );
        match u64_from_bytes(b) {
            Some(v) => v,
            None => 0,
        }
    }

    /// The value of a string literal: the text between the quotes, with each
    /// `""` unescaped.
    fn string_value(&self, tok: &Token) -> (res: String)
        requires
            self.wf(),
            tok.span.start < tok.span.end <= self.src@.len(),
        ensures
            res@ == string_literal_value(self.src@, *tok),
    {
        let (a, b) = if tok.span.end - tok.span.start >= 2 {
            (tok.span.start as usize + 1, tok.span.end as usize - 1)
        } else {
            (tok.span.start as usize, tok.span.start as usize)
        };
        let inner = vstd::slice::slice_subrange(self.src, a, b);
        proof {
            assert(inner@ =~= inner_bytes(self.src@, *tok));
        }
        let mut out: Vec<u8> = Vec::new();
        let mut i: usize = 0;
        let n = inner.len();
        proof {
            assert(inner@.subrange(0, n as int) =~= inner@);
            assert(out@ + unescape_quotes(inner@) =~= unescape_quotes(inner@));
        }
        while i < n
            invariant
                n == inner@.len(),
                i <= n,
                out@ + unescape_quotes(inner@.subrange(i as int, n as int)) == unescape_quotes(
                    inner@,
                ),
            decreases n - i,
        {
            let ghost rest = inner@.subrange(i as int, n as int);
            if i + 1 < n && inner[i] == 34 && inner[i + 1] == 34 {
                proof {
                    assert(rest.subrange(2, rest.len() as int) =~= inner@.subrange(
                        i + 2,
                        n as int,
                    ));
                    assert(out@.push(34u8) + unescape_quotes(inner@.subrange(i + 2, n as int))
                        =~= out@ + unescape_quotes(rest));
                }
                out.push(34u8);
                i = i + 2;
            } else {
                proof {
                    assert(rest.subrange(1, rest.len() as int) =~= inner@.subrange(
                        i + 1,
                        n as int,
                    ));
                    assert(out@.push(inner@[i as int]) + unescape_quotes(
                        inner@.subrange(i + 1, n as int),
                    ) =~= out@ + unescape_quotes(rest));
                }
                out.push(inner[i]);
                i = i + 1;
            }
        }
        proof {
            assert(inner@.subrange(n as int, n as int) =~= Seq::<u8>::empty());
            assert(out@ + Seq::<u8>::empty() =~= out@);
        }
        match utf8_str(out.as_slice()) {
            Some(text) => {
                proof { vstd::utf8::encode_utf8_decode_utf8(text@); }
                text.to_owned()
            },
            None => "<invalid utf8>".to_owned(),
        }
    }

    fn parse_constant(&self, tok: &Token) -> (res: Constant)
        requires
            self.wf(),
            tok.span.start < tok.span.end <= self.src@.len(),
        ensures
            constant_matches(self.src@, *tok, res),
    {
        match tok.kind {
            TokenKind::Numeral => Constant::Numeral(self.numeral_of(*tok)),
            TokenKind::Decimal => Constant::Decimal(
                self.text_string(tok.span.start, tok.span.end),
            ),
            TokenKind::Hexadecimal => Constant::Hexadecimal(
                self.text_string(tok.span.start, tok.span.end),
            ),
            TokenKind::Binary => Constant::Binary(self.text_string(tok.span.start, tok.span.end)),
            TokenKind::StringLiteral => Constant::String(self.string_value(tok)),
            _ => Constant::String(self.text_string(tok.span.start, tok.span.end)),
        }
    }

    fn parse_index(&mut self) -> (res: Option<Index>)
        requires
            old(self).wf(),
        ensures
            final(self).accepts(*old(self), index_end(old(self).toks@, old(self).pos as int), res is Some),
            final(self).follows(*old(self)),
            final(self).pos == old(self).pos + if old(self).peek_spec() is Some {
                1int
            } else {
                0
            },
            res is Some <==> (old(self).peek_spec() matches Some(t) && (is_symbol_kind(t.kind)
                || t.kind == TokenKind::Numeral)),
            res matches Some(ix) ==> index_matches(
                old(self).src@,
                old(self).peek_spec().unwrap(),
                ix,
            ),
    {
        let tok = self.next_or_report()?;
        if tok.kind == TokenKind::Numeral {
            Some(Index::Numeral(self.numeral_of(tok)))
        } else if tok.kind == TokenKind::Symbol || tok.kind == TokenKind::QuotedSymbol {
            let start = tok.span.start;
            let end = tok.span.end;
            let name = if tok.kind == TokenKind::QuotedSymbol {
                let name = if end - start >= 2 {
                    self.text_string(start + 1, end - 1)
                } else {
                    proof {
                        assert(self.src@.subrange(start as int, start as int)
                            =~= Seq::<u8>::empty());
                    }
                    self.text_string(start, start)
                };
                Symbol { name, quoted: true }
            } else {
                Symbol { name: self.text_string(start, end), quoted: false }
            };
            Some(Index::Symbol(name))
        } else {
            self.error(tok.span, "expected index (numeral or symbol)".to_owned());
            None
        }
    }

    fn parse_identifier(&mut self) -> (res: Option<Identifier>)
        requires
            old(self).wf(),
        ensures
            res matches Some(id) ==> identifier_read(
                old(self).src@,
                old(self).toks@,
                old(self).pos as int,
                id,
            ) == Some(final(self).pos as int),
            final(self).accepts(
                *old(self),
                identifier_end(old(self).src@, old(self).toks@, old(self).pos as int),
                res is Some,
            ),
            final(self).follows(*old(self)),
            res is Some ==> old(self).pos < final(self).pos,
            identifier_outcome(*old(self), *final(self), res),
    {
        let ghost goal = identifier_end(self.src@, self.toks@, self.pos as int);
        let tok = self.peek_or_report()?;
        if tok.kind == TokenKind::LParen {
            // Could be indexed: (_ sym idx+)
            self.next();  // consume (
            if self.peek_is_symbol("_") {
                self.next();  // consume _
                let sym = self.parse_symbol()?;
                let ghost p3 = self.pos as int;
                let mut indices: Vec<Index> = Vec::new();
                while !self.peek_is(TokenKind::RParen)
                    invariant
                        kind_at(self.toks@, old(self).pos as int, TokenKind::LParen),
                        word_at(self.src@, self.toks@, old(self).pos + 1, "_"),
                        symbol_read(self.src@, self.toks@, old(self).pos + 2, sym) == Some(p3),
                        indices_read(self.src@, self.toks@, p3, indices@) == Some(self.pos as int),
                        goal == identifier_end(old(self).src@, old(self).toks@, old(self).pos as int),
                        goal is Some ==> indices_close_end(
                            self.toks@,
                            self.pos as int,
                        ) == goal && self.diagnostics@ == old(self).diagnostics@,
                        self.clean_since(*old(self)) ==> indices_close_end(self.toks@, self.pos as int) == goal,
                        self.follows(*old(self)),
                        old(self).pos < self.pos,
                        old(self).peek_spec() matches Some(t) && t.kind == TokenKind::LParen,
                    decreases self.toks@.len() - self.pos,
                {
                    let ghost before = indices@;
                    indices.push(self.parse_index()?);
                    proof {
                        assert(indices@.drop_last() =~= before);
                    }
                }
                self.expect_rparen()?;
                Some(Identifier::Indexed(sym, indices))
            } else {
                // Not an identifier — this is an error in the identifier position
                let err_start = match self.peek() {
                    Some(t) => t.span.start,
                    None => 0,
                };
                self.error(
                    Span::new(err_start, err_start),
                    "expected '_' for indexed identifier".to_owned(),
                );
                self.skip_to_balanced_rparen();
                None
            }
        } else {
            let sym = self.parse_symbol()?;
            Some(Identifier::Simple(sym))
        }
    }

    fn parse_spanned_identifier(&mut self) -> (res: Option<Spanned<Identifier>>)
        requires
            old(self).wf(),
        ensures
            res matches Some(id) ==> spanned_identifier_read(
                old(self).src@,
                old(self).toks@,
                old(self).pos as int,
                id,
            ) == Some(final(self).pos as int),
            final(self).accepts(
                *old(self),
                identifier_end(old(self).src@, old(self).toks@, old(self).pos as int),
                res is Some,
            ),
            final(self).follows(*old(self)),
            res matches Some(id) ==> final(self).spans_read(old(self).pos as int, id.span),
            identifier_outcome(*old(self),
                *final(self),
                match res {
                    Some(id) => Some(id.node),
                    None => None,
                },
            ),
    {
        let tok = self.peek_or_report()?;
        let start = tok.span.start;
        if tok.kind == TokenKind::LParen {
            let ident = self.parse_identifier()?;
            // For indexed identifiers the closing ) was consumed by parse_identifier:
            // the span runs to its end.
            let end = self.toks[self.pos - 1].span.end;
            Some(Spanned::new(ident, Span::new(start, end)))
        } else {
            // Simple identifier — span is just the symbol token
            let end = tok.span.end;
            let ident = self.parse_identifier()?;
            Some(Spanned::new(ident, Span::new(start, end)))
        }
    }

    // -----------------------------------------------------------------------
    // Sorts
    // -----------------------------------------------------------------------

    #[verifier::spinoff_prover]
    #[verifier::rlimit(40)]
    fn parse_sort(&mut self) -> (res: Option<Spanned<Sort>>)
        requires
            old(self).wf(),
        ensures
            res matches Some(sort) ==> sort_read(
                old(self).src@,
                old(self).toks@,
                old(self).pos as int,
                sort,
            ) == Some(final(self).pos as int),
            final(self).accepts(
                *old(self),
                sort_end(old(self).src@, old(self).toks@, old(self).pos as int),
                res is Some,
            ),
            final(self).follows(*old(self)),
            res matches Some(sort) ==> final(self).spans_read(old(self).pos as int, sort.span),
        decreases old(self).toks@.len() - old(self).pos,
    {
        let ghost goal = sort_end(self.src@, self.toks@, self.pos as int);
        let tok = self.peek_or_report()?;
        if tok.kind == TokenKind::LParen {
            let lparen = self.next().unwrap();
            let start = lparen.span.start;

            // Check for indexed sort: (_ id idx+)
            if self.peek_is_symbol("_") {
                self.next();  // consume _
                let sym = self.parse_symbol()?;
                let ghost p3 = self.pos as int;
                let mut indices: Vec<Index> = Vec::new();
                while !self.peek_is(TokenKind::RParen)
                    invariant
                        kind_at(self.toks@, old(self).pos as int, TokenKind::LParen),
                        start == self.toks@[old(self).pos as int].span.start,
                        word_at(self.src@, self.toks@, old(self).pos + 1, "_"),
                        symbol_read(self.src@, self.toks@, old(self).pos + 2, sym) == Some(p3),
                        indices_read(self.src@, self.toks@, p3, indices@) == Some(self.pos as int),
                        goal == sort_end(old(self).src@, old(self).toks@, old(self).pos as int),
                        goal is Some ==> indices_close_end(
                            self.toks@,
                            self.pos as int,
                        ) == goal && self.diagnostics@ == old(self).diagnostics@,
                        self.clean_since(*old(self)) ==> indices_close_end(self.toks@, self.pos as int) == goal,
                        self.follows(*old(self)),
                        old(self).pos < self.pos,
                    decreases self.toks@.len() - self.pos,
                {
                    let ghost before = indices@;
                    indices.push(self.parse_index()?);
                    proof {
                        assert(indices@.drop_last() =~= before);
                    }
                }
                let rparen = self.expect_rparen()?;
                let ident = Identifier::Indexed(sym, indices);
                return Some(Spanned::new(Sort::Simple(ident), Span::new(start, rparen.span.end)));
            }
            // Parameterized sort: (id sort+)

            let ident = self.parse_identifier()?;
            let ghost q1 = self.pos as int;
            let mut params: Vec<Spanned<Sort>> = Vec::new();
            while !self.peek_is(TokenKind::RParen)
                invariant
                    kind_at(self.toks@, old(self).pos as int, TokenKind::LParen),
                    start == self.toks@[old(self).pos as int].span.start,
                    !word_at(self.src@, self.toks@, old(self).pos + 1, "_"),
                    identifier_read(self.src@, self.toks@, old(self).pos + 1, ident) == Some(q1),
                    sorts_read(self.src@, self.toks@, q1, params@) == Some(self.pos as int),
                    goal == sort_end(old(self).src@, old(self).toks@, old(self).pos as int),
                    goal is Some ==> sorts_close_end(
                        self.src@,
                        self.toks@,
                        self.pos as int,
                    ) == goal && self.diagnostics@ == old(self).diagnostics@,
                    self.clean_since(*old(self)) ==> sorts_close_end(self.src@, self.toks@, self.pos as int) == goal,
                    self.follows(*old(self)),
                    old(self).pos < self.pos,
                decreases self.toks@.len() - self.pos,
            {
                let ghost before = params@;
                params.push(self.parse_sort()?);
                proof {
                    assert(params@.drop_last() =~= before);
                }
            }
            let rparen = self.expect_rparen()?;
            Some(Spanned::new(Sort::Parameterized(ident, params), Span::new(start, rparen.span.end)))
        } else {
            let ident = self.parse_spanned_identifier()?;
            Some(Spanned::new(Sort::Simple(ident.node), ident.span))
        }
    }

    fn parse_sorted_var(&mut self) -> (res: Option<Spanned<SortedVar>>)
        requires
            old(self).wf(),
        ensures
            res matches Some(v) ==> sorted_var_read(
                old(self).src@,
                old(self).toks@,
                old(self).pos as int,
                v,
            ) == Some(final(self).pos as int),
            final(self).accepts(
                *old(self),
                sorted_var_end(old(self).src@, old(self).toks@, old(self).pos as int),
                res is Some,
            ),
            final(self).follows(*old(self)),
            res matches Some(v) ==> final(self).spans_read(old(self).pos as int, v.span),
    {
        let lparen = self.expect_lparen()?;
        let name = self.parse_spanned_symbol()?;
        let sort = self.parse_sort()?;
        let rparen = self.expect_rparen()?;
        Some(Spanned::new(SortedVar { name, sort }, Span::new(lparen.span.start, rparen.span.end)))
    }

    /// Parse a qualified identifier in non-compound context.
    fn parse_spanned_qualified_identifier(&mut self) -> (res: Option<
        Spanned<QualifiedIdentifier>,
    >)
        requires
            old(self).wf(),
        ensures
            res matches Some(q) ==> qualified_read(
                old(self).src@,
                old(self).toks@,
                old(self).pos as int,
                q,
            ) == Some(final(self).pos as int),
            final(self).accepts(
                *old(self),
                qualified_end(old(self).src@, old(self).toks@, old(self).pos as int),
                res is Some,
            ),
            final(self).follows(*old(self)),
            res matches Some(q) ==> final(self).spans_read(old(self).pos as int, q.span),
            old(self).peek_spec() matches Some(t) && is_symbol_kind(t.kind) ==> match res {
                Some(q) => q.span == old(self).toks@[old(self).pos as int].span
                    && symbol_identifier_read(old(self).src@, old(self).toks@[old(self).pos as int], q.node),
                None => false,
            },
    {
        let tok = self.peek_or_report()?;
        if tok.kind == TokenKind::LParen {
            // Might be (as id sort) or (_ sym idx+)
            let lparen = self.next().unwrap();
            self.parse_spanned_qualified_identifier_inner(lparen.span.start)
        } else {
            let ident = self.parse_spanned_identifier()?;
            let span = ident.span;
            Some(Spanned::new(QualifiedIdentifier::Simple(ident), span))
        }
    }

    /// Parse inside a `(` that was already consumed. Handles `as` and `_`.
    fn parse_spanned_qualified_identifier_inner(&mut self, start: u32) -> (res: Option<
        Spanned<QualifiedIdentifier>,
    >)
        requires
            old(self).wf(),
            1 <= old(self).pos,
            start == old(self).toks@[old(self).pos - 1].span.start,
        ensures
            res matches Some(q) ==> qualified_rest_read(
                old(self).src@,
                old(self).toks@,
                old(self).pos - 1,
                q,
            ) == Some(final(self).pos as int),
            final(self).accepts(
                *old(self),
                qualified_rest_end(old(self).src@, old(self).toks@, old(self).pos as int),
                res is Some,
            ),
            final(self).follows(*old(self)),
            res matches Some(q) ==> final(self).spans_read(old(self).pos - 1, q.span),
    {
        let ghost goal = qualified_rest_end(self.src@, self.toks@, self.pos as int);
        let tok = self.peek_or_report()?;
        let is_symbol = tok.kind == TokenKind::Symbol;
        if is_symbol && self.token_is(tok, "as") {
            self.next();  // consume 'as'
            let ident = self.parse_spanned_identifier()?;
            let sort = self.parse_sort()?;
            let rparen = self.expect_rparen()?;
            Some(Spanned::new(QualifiedIdentifier::As(ident, sort), Span::new(start, rparen.span.end)))
        } else if is_symbol && self.token_is(tok, "_") {
            self.next();  // consume '_'
            let sym = self.parse_symbol()?;
            let ghost p3 = self.pos as int;
            let mut indices: Vec<Index> = Vec::new();
            while !self.peek_is(TokenKind::RParen)
                invariant
                    1 <= old(self).pos,
                    start == self.toks@[old(self).pos - 1].span.start,
                    word_at(self.src@, self.toks@, old(self).pos as int, "_"),
                    symbol_read(self.src@, self.toks@, old(self).pos + 1, sym) == Some(p3),
                    indices_read(self.src@, self.toks@, p3, indices@) == Some(self.pos as int),
                    goal == qualified_rest_end(old(self).src@, old(self).toks@, old(self).pos as int),
                    goal is Some ==> indices_close_end(
                        self.toks@,
                        self.pos as int,
                    ) == goal && self.diagnostics@ == old(self).diagnostics@,
                    self.clean_since(*old(self)) ==> indices_close_end(self.toks@, self.pos as int) == goal,
                    self.follows(*old(self)),
                    old(self).pos < self.pos,
                decreases self.toks@.len() - self.pos,
            {
                let ghost before = indices@;
                indices.push(self.parse_index()?);
                proof {
                    assert(indices@.drop_last() =~= before);
                }
            }
            let rparen = self.expect_rparen()?;
            let ident = Identifier::Indexed(sym, indices);
            let ident_span = Span::new(start, rparen.span.end);
            Some(Spanned::new(QualifiedIdentifier::Simple(Spanned::new(ident, ident_span)), ident_span))
        } else {
            // It's a function application or other compound — return simple ident
            let ident = self.parse_spanned_identifier()?;
            let span = Span::new(start, ident.span.end);
            Some(Spanned::new(QualifiedIdentifier::Simple(ident), span))
        }
    }

    // -----------------------------------------------------------------------
    // S-expressions and attributes
    // -----------------------------------------------------------------------

    #[verifier::spinoff_prover]
    #[verifier::rlimit(40)]
    fn parse_sexpr(&mut self) -> (res: Option<Spanned<SExpr>>)
        requires
            old(self).wf(),
        ensures
            res matches Some(e) ==> sexpr_read(
                old(self).src@,
                old(self).toks@,
                old(self).pos as int,
                e,
            ) == Some(final(self).pos as int),
            final(self).accepts(*old(self), sexpr_end(old(self).toks@, old(self).pos as int), res is Some),
            final(self).follows(*old(self)),
            res matches Some(e) ==> final(self).spans_read(old(self).pos as int, e.span),
        decreases old(self).toks@.len() - old(self).pos,
    {
        let ghost goal = sexpr_end(self.toks@, self.pos as int);
        let tok = self.peek_or_report()?;
        if is_literal(tok.kind) {
            let tok = self.next().unwrap();
            let c = self.parse_constant(&tok);
            Some(Spanned::new(SExpr::Constant(c), tok.span))
        } else if tok.kind == TokenKind::Symbol || tok.kind == TokenKind::QuotedSymbol {
            let sym = self.parse_spanned_symbol()?;
            let span = sym.span;
            Some(Spanned::new(SExpr::Symbol(sym.node), span))
        } else if tok.kind == TokenKind::Keyword {
            let kw = self.parse_keyword()?;
            let span = kw.span;
            Some(Spanned::new(SExpr::Keyword(kw.node), span))
        } else if tok.kind == TokenKind::LParen {
            let lparen = self.next().unwrap();
            let mut items: Vec<Spanned<SExpr>> = Vec::new();
            while self.peek().is_some() && !self.peek_is(TokenKind::RParen)
                invariant
                    kind_at(self.toks@, old(self).pos as int, TokenKind::LParen),
                    lparen == self.toks@[old(self).pos as int],
                    sexprs_read(self.src@, self.toks@, old(self).pos + 1, items@) == Some(self.pos as int),
                    goal == sexpr_end(old(self).toks@, old(self).pos as int),
                    goal is Some ==> sexprs_close_end(
                        self.toks@,
                        self.pos as int,
                    ) == goal && self.diagnostics@ == old(self).diagnostics@,
                    self.clean_since(*old(self)) ==> sexprs_close_end(self.toks@, self.pos as int) == goal,
                    self.follows(*old(self)),
                    old(self).pos < self.pos,
                decreases self.toks@.len() - self.pos,
            {
                let ghost before = items@;
                items.push(self.parse_sexpr()?);
                proof {
                    assert(items@.drop_last() =~= before);
                }
            }
            let rparen = self.expect_rparen()?;
            Some(Spanned::new(SExpr::List(items), Span::new(lparen.span.start, rparen.span.end)))
        } else {
            let tok = self.next().unwrap();
            self.error(tok.span, "unexpected token in s-expression".to_owned());
            None
        }
    }

    fn parse_attribute(&mut self) -> (res: Option<Attribute>)
        requires
            old(self).wf(),
        ensures
            res matches Some(a) ==> attribute_read(
                old(self).src@,
                old(self).toks@,
                old(self).pos as int,
                a,
            ) == Some(final(self).pos as int),
            final(self).accepts(
                *old(self),
                attribute_end(old(self).toks@, old(self).pos as int),
                res is Some,
            ),
            final(self).follows(*old(self)),
            res matches Some(a) ==> names_keyword(
                old(self).src@,
                old(self).toks@,
                old(self).pos as int,
                a.keyword,
            ) && old(self).pos < final(self).pos,
    {
        let keyword = self.parse_keyword()?;

        // Check if the next token could be an attribute value
        let value = match self.peek() {
            Some(tok) => {
                if tok.kind != TokenKind::Keyword && tok.kind != TokenKind::RParen {
                    Some(self.parse_attribute_value()?)
                } else {
                    None
                }
            },
            None => None,
        };
        Some(Attribute { keyword, value })
    }

    #[verifier::spinoff_prover]
    #[verifier::rlimit(40)]
    fn parse_attribute_value(&mut self) -> (res: Option<Spanned<AttributeValue>>)
        requires
            old(self).wf(),
            old(self).peek_spec() matches Some(t) ==> t.kind != TokenKind::Keyword && t.kind
                != TokenKind::RParen,
        ensures
            res matches Some(v) ==> attribute_value_read(
                old(self).src@,
                old(self).toks@,
                old(self).pos as int,
                v,
            ) == Some(final(self).pos as int),
            final(self).accepts(
                *old(self),
                attribute_value_end(old(self).toks@, old(self).pos as int),
                res is Some,
            ),
            final(self).follows(*old(self)),
            res matches Some(v) ==> final(self).spans_read(old(self).pos as int, v.span),
    {
        let ghost goal = attribute_value_end(self.toks@, self.pos as int);
        let tok = self.peek_or_report()?;
        if is_literal(tok.kind) {
            let tok = self.next().unwrap();
            let text = self.text_string(tok.span.start, tok.span.end);
            Some(Spanned::new(AttributeValue::Constant(text), tok.span))
        } else if tok.kind == TokenKind::Symbol || tok.kind == TokenKind::QuotedSymbol {
            let sym = self.parse_spanned_symbol()?;
            let span = sym.span;
            Some(Spanned::new(AttributeValue::Symbol(sym.node), span))
        } else if tok.kind == TokenKind::LParen {
            let lparen = self.next().unwrap();
            let mut items: Vec<Spanned<SExpr>> = Vec::new();
            while self.peek().is_some() && !self.peek_is(TokenKind::RParen)
                invariant
                    kind_at(self.toks@, old(self).pos as int, TokenKind::LParen),
                    lparen == self.toks@[old(self).pos as int],
                    sexprs_read(self.src@, self.toks@, old(self).pos + 1, items@) == Some(self.pos as int),
                    goal == attribute_value_end(old(self).toks@, old(self).pos as int),
                    goal is Some ==> sexprs_close_end(
                        self.toks@,
                        self.pos as int,
                    ) == goal && self.diagnostics@ == old(self).diagnostics@,
                    self.clean_since(*old(self)) ==> sexprs_close_end(self.toks@, self.pos as int) == goal,
                    self.follows(*old(self)),
                    old(self).pos < self.pos,
                decreases self.toks@.len() - self.pos,
            {
                let ghost before = items@;
                items.push(self.parse_sexpr()?);
                proof {
                    assert(items@.drop_last() =~= before);
                }
            }
            let rparen = self.expect_rparen()?;
            Some(
                Spanned::new(
                    AttributeValue::SExpr(items),
                    Span::new(lparen.span.start, rparen.span.end),
                ),
            )
        } else {
            proof {
                assert(self.toks@[self.pos as int].kind == TokenKind::Error || self.toks@[
                    self.pos as int].kind == TokenKind::Comment);
            }
            None
        }
    }

    // -----------------------------------------------------------------------
    // Terms
    // -----------------------------------------------------------------------

    #[verifier::spinoff_prover]
    #[verifier::rlimit(40)]
    fn parse_term(&mut self) -> (res: Option<Spanned<Term>>)
        requires
            old(self).wf(),
        ensures
            res matches Some(t) ==> term_read(
                old(self).src@,
                old(self).toks@,
                old(self).pos as int,
                t,
            ) == Some(final(self).pos as int),
            final(self).accepts(
                *old(self),
                term_end(old(self).src@, old(self).toks@, old(self).pos as int),
                res is Some,
            ),
            final(self).follows(*old(self)),
            res matches Some(t) ==> final(self).spans_read(old(self).pos as int, t.span),
            literal_term_read(old(self).src@, old(self).peek_spec(), res),
            old(self).peek_spec() matches Some(h) && is_symbol_kind(h.kind) ==> match res {
                Some(t) => match t.node {
                    Term::QualifiedIdentifier(q) => symbol_identifier_read(
                        old(self).src@,
                        old(self).toks@[old(self).pos as int],
                        q,
                    ),
                    _ => false,
                },
                None => false,
            },
            old(self).peek_spec() matches Some(h) && h.kind == TokenKind::LParen ==> (res matches Some(
                t,
            ) ==> old(self).pos + 1 < old(self).toks@.len() && compound_kind(
                old(self).src@,
                old(self).toks@[old(self).pos + 1],
                t.node,
            )),
        decreases old(self).toks@.len() - old(self).pos, 2nat,
    {
        let tok = self.peek_or_report()?;
        if is_literal(tok.kind) {
            let tok = self.next().unwrap();
            let c = self.parse_constant(&tok);
            Some(Spanned::new(Term::Constant(c), tok.span))
        } else if tok.kind == TokenKind::Symbol || tok.kind == TokenKind::QuotedSymbol {
            let ident = self.parse_spanned_qualified_identifier()?;
            Some(Spanned::new(Term::QualifiedIdentifier(ident.node), ident.span))
        } else if tok.kind == TokenKind::LParen {
            let lparen = self.next().unwrap();
            self.parse_compound_term(lparen.span.start)
        } else {
            self.error(tok.span, "expected term".to_owned());
            None
        }
    }

    /// Parse a term after its opening `(`.
    #[verifier::spinoff_prover]
    #[verifier::rlimit(40)]
    fn parse_compound_term(&mut self, start: u32) -> (res: Option<Spanned<Term>>)
        requires
            old(self).wf(),
            1 <= old(self).pos,
            start == old(self).toks@[old(self).pos - 1].span.start,
        ensures
            res matches Some(t) ==> compound_read(
                old(self).src@,
                old(self).toks@,
                old(self).pos - 1,
                t,
            ) == Some(final(self).pos as int),
            final(self).accepts(
                *old(self),
                compound_end(old(self).src@, old(self).toks@, old(self).pos as int),
                res is Some,
            ),
            final(self).follows(*old(self)),
            res matches Some(t) ==> final(self).spans_read(old(self).pos - 1, t.span)
                && old(self).pos < old(self).toks@.len() && compound_kind(
                old(self).src@,
                old(self).toks@[old(self).pos as int],
                t.node,
            ),
        decreases old(self).toks@.len() - old(self).pos, 1nat,
    {
        let ghost goal = compound_end(self.src@, self.toks@, self.pos as int);
        let tok = self.peek_or_report()?;

        // Special forms
        if tok.kind == TokenKind::Symbol || tok.kind == TokenKind::QuotedSymbol {
            if self.token_is(tok, "let") {
                return self.parse_let(start);
            } else if self.token_is(tok, "forall") {
                return self.parse_quantifier(start, true);
            } else if self.token_is(tok, "exists") {
                return self.parse_quantifier(start, false);
            } else if self.token_is(tok, "lambda") {
                return self.parse_lambda(start);
            } else if self.token_is(tok, "match") {
                return self.parse_match(start);
            } else if self.token_is(tok, "!") {
                return self.parse_annotated(start);
            } else if self.token_is(tok, "_") || self.token_is(tok, "as") {
                // Indexed identifier (_ sym idx+) or qualified identifier (as ident sort)
                let ident = self.parse_spanned_qualified_identifier_inner(start)?;
                return Some(Spanned::new(Term::QualifiedIdentifier(ident.node), ident.span));
            }
        }
        // Function application: (f args...)

        let func = self.parse_spanned_qualified_identifier()?;
        let ghost q0 = self.pos as int;
        let mut args: Vec<Spanned<Term>> = Vec::new();
        while self.peek().is_some() && !self.peek_is(TokenKind::RParen)
            invariant
                start == self.toks@[old(self).pos - 1].span.start,
                qualified_read(self.src@, self.toks@, old(self).pos as int, func) == Some(q0),
                terms_read(self.src@, self.toks@, q0, args@) == Some(self.pos as int),
                goal == compound_end(old(self).src@, old(self).toks@, old(self).pos as int),
                goal is Some ==> terms_close_end(
                    self.src@,
                    self.toks@,
                    self.pos as int,
                ) == goal && self.diagnostics@ == old(self).diagnostics@,
                self.clean_since(*old(self)) ==> terms_close_end(self.src@, self.toks@, self.pos as int) == goal,
                self.follows(*old(self)),
                old(self).pos < self.pos,
            decreases self.toks@.len() - self.pos,
        {
            let ghost before = args@;
            args.push(self.parse_term()?);
            proof {
                assert(args@.drop_last() =~= before);
            }
        }
        let rparen = self.expect_rparen()?;
        Some(Spanned::new(Term::Application(func, args), Span::new(start, rparen.span.end)))
    }

    /// One let binding: `(name term)`.
    #[verifier::spinoff_prover]
    #[verifier::rlimit(60)]
    fn parse_binding(&mut self) -> (res: Option<Spanned<VarBinding>>)
        requires
            old(self).wf(),
        ensures
            final(self).accepts(
                *old(self),
                binding_end(old(self).src@, old(self).toks@, old(self).pos as int),
                res is Some,
            ),
            final(self).follows(*old(self)),
            res is Some ==> old(self).pos < final(self).pos,
            res matches Some(b) ==> binding_read(
                old(self).src@,
                old(self).toks@,
                old(self).pos as int,
                b,
            ) == Some(final(self).pos as int),
        decreases old(self).toks@.len() - old(self).pos, 3nat,
    {
        let lp = self.expect_lparen()?;
        let name = self.parse_spanned_symbol()?;
        let value = self.parse_term()?;
        let rp = self.expect_rparen()?;
        Some(Spanned::new(VarBinding { name, value }, Span::new(lp.span.start, rp.span.end)))
    }

    #[verifier::spinoff_prover]
    #[verifier::rlimit(100)]
    fn parse_let(&mut self, start: u32) -> (res: Option<Spanned<Term>>)
        requires
            old(self).wf(),
            1 <= old(self).pos < old(self).toks@.len(),
            start == old(self).toks@[old(self).pos - 1].span.start,
        ensures
            res matches Some(t) ==> let_read(
                old(self).src@,
                old(self).toks@,
                old(self).pos - 1,
                t,
            ) == Some(final(self).pos as int),
            final(self).accepts(
                *old(self),
                let_rest_end(old(self).src@, old(self).toks@, old(self).pos as int + 1),
                res is Some,
            ),
            final(self).follows(*old(self)),
            res matches Some(t) ==> final(self).spans_read(old(self).pos - 1, t.span) && t.node is Let,
        decreases old(self).toks@.len() - old(self).pos, 0nat,
    {
        let ghost goal = let_rest_end(self.src@, self.toks@, self.pos as int + 1);
        self.next();  // consume 'let'
        self.expect_lparen()?;
        let ghost mid = bindings_close_end(self.src@, self.toks@, self.pos as int);
        let mut bindings: Vec<Spanned<VarBinding>> = Vec::new();
        while !self.peek_is(TokenKind::RParen)
            invariant
                start == self.toks@[old(self).pos - 1].span.start,
                kind_at(self.toks@, old(self).pos + 1, TokenKind::LParen),
                bindings_read(self.src@, self.toks@, old(self).pos + 2, bindings@) == Some(self.pos as int),
                self.follows(*old(self)),
                old(self).pos < self.pos,
                goal == let_rest_end(old(self).src@, old(self).toks@, old(self).pos as int + 1),
                mid == bindings_close_end(old(self).src@, old(self).toks@, old(self).pos as int + 2),
                goal == let_rest_end(old(self).src@, old(self).toks@, old(self).pos as int + 1),
                goal is Some ==> mid is Some && old(self).pos + 1 < mid->0 <= self.toks@.len()
                    && body_close_end(self.src@, self.toks@, mid->0) == goal
                    && bindings_close_end(self.src@, self.toks@, self.pos as int) == mid
                    && self.diagnostics@ == old(self).diagnostics@,
                self.clean_since(*old(self)) ==> bindings_close_end(self.src@, self.toks@, self.pos as int) == mid,
            decreases self.toks@.len() - self.pos,
        {
            proof {
                if goal is Some {
                    lemma_binding_step(self.src@, self.toks@, self.pos as int);
                }
            }
            let ghost before = bindings@;
            let ghost p0 = self.pos as int;
            bindings.push(self.parse_binding()?);
            proof {
                assert(bindings@.drop_last() =~= before);
                if self.clean_since(*old(self)) {
                    assert(bindings_close_end(self.src@, self.toks@, p0) == bindings_close_end(
                        self.src@,
                        self.toks@,
                        self.pos as int,
                    ));
                }
            }
        }
        self.expect_rparen()?;
        let body = self.parse_term()?;
        let rparen = self.expect_rparen()?;
        Some(Spanned::new(Term::Let(bindings, Box::new(body)), Span::new(start, rparen.span.end)))
    }

    /// The rest of a quantifier or lambda after its head: `(sorted-var*) term )`;
    /// gives the variables, the body and the closing `)`.
    #[verifier::spinoff_prover]
    #[verifier::rlimit(60)]
    fn parse_binder_rest(&mut self) -> (res: Option<(Vec<Spanned<SortedVar>>, Spanned<Term>, Token)>)
        requires
            old(self).wf(),
        ensures
            final(self).accepts(
                *old(self),
                binder_rest_end(old(self).src@, old(self).toks@, old(self).pos as int),
                res is Some,
            ),
            final(self).follows(*old(self)),
            res matches Some(r) ==> {
                &&& binder_read(
                    old(self).src@,
                    old(self).toks@,
                    old(self).pos as int,
                    r.0@,
                    r.1,
                ) == Some(final(self).pos as int)
                &&& old(self).pos < final(self).pos
                &&& r.2 == final(self).toks@[final(self).pos - 1]
            },
        decreases old(self).toks@.len() - old(self).pos, 0nat,
    {
        self.expect_lparen()?;
        let vars = self.parse_sorted_var_list()?;
        self.expect_rparen()?;
        let body = self.parse_term()?;
        let rparen = self.expect_rparen()?;
        Some((vars, body, rparen))
    }

    #[verifier::spinoff_prover]
    #[verifier::rlimit(100)]
    fn parse_quantifier(&mut self, start: u32, is_forall: bool) -> (res: Option<Spanned<Term>>)
        requires
            old(self).wf(),
            1 <= old(self).pos < old(self).toks@.len(),
            start == old(self).toks@[old(self).pos - 1].span.start,
            is_forall ==> spelled_at(old(self).src@, old(self).toks@, old(self).pos as int, "forall"),
            !is_forall ==> spelled_at(old(self).src@, old(self).toks@, old(self).pos as int, "exists"),
        ensures
            res matches Some(t) ==> binder_term_read(
                old(self).src@,
                old(self).toks@,
                old(self).pos - 1,
                t,
            ) == Some(final(self).pos as int),
            final(self).accepts(
                *old(self),
                binder_rest_end(old(self).src@, old(self).toks@, old(self).pos as int + 1),
                res is Some,
            ),
            final(self).follows(*old(self)),
            res matches Some(t) ==> final(self).spans_read(old(self).pos - 1, t.span) && (if is_forall {
                t.node is Forall
            } else {
                t.node is Exists
            }),
        decreases old(self).toks@.len() - old(self).pos, 0nat,
    {
        self.next();  // consume 'forall'/'exists'
        proof {
            assert(self.pos == old(self).pos + 1);
        }
        let (vars, body, rparen) = self.parse_binder_rest()?;
        let term = if is_forall {
            Term::Forall(vars, Box::new(body))
        } else {
            Term::Exists(vars, Box::new(body))
        };
        Some(Spanned::new(term, Span::new(start, rparen.span.end)))
    }

    #[verifier::spinoff_prover]
    #[verifier::rlimit(100)]
    fn parse_lambda(&mut self, start: u32) -> (res: Option<Spanned<Term>>)
        requires
            old(self).wf(),
            1 <= old(self).pos < old(self).toks@.len(),
            start == old(self).toks@[old(self).pos - 1].span.start,
            spelled_at(old(self).src@, old(self).toks@, old(self).pos as int, "lambda"),
        ensures
            res matches Some(t) ==> binder_term_read(
                old(self).src@,
                old(self).toks@,
                old(self).pos - 1,
                t,
            ) == Some(final(self).pos as int),
            final(self).accepts(
                *old(self),
                binder_rest_end(old(self).src@, old(self).toks@, old(self).pos as int + 1),
                res is Some,
            ),
            final(self).follows(*old(self)),
            res matches Some(t) ==> final(self).spans_read(old(self).pos - 1, t.span) && t.node is Lambda,
        decreases old(self).toks@.len() - old(self).pos, 0nat,
    {
        self.next();  // consume 'lambda'
        proof {
            assert(self.pos == old(self).pos + 1);
        }
        let (vars, body, rparen) = self.parse_binder_rest()?;
        Some(Spanned::new(Term::Lambda(vars, Box::new(body)), Span::new(start, rparen.span.end)))
    }

    /// One match case: `(pattern term)`.
    #[verifier::spinoff_prover]
    #[verifier::rlimit(60)]
    fn parse_match_case(&mut self) -> (res: Option<Spanned<MatchCase>>)
        requires
            old(self).wf(),
        ensures
            final(self).accepts(
                *old(self),
                case_end(old(self).src@, old(self).toks@, old(self).pos as int),
                res is Some,
            ),
            final(self).follows(*old(self)),
            res is Some ==> old(self).pos < final(self).pos,
            res matches Some(c) ==> case_read(
                old(self).src@,
                old(self).toks@,
                old(self).pos as int,
                c,
            ) == Some(final(self).pos as int),
            final(self).clean_since(*old(self)) ==> (pattern_end(old(self).toks@, old(self).pos + 1) matches Some(q)
                && old(self).pos < q <= final(self).pos),
        decreases old(self).toks@.len() - old(self).pos, 3nat,
    {
        let lp = self.expect_lparen()?;
        let pattern = self.parse_match_pattern()?;
        let body = self.parse_term()?;
        let rp = self.expect_rparen()?;
        Some(Spanned::new(MatchCase { pattern, body }, Span::new(lp.span.start, rp.span.end)))
    }

    #[verifier::spinoff_prover]
    #[verifier::rlimit(100)]
    fn parse_match(&mut self, start: u32) -> (res: Option<Spanned<Term>>)
        requires
            old(self).wf(),
            1 <= old(self).pos < old(self).toks@.len(),
            start == old(self).toks@[old(self).pos - 1].span.start,
        ensures
            res matches Some(t) ==> match_read(
                old(self).src@,
                old(self).toks@,
                old(self).pos - 1,
                t,
            ) == Some(final(self).pos as int),
            final(self).accepts(
                *old(self),
                match_rest_end(old(self).src@, old(self).toks@, old(self).pos as int + 1),
                res is Some,
            ),
            final(self).follows(*old(self)),
            res matches Some(t) ==> final(self).spans_read(old(self).pos - 1, t.span) && t.node is Match,
        decreases old(self).toks@.len() - old(self).pos, 0nat,
    {
        let ghost goal = match_rest_end(self.src@, self.toks@, self.pos as int + 1);
        self.next();  // consume 'match'
        let scrutinee = self.parse_term()?;
        let ghost q0 = self.pos as int;
        self.expect_lparen()?;
        let cases = self.parse_case_list()?;
        self.expect_rparen()?;
        let rparen = self.expect_rparen()?;
        Some(Spanned::new(Term::Match(Box::new(scrutinee), cases), Span::new(start, rparen.span.end)))
    }

    /// Match cases up to the `)` that closes their list (not read).
    #[verifier::spinoff_prover]
    #[verifier::rlimit(60)]
    fn parse_case_list(&mut self) -> (res: Option<Vec<Spanned<MatchCase>>>)
        requires
            old(self).wf(),
        ensures
            final(self).follows(*old(self)),
            res matches Some(cs) ==> cases_read(old(self).src@, old(self).toks@, old(self).pos as int, cs@)
                == Some(final(self).pos as int) && kind_at(final(self).toks@, final(self).pos as int, TokenKind::RParen),
            cases_close_end(old(self).src@, old(self).toks@, old(self).pos as int) matches Some(e) ==> res is Some
                && e == final(self).pos + 1 && final(self).diagnostics@ == old(self).diagnostics@,
            final(self).clean_since(*old(self)) ==> cases_close_end(old(self).src@, old(self).toks@, old(self).pos as int) is Some,
        decreases old(self).toks@.len() - old(self).pos, 4nat,
    {
        let ghost goal = cases_close_end(self.src@, self.toks@, self.pos as int);
        let mut cases: Vec<Spanned<MatchCase>> = Vec::new();
        while !self.peek_is(TokenKind::RParen)
            invariant
                cases_read(self.src@, self.toks@, old(self).pos as int, cases@) == Some(self.pos as int),
                goal == cases_close_end(old(self).src@, old(self).toks@, old(self).pos as int),
                goal is Some ==> cases_close_end(self.src@, self.toks@, self.pos as int) == goal
                    && self.diagnostics@ == old(self).diagnostics@,
                self.clean_since(*old(self)) ==> cases_close_end(self.src@, self.toks@, self.pos as int) == goal,
                self.follows(*old(self)),
            decreases self.toks@.len() - self.pos,
        {
            proof {
                if goal is Some {
                    lemma_case_step(self.src@, self.toks@, self.pos as int);
                }
            }
            let ghost before = cases@;
            let ghost p0 = self.pos as int;
            cases.push(self.parse_match_case()?);
            proof {
                assert(cases@.drop_last() =~= before);
                if self.clean_since(*old(self)) {
                    assert(cases_close_end(self.src@, self.toks@, p0) == cases_close_end(
                        self.src@,
                        self.toks@,
                        self.pos as int,
                    ));
                }
            }
        }
        Some(cases)
    }

    fn parse_match_pattern(&mut self) -> (res: Option<Spanned<MatchPattern>>)
        requires
            old(self).wf(),
        ensures
            res matches Some(pat) ==> pattern_read(
                old(self).src@,
                old(self).toks@,
                old(self).pos as int,
                pat,
            ) == Some(final(self).pos as int),
            final(self).accepts(*old(self), pattern_end(old(self).toks@, old(self).pos as int), res is Some),
            final(self).follows(*old(self)),
            res matches Some(p) ==> final(self).spans_read(old(self).pos as int, p.span),
    {
        let ghost goal = pattern_end(self.toks@, self.pos as int);
        let tok = self.peek_or_report()?;
        if tok.kind == TokenKind::LParen {
            let lparen = self.next().unwrap();
            let ctor = self.parse_symbol()?;
            let mut vars: Vec<Symbol> = Vec::new();
            while !self.peek_is(TokenKind::RParen)
                invariant
                    kind_at(self.toks@, old(self).pos as int, TokenKind::LParen),
                    lparen == self.toks@[old(self).pos as int],
                    symbol_read(self.src@, self.toks@, old(self).pos + 1, ctor) == Some(old(self).pos + 2),
                    symbols_read(self.src@, self.toks@, old(self).pos + 2, vars@) == Some(self.pos as int),
                    goal == pattern_end(old(self).toks@, old(self).pos as int),
                    goal is Some ==> symbols_close_end(
                        self.toks@,
                        self.pos as int,
                    ) == goal && self.diagnostics@ == old(self).diagnostics@,
                    self.clean_since(*old(self)) ==> symbols_close_end(self.toks@, self.pos as int) == goal,
                    self.follows(*old(self)),
                    old(self).pos < self.pos,
                decreases self.toks@.len() - self.pos,
            {
                let ghost before = vars@;
                vars.push(self.parse_symbol()?);
                proof {
                    assert(vars@.drop_last() =~= before);
                }
            }
            let rparen = self.expect_rparen()?;
            Some(
                Spanned::new(
                    MatchPattern::Application(ctor, vars),
                    Span::new(lparen.span.start, rparen.span.end),
                ),
            )
        } else {
            let sym = self.parse_spanned_symbol()?;
            let span = sym.span;
            Some(Spanned::new(MatchPattern::Symbol(sym.node), span))
        }
    }

    #[verifier::spinoff_prover]
    #[verifier::rlimit(40)]
    fn parse_annotated(&mut self, start: u32) -> (res: Option<Spanned<Term>>)
        requires
            old(self).wf(),
            1 <= old(self).pos < old(self).toks@.len(),
            start == old(self).toks@[old(self).pos - 1].span.start,
        ensures
            res matches Some(t) ==> annotated_read(
                old(self).src@,
                old(self).toks@,
                old(self).pos - 1,
                t,
            ) == Some(final(self).pos as int),
            final(self).accepts(
                *old(self),
                annotated_rest_end(old(self).src@, old(self).toks@, old(self).pos as int + 1),
                res is Some,
            ),
            final(self).follows(*old(self)),
            res matches Some(t) ==> final(self).spans_read(old(self).pos - 1, t.span) && t.node is Annotated,
        decreases old(self).toks@.len() - old(self).pos, 0nat,
    {
        let ghost goal = annotated_rest_end(self.src@, self.toks@, self.pos as int + 1);
        self.next();  // consume '!'
        let term = self.parse_term()?;
        let ghost q0 = self.pos as int;
        let mut attrs: Vec<Attribute> = Vec::new();
        while self.peek().is_some() && !self.peek_is(TokenKind::RParen)
            invariant
                start == self.toks@[old(self).pos - 1].span.start,
                term_read(self.src@, self.toks@, old(self).pos + 1, term) == Some(q0),
                attributes_read(self.src@, self.toks@, q0, attrs@) == Some(self.pos as int),
                goal == annotated_rest_end(old(self).src@, old(self).toks@, old(self).pos as int + 1),
                goal is Some ==> attributes_close_end(
                    self.toks@,
                    self.pos as int,
                ) == goal && self.diagnostics@ == old(self).diagnostics@,
                self.clean_since(*old(self)) ==> attributes_close_end(self.toks@, self.pos as int) == goal,
                self.follows(*old(self)),
                old(self).pos < self.pos,
            decreases self.toks@.len() - self.pos,
        {
            let ghost before = attrs@;
            attrs.push(self.parse_attribute()?);
            proof {
                assert(attrs@.drop_last() =~= before);
            }
        }
        let rparen = self.expect_rparen()?;
        Some(Spanned::new(Term::Annotated(Box::new(term), attrs), Span::new(start, rparen.span.end)))
    }

    // -----------------------------------------------------------------------
    // Script and commands
    // -----------------------------------------------------------------------

    /// The start of the next token, or past the end of the source when none is
    /// left.
    spec fn frontier(self) -> int {
        if self.pos < self.toks@.len() {
            self.toks@[self.pos as int].span.start as int
        } else {
            self.src@.len() + 1int
        }
    }

    #[verifier::spinoff_prover]
    #[verifier::rlimit(100)]
    fn parse_script(&mut self) -> (res: Script)
        requires
            old(self).wf(),
        ensures
            final(self).follows(*old(self)),
            script_spans_ordered(res.commands@, final(self).src@.len() as int),
            old(self).pos == old(self).toks@.len() ==> res.commands@.len() == 0
                && final(self).diagnostics@ == old(self).diagnostics@,
            forall|k: int|
                0 <= k < res.commands@.len() ==> command_from(
                    final(self).src@,
                    final(self).toks@,
                    #[trigger] res.commands@[k],
                ),
            final(self).clean_since(*old(self)) ==> commands_from(old(self).src@, old(self).toks@, old(self).pos as int),
            commands_from(old(self).src@, old(self).toks@, old(self).pos as int) ==> {
                &&& final(self).diagnostics@ == old(self).diagnostics@
                &&& exists|b: Seq<int>|
                    commands_read(final(self).src@, final(self).toks@, res.commands@, b) && b[0]
                        == old(self).pos && b[b.len() - 1] == final(self).toks@.len()
            },
            exists|m: int, b: Seq<int>|
                0 <= m <= res.commands@.len() && commands_read(
                    final(self).src@,
                    final(self).toks@,
                    res.commands@.take(m),
                    b,
                ) && b[0] == old(self).pos && b[m] == commands_prefix_end(
                    old(self).src@,
                    old(self).toks@,
                    old(self).pos as int,
                ),
            recovery_walk(old(self).src@, old(self).toks@, old(self).pos as int) matches Some(w) ==> {
                &&& res.commands@.len() == w.0.len()
                &&& forall|i: int|
                    0 <= i < w.0.len() ==> command_read(
                        final(self).src@,
                        final(self).toks@,
                        #[trigger] res.commands@[i],
                        w.0[i],
                        command_end(final(self).src@, final(self).toks@, w.0[i])->0,
                    )
                &&& reports_bad_heads(
                    final(self).diagnostics@.subrange(
                        old(self).diagnostics@.len() as int,
                        final(self).diagnostics@.len() as int,
                    ),
                    w.1,
                )
                &&& old(self).diagnostics@.len() <= final(self).diagnostics@.len()
            },
            resync_walk(old(self).src@, old(self).toks@, old(self).pos as int) matches Some(w) ==> exists|ks: Seq<
                int,
            >| kept_steps(final(self).src@, final(self).toks@, w, res.commands@, ks),
            ({
                let pe = commands_prefix_end(old(self).src@, old(self).toks@, old(self).pos as int);
                unclosed_at_end(old(self).src@, old(self).toks@, pe) ==> {
                    &&& res.commands@.len() >= 1
                    &&& exists|b: Seq<int>|
                        commands_read(old(self).src@, old(self).toks@, res.commands@.drop_last(), b) && b[0]
                            == old(self).pos && b[b.len() - 1] == pe
                    &&& open_command_kept(old(self).src@, old(self).toks@, pe, res.commands@.last())
                    &&& reports_one(
                        final(self).diagnostics@,
                        old(self).diagnostics@,
                        Span { start: old(self).src@.len() as u32, end: old(self).src@.len() as u32 },
                        "expected RParen, found EOF"@,
                    )
                }
            }),
    {
        let ghost pe = commands_prefix_end(self.src@, self.toks@, self.pos as int);
        proof {
            lemma_commands_prefix_end_bounds(self.src@, self.toks@, self.pos as int);
            if commands_from(self.src@, self.toks@, self.pos as int) {
                lemma_commands_from_prefix_end(self.src@, self.toks@, self.pos as int);
            }
        }
        let mut commands: Vec<Spanned<Command>> = Vec::new();
        let ghost mut b: Seq<int> = seq![self.pos as int];
        let ghost mut gm: int = 0;
        let ghost mut gb: Seq<int> = seq![self.pos as int];
        let ghost walk = recovery_walk(self.src@, self.toks@, self.pos as int);
        let ghost rw = resync_walk(self.src@, self.toks@, self.pos as int);
        let ghost mut rks: Seq<int> = Seq::empty();
        let ghost mut rdone: int = 0;
        proof {
            if rw is Some {
                lemma_resync_start(self.src@, self.toks@, rw.unwrap(), self.pos as int);
            }
        }
        proof {
            if walk is Some {
                lemma_walk_start(self.src@, self.toks@, walk.unwrap(), self.pos as int);
                assert(self.diagnostics@.subrange(
                    self.diagnostics@.len() as int,
                    self.diagnostics@.len() as int,
                ) =~= Seq::<Diagnostic>::empty());
            }
        }
        while self.peek().is_some()
            invariant
                rw == resync_walk(old(self).src@, old(self).toks@, old(self).pos as int),
                rw matches Some(w) ==> resync_done(self.src@, self.toks@, w, commands@, rks, rdone, self.pos as int),
                walk == recovery_walk(old(self).src@, old(self).toks@, old(self).pos as int),
                walk matches Some(w) ==> walk_done(
                    self.src@,
                    self.toks@,
                    w,
                    commands@,
                    self.pos as int,
                    self.diagnostics@.subrange(
                        old(self).diagnostics@.len() as int,
                        self.diagnostics@.len() as int,
                    ),
                ),
                pe == commands_prefix_end(old(self).src@, old(self).toks@, old(self).pos as int),
                pe <= self.toks@.len(),
                self.pos <= pe ==> {
                    &&& commands_prefix_end(self.src@, self.toks@, self.pos as int) == pe
                    &&& self.diagnostics@ == old(self).diagnostics@
                    &&& commands_read(self.src@, self.toks@, commands@, b)
                    &&& b[0] == old(self).pos
                    &&& b[b.len() - 1] == self.pos
                },
                self.pos > pe ==> {
                    &&& 0 <= gm <= commands@.len()
                    &&& commands_read(self.src@, self.toks@, commands@.take(gm), gb)
                    &&& gb[0] == old(self).pos
                    &&& gb[gm] == pe
                },
                unclosed_at_end(self.src@, self.toks@, pe) && self.pos > pe ==> {
                    &&& self.pos == self.toks@.len()
                    &&& commands@.len() == gm + 1
                    &&& open_command_kept(self.src@, self.toks@, pe, commands@.last())
                    &&& reports_one(
                        self.diagnostics@,
                        old(self).diagnostics@,
                        Span { start: self.src@.len() as u32, end: self.src@.len() as u32 },
                        "expected RParen, found EOF"@,
                    )
                },
                self.follows(*old(self)),
                old(self).pos == old(self).toks@.len() ==> self.diagnostics@
                    == old(self).diagnostics@ && commands@.len() == 0,
                script_spans_ordered(commands@, self.src@.len() as int),
                forall|k: int|
                    0 <= k < commands@.len() ==> (#[trigger] commands@[k]).span.start
                        < self.frontier(),
                forall|k: int|
                    0 <= k < commands@.len() ==> command_from(
                        self.src@,
                        self.toks@,
                        #[trigger] commands@[k],
                    ),
                self.clean_since(*old(self)) ==> (commands_from(self.src@, self.toks@, self.pos as int)
                    ==> commands_from(self.src@, self.toks@, old(self).pos as int)),
            decreases self.toks@.len() - self.pos,
        {
            let ghost p = self.pos as int;
            let ghost before = *self;
            proof {
                if p == pe {
                    gm = commands@.len() as int;
                    gb = b;
                }
                if p < pe {
                    lemma_commands_prefix_end_bounds(self.src@, self.toks@, command_end(self.src@, self.toks@, p)->0);
                }
            }
            let ghost cmds_before = commands@;
            let ghost diags_before = self.diagnostics@;
            proof {
                if walk is Some {
                    reveal(walk_done);
                    lemma_recovery_step(self.src@, self.toks@, p);
                }
                if rw is Some {
                    lemma_resync_step(self.src@, self.toks@, rw.unwrap(), commands@, rks, rdone, p);
                }
            }
            if let Some(cmd) = self.parse_command() {
                proof {
                    if self.pos < self.toks@.len() {
                        assert(self.toks@[p].span.end <= self.toks@[self.pos as int].span.start);
                    }
                    assert(self.toks@[p].kind == TokenKind::LParen);
                    assert(command_from(self.src@, self.toks@, cmd));
                }
                let ghost old_cmds = commands@;
                commands.push(cmd);
                proof {
                    if self.clean_since(*old(self)) || p < pe || walk is Some || command_end(
                        self.src@,
                        self.toks@,
                        p,
                    ) is Some {
                        assert(before.clean_since(*old(self)) || p < pe || walk is Some || command_end(
                            self.src@,
                            self.toks@,
                            p,
                        ) is Some);
                        assert(command_read(self.src@, self.toks@, cmd, p, self.pos as int)) by {
                            reveal(command_read);
                        }
                        assert(commands@ == old_cmds.push(cmd));
                    }
                    if p < pe {
                        lemma_commands_read_push(self.src@, self.toks@, old_cmds, b, cmd, self.pos as int);
                    }
                    if self.clean_since(*old(self)) {
                        assert(before.clean_since(*old(self)));
                        assert(self.clean_since(before));
                        assert(command_end(self.src@, self.toks@, p) == Some(self.pos as int));
                        assert(commands_from(self.src@, self.toks@, self.pos as int) ==> commands_from(
                            self.src@,
                            self.toks@,
                            p,
                        ));
                    }
                    if walk is Some {
                        lemma_walk_command(
                            self.src@,
                            self.toks@,
                            walk.unwrap(),
                            old_cmds,
                            p,
                            cmd,
                            self.pos as int,
                            self.diagnostics@.subrange(
                                old(self).diagnostics@.len() as int,
                                self.diagnostics@.len() as int,
                            ),
                        );
                    }
                    if p == pe && unclosed_at_end(self.src@, self.toks@, pe) {
                        assert(self.pos == self.toks@.len());
                        assert(commands@.last() == cmd);
                        assert(open_command_kept(self.src@, self.toks@, pe, cmd));
                    }
                    b = b.push(self.pos as int);
                    if rw is Some {
                        lemma_resync_advance(
                            self.src@,
                            self.toks@,
                            rw.unwrap(),
                            old_cmds,
                            rks,
                            rdone,
                            p,
                            self.pos as int,
                            Some(cmd),
                        );
                        rks = rks.push(rdone);
                        rdone = rdone + 1;
                    }
                }
            } else {
                proof {
                    if rw is Some {
                        lemma_resync_advance(
                            self.src@,
                            self.toks@,
                            rw.unwrap(),
                            commands@,
                            rks,
                            rdone,
                            p,
                            self.pos as int,
                            None,
                        );
                        rdone = rdone + 1;
                    }
                    if self.clean_since(*old(self)) {
                        assert(before.clean_since(*old(self)));
                        assert(self.clean_since(before));
                    }
                    if walk is Some {
                        let n0 = old(self).diagnostics@.len() as int;
                        let d = self.diagnostics@.last();
                        lemma_walk_bad_head(
                            self.src@,
                            self.toks@,
                            walk.unwrap(),
                            commands@,
                            p,
                            diags_before.subrange(n0, diags_before.len() as int),
                            d,
                        );
                        assert(self.diagnostics@ =~= diags_before.push(d));
                        assert(self.diagnostics@.subrange(n0, self.diagnostics@.len() as int)
                            =~= diags_before.subrange(n0, diags_before.len() as int).push(d));
                    }
                }
            }
            proof {
                if self.pos > pe {
                    assert(commands@.take(gm) =~= cmds_before.take(gm));
                }
            }
        }
        let res = Script { commands };
        proof {
            if unclosed_at_end(self.src@, self.toks@, pe) {
                reveal(unclosed_at_end);
                assert(self.pos > pe);
                assert(res.commands@.take(gm) =~= res.commands@.drop_last());
            }
            if rw is Some {
                lemma_resync_end(self.src@, self.toks@, rw.unwrap(), res.commands@, rks, rdone);
            }
            if walk is Some {
                lemma_walk_end(
                    self.src@,
                    self.toks@,
                    walk.unwrap(),
                    res.commands@,
                    self.diagnostics@.subrange(
                        old(self).diagnostics@.len() as int,
                        self.diagnostics@.len() as int,
                    ),
                );
            }
            let m = res.commands@.len() as int;
            if self.pos <= pe {
                assert(self.pos == pe);
                assert(commands_read(self.src@, self.toks@, res.commands@, b) && b[0] == old(self).pos
                    && b[b.len() - 1] == self.toks@.len());
                assert(res.commands@.take(m) =~= res.commands@);
                assert(0 <= m <= res.commands@.len() && commands_read(self.src@, self.toks@, res.commands@.take(m), b)
                    && b[0] == old(self).pos && b[m] == commands_prefix_end(old(self).src@, old(self).toks@, old(self).pos as int));
            } else {
                assert(0 <= gm <= m && commands_read(self.src@, self.toks@, res.commands@.take(gm), gb) && gb[0]
                    == old(self).pos && gb[gm] == commands_prefix_end(old(self).src@, old(self).toks@, old(self).pos as int));
            }
        }
        res
    }

    /// The arguments of the command that `name_tok` names, read from the next
    /// token on.
    #[verifier::spinoff_prover]
    #[verifier::rlimit(100)]
    fn parse_command_args(&mut self, name_tok: Token) -> (res: Option<Command>)
        requires
            old(self).wf(),
            name_tok.kind == TokenKind::Symbol,
            name_tok.span.start < name_tok.span.end <= old(self).src@.len(),
        ensures
            res matches Some(c) ==> command_args_read(
                old(self).src@,
                old(self).toks@,
                old(self).pos as int,
                c,
            ) == Some(final(self).pos as int),
            final(self).accepts(
                *old(self),
                command_args_end(old(self).src@, old(self).toks@, name_tok, old(self).pos as int),
                res is Some,
            ),
            final(self).follows(*old(self)),
            res matches Some(c) ==> command_named(
                old(self).src@,
                old(self).toks@,
                old(self).pos as int,
                name_tok,
                c,
            ),
    {
        if self.token_is(name_tok, "set-logic") {
            self.parse_set_logic()
        } else if self.token_is(name_tok, "set-info") {
            self.parse_set_info()
        } else if self.token_is(name_tok, "set-option") {
            self.parse_set_option()
        } else if self.token_is(name_tok, "get-info") {
            self.parse_get_info()
        } else if self.token_is(name_tok, "get-option") {
            self.parse_get_option()
        } else if self.token_is(name_tok, "declare-sort") {
            self.parse_declare_sort()
        } else if self.token_is(name_tok, "define-sort") {
            self.parse_define_sort()
        } else if self.token_is(name_tok, "declare-fun") {
            self.parse_declare_fun()
        } else if self.token_is(name_tok, "declare-const") {
            self.parse_declare_const()
        } else if self.token_is(name_tok, "define-fun") {
            self.parse_define_fun()
        } else if self.token_is(name_tok, "define-fun-rec") {
            self.parse_define_fun_rec()
        } else if self.token_is(name_tok, "define-funs-rec") {
            self.parse_define_funs_rec()
        } else if self.token_is(name_tok, "declare-datatype") {
            self.parse_declare_datatype()
        } else if self.token_is(name_tok, "declare-datatypes") {
            self.parse_declare_datatypes()
        } else if self.token_is(name_tok, "assert") || self.token_is(name_tok, "assert-not") {
            self.parse_assert()
        } else if self.token_is(name_tok, "check-sat") {
            reveal(command_args_read);
            Some(Command::CheckSat)
        } else if self.token_is(name_tok, "check-sat-assuming") {
            self.parse_check_sat_assuming()
        } else if self.token_is(name_tok, "push") {
            self.parse_push()
        } else if self.token_is(name_tok, "pop") {
            self.parse_pop()
        } else if self.token_is(name_tok, "reset") {
            reveal(command_args_read);
            Some(Command::Reset)
        } else if self.token_is(name_tok, "reset-assertions") {
            reveal(command_args_read);
            Some(Command::ResetAssertions)
        } else if self.token_is(name_tok, "get-model") {
            reveal(command_args_read);
            Some(Command::GetModel)
        } else if self.token_is(name_tok, "get-value") {
            self.parse_get_value()
        } else if self.token_is(name_tok, "get-proof") {
            reveal(command_args_read);
            Some(Command::GetProof)
        } else if self.token_is(name_tok, "get-unsat-core") {
            reveal(command_args_read);
            Some(Command::GetUnsatCore)
        } else if self.token_is(name_tok, "get-unsat-assumptions") {
            reveal(command_args_read);
            Some(Command::GetUnsatAssumptions)
        } else if self.token_is(name_tok, "get-assertions") {
            reveal(command_args_read);
            Some(Command::GetAssertions)
        } else if self.token_is(name_tok, "get-assignment") {
            reveal(command_args_read);
            Some(Command::GetAssignment)
        } else if self.token_is(name_tok, "echo") {
            self.parse_echo()
        } else if self.token_is(name_tok, "exit") {
            reveal(command_args_read);
            Some(Command::Exit)
        } else {
            self.parse_unknown_command(name_tok)
        }
    }

    #[verifier::spinoff_prover]
    #[verifier::rlimit(60)]
    fn parse_command(&mut self) -> (res: Option<Spanned<Command>>)
        requires
            old(self).wf(),
            old(self).pos < old(self).toks@.len(),
        ensures
            final(self).accepts(
                *old(self),
                command_end(old(self).src@, old(self).toks@, old(self).pos as int),
                res is Some,
            ),
            command_end(old(self).src@, old(self).toks@, old(self).pos as int) is Some ==> match res {
                Some(c) => {
                    &&& old(self).pos + 2 < final(self).pos
                    &&& final(self).toks@[final(self).pos - 1].kind == TokenKind::RParen
                    &&& c.span.end == final(self).toks@[final(self).pos - 1].span.end
                    &&& command_args_read(old(self).src@, old(self).toks@, old(self).pos + 2, c.node)
                        == Some(final(self).pos - 1)
                },
                None => false,
            },
            final(self).follows(*old(self)),
            old(self).pos < final(self).pos,
            bad_head_at(old(self).toks@, old(self).pos as int) ==> {
                &&& res is None
                &&& final(self).pos == balanced_end(old(self).toks@, old(self).pos + 2, 1)
                &&& final(self).diagnostics@.len() == old(self).diagnostics@.len() + 1
                &&& final(self).diagnostics@.drop_last() == old(self).diagnostics@
                &&& final(self).diagnostics@.last().span == old(self).toks@[old(self).pos + 1].span
                &&& final(self).diagnostics@.last().message@ == "expected command name"@
            },
            res matches Some(c) ==> {
                let start = old(self).toks@[old(self).pos as int];
                &&& start.kind == TokenKind::LParen
                &&& c.span.start == start.span.start
                &&& c.span.start < c.span.end <= old(self).src@.len()
                &&& old(self).pos + 1 < old(self).toks@.len()
                &&& command_named(
                    old(self).src@,
                    old(self).toks@,
                    old(self).pos + 2,
                    old(self).toks@[old(self).pos + 1],
                    c.node,
                )
                &&& command_args_read(old(self).src@, old(self).toks@, old(self).pos + 2, c.node) is Some
            },
            command_end(old(self).src@, old(self).toks@, old(self).pos as int) is None && !(kind_at(
                old(self).toks@,
                old(self).pos as int,
                TokenKind::LParen,
            ) && group_readable(old(self).src@, old(self).toks@, old(self).pos as int)) ==> final(self).pos
                == resume_after(old(self).toks@, old(self).pos as int),
            command_end(old(self).src@, old(self).toks@, old(self).pos as int) is None && !has_stray_token(
                old(self).toks@,
            ) ==> final(self).diagnostics@.len() > old(self).diagnostics@.len(),
            unclosed_at_end(old(self).src@, old(self).toks@, old(self).pos as int) ==> match res {
                Some(c) => {
                    &&& c.span == (Span {
                        start: old(self).toks@[old(self).pos as int].span.start,
                        end: old(self).src@.len() as u32,
                    })
                    &&& command_args_read(old(self).src@, old(self).toks@, old(self).pos + 2, c.node) == Some(
                        old(self).toks@.len() as int,
                    )
                    &&& final(self).pos == old(self).toks@.len()
                    &&& reports_one(
                        final(self).diagnostics@,
                        old(self).diagnostics@,
                        Span { start: old(self).src@.len() as u32, end: old(self).src@.len() as u32 },
                        "expected RParen, found EOF"@,
                    )
                },
                None => false,
            },
    {
        reveal(command_end);
        let p = self.pos;
        let ghost unclosed = unclosed_at_end(self.src@, self.toks@, p as int);
        proof {
            if unclosed {
                reveal(unclosed_at_end);
                assert(kind_at(self.toks@, p as int, TokenKind::LParen) && kind_at(self.toks@, p + 1, TokenKind::Symbol)
                    && command_args_end(self.src@, self.toks@, self.toks@[p + 1], p + 2) == Some(self.toks@.len() as int)
                    && balanced_end(self.toks@, p + 2, 1) == self.toks@.len());
            }
        }
        let lparen = self.expect_lparen()?;
        let start = lparen.span.start;

        let name_tok = match self.next_or_report() {
            Some(tok) => {
                if tok.kind == TokenKind::Symbol {
                    tok
                } else {
                    self.error(tok.span, "expected command name".to_owned());
                    self.skip_to_balanced_rparen();
                    return None;
                }
            },
            None => return None,
        };

        let ghost args_from = *self;
        let cmd = self.parse_command_args(name_tok);
        proof {
            if unclosed {
                assert(name_tok == self.toks@[p + 1]);
                assert(cmd is Some && self.pos == self.toks@.len() && self.diagnostics@ == old(self).diagnostics@);
            }
        }

        let cmd = match cmd {
            Some(c) => c,
            None => {
                // Resume past the `)` that closes this command.
                self.pos = p + 2;
                self.skip_to_balanced_rparen();
                return None;
            },
        };

        let ghost before_close = self.diagnostics@;
        let rparen = self.expect_rparen();
        let end = match rparen {
            Some(t) => t.span.end,
            None => {
                // Keep the command, and resume past the `)` that closes it.
                self.pos = p + 2;
                self.skip_to_balanced_rparen();
                proof {
                    if unclosed {
                        let n = self.src@.len();
                        reveal_strlit("expected ");
                        reveal_strlit("RParen");
                        reveal_strlit(", found EOF");
                        reveal_strlit("expected RParen, found EOF");
                        assert("expected "@ + token_kind_name(TokenKind::RParen) + ", found EOF"@
                            =~= "expected RParen, found EOF"@);
                        assert(reports_one(
                            self.diagnostics@,
                            before_close,
                            Span { start: n as u32, end: n as u32 },
                            "expected RParen, found EOF"@,
                        ));
                        assert(self.pos == self.toks@.len());
                    }
                }
                self.src.len() as u32
            },
        };
        Some(Spanned::new(cmd, Span::new(start, end)))
    }

    // --- Individual command parsers ---

    fn parse_set_logic(&mut self) -> (res: Option<Command>)
        requires
            old(self).wf(),
        ensures
            res matches Some(c) ==> command_args_read(
                old(self).src@,
                old(self).toks@,
                old(self).pos as int,
                c,
            ) == Some(final(self).pos as int),
            final(self).accepts(*old(self), symbol_end(old(self).toks@, old(self).pos as int), res is Some),
            final(self).follows(*old(self)),
            res matches Some(c) ==> c matches Command::SetLogic(sym) && names_symbol(
                old(self).src@,
                old(self).toks@,
                old(self).pos as int,
                sym,
            ),
    {
        let sym = self.parse_spanned_symbol()?;
        reveal(command_args_read);
        Some(Command::SetLogic(sym))
    }

    fn parse_set_info(&mut self) -> (res: Option<Command>)
        requires
            old(self).wf(),
        ensures
            res matches Some(c) ==> command_args_read(
                old(self).src@,
                old(self).toks@,
                old(self).pos as int,
                c,
            ) == Some(final(self).pos as int),
            final(self).accepts(
                *old(self),
                attribute_end(old(self).toks@, old(self).pos as int),
                res is Some,
            ),
            final(self).follows(*old(self)),
            res matches Some(c) ==> c matches Command::SetInfo(a) && names_keyword(
                old(self).src@,
                old(self).toks@,
                old(self).pos as int,
                a.keyword,
            ),
    {
        let attr = self.parse_attribute()?;
        reveal(command_args_read);
        Some(Command::SetInfo(attr))
    }

    fn parse_set_option(&mut self) -> (res: Option<Command>)
        requires
            old(self).wf(),
        ensures
            res matches Some(c) ==> command_args_read(
                old(self).src@,
                old(self).toks@,
                old(self).pos as int,
                c,
            ) == Some(final(self).pos as int),
            final(self).accepts(
                *old(self),
                attribute_end(old(self).toks@, old(self).pos as int),
                res is Some,
            ),
            final(self).follows(*old(self)),
            res matches Some(c) ==> c matches Command::SetOption(a) && names_keyword(
                old(self).src@,
                old(self).toks@,
                old(self).pos as int,
                a.keyword,
            ),
    {
        let attr = self.parse_attribute()?;
        reveal(command_args_read);
        Some(Command::SetOption(attr))
    }

    fn parse_get_info(&mut self) -> (res: Option<Command>)
        requires
            old(self).wf(),
        ensures
            res matches Some(c) ==> command_args_read(
                old(self).src@,
                old(self).toks@,
                old(self).pos as int,
                c,
            ) == Some(final(self).pos as int),
            final(self).accepts(
                *old(self),
                one_end(old(self).toks@, old(self).pos as int, TokenKind::Keyword),
                res is Some,
            ),
            final(self).follows(*old(self)),
            res matches Some(c) ==> c matches Command::GetInfo(kw) && names_keyword(
                old(self).src@,
                old(self).toks@,
                old(self).pos as int,
                kw,
            ),
    {
        let kw = self.parse_keyword()?;
        reveal(command_args_read);
        Some(Command::GetInfo(kw))
    }

    fn parse_get_option(&mut self) -> (res: Option<Command>)
        requires
            old(self).wf(),
        ensures
            res matches Some(c) ==> command_args_read(
                old(self).src@,
                old(self).toks@,
                old(self).pos as int,
                c,
            ) == Some(final(self).pos as int),
            final(self).accepts(
                *old(self),
                one_end(old(self).toks@, old(self).pos as int, TokenKind::Keyword),
                res is Some,
            ),
            final(self).follows(*old(self)),
            res matches Some(c) ==> c matches Command::GetOption(kw) && names_keyword(
                old(self).src@,
                old(self).toks@,
                old(self).pos as int,
                kw,
            ),
    {
        let kw = self.parse_keyword()?;
        reveal(command_args_read);
        Some(Command::GetOption(kw))
    }

    fn parse_declare_sort(&mut self) -> (res: Option<Command>)
        requires
            old(self).wf(),
        ensures
            res matches Some(c) ==> command_args_read(
                old(self).src@,
                old(self).toks@,
                old(self).pos as int,
                c,
            ) == Some(final(self).pos as int),
            final(self).accepts(
                *old(self),
                declare_sort_args_end(old(self).toks@, old(self).pos as int),
                res is Some,
            ),
            final(self).follows(*old(self)),
            res matches Some(c) ==> c matches Command::DeclareSort(
                name,
                arity,
            ) && names_symbol(old(self).src@, old(self).toks@, old(self).pos as int, name) && arity == optional_numeral(old(self).src@, old(self).toks@, old(self).pos + 1, 0),
    {
        let name = self.parse_spanned_symbol()?;
        // Arity is optional — defaults to 0 (Z3 extension)
        let arity = if self.peek_is(TokenKind::Numeral) {
            self.parse_numeral_value()?
        } else {
            0
        };
        reveal(command_args_read);
        Some(Command::DeclareSort(name, arity))
    }

    #[verifier::spinoff_prover]
    #[verifier::rlimit(60)]
    fn parse_define_sort(&mut self) -> (res: Option<Command>)
        requires
            old(self).wf(),
        ensures
            res matches Some(c) ==> command_args_read(
                old(self).src@,
                old(self).toks@,
                old(self).pos as int,
                c,
            ) == Some(final(self).pos as int),
            final(self).accepts(
                *old(self),
                define_sort_args_end(old(self).src@, old(self).toks@, old(self).pos as int),
                res is Some,
            ),
            final(self).follows(*old(self)),
            res matches Some(c) ==> c matches Command::DefineSort(
                name,
                _,
                _,
            ) && names_symbol(old(self).src@, old(self).toks@, old(self).pos as int, name),
    {
        let ghost goal = define_sort_args_end(self.src@, self.toks@, self.pos as int);
        let name = self.parse_spanned_symbol()?;
        self.expect_lparen()?;
        let ghost mid = symbols_close_end(self.toks@, self.pos as int);
        let mut params: Vec<Spanned<Symbol>> = Vec::new();
        while !self.peek_is(TokenKind::RParen)
            invariant
                spanned_symbols_read(
                    self.src@,
                    self.toks@,
                    old(self).pos + 2,
                    params@,
                ) == Some(self.pos as int),
                kind_at(self.toks@, old(self).pos + 1, TokenKind::LParen),
                spanned_symbol_read(
                    self.src@,
                    self.toks@,
                    old(self).pos as int,
                    name,
                ) == Some(old(self).pos + 1),
                goal == define_sort_args_end(old(self).src@, old(self).toks@, old(self).pos as int),
                mid == symbols_close_end(old(self).toks@, old(self).pos as int + 2),
                goal is Some ==> mid is Some && sort_end(
                    self.src@,
                    self.toks@,
                    mid->0,
                ) == goal && symbols_close_end(self.toks@, self.pos as int) == mid && self.diagnostics@ == old(self).diagnostics@,
                self.clean_since(*old(self)) ==> symbols_close_end(self.toks@, self.pos as int) == mid,
                self.follows(*old(self)),
            decreases self.toks@.len() - self.pos,
        {
            let ghost before = params@;
            params.push(self.parse_spanned_symbol()?);
            proof {
                assert(params@.drop_last() =~= before);
            }
        }
        self.expect_rparen()?;
        let sort = self.parse_sort()?;
        reveal(command_args_read);
        Some(Command::DefineSort(name, params, sort))
    }

    #[verifier::spinoff_prover]
    #[verifier::rlimit(60)]
    fn parse_declare_fun(&mut self) -> (res: Option<Command>)
        requires
            old(self).wf(),
        ensures
            res matches Some(c) ==> command_args_read(
                old(self).src@,
                old(self).toks@,
                old(self).pos as int,
                c,
            ) == Some(final(self).pos as int),
            final(self).accepts(
                *old(self),
                declare_fun_args_end(old(self).src@, old(self).toks@, old(self).pos as int),
                res is Some,
            ),
            final(self).follows(*old(self)),
            res matches Some(c) ==> c matches Command::DeclareFun(
                name,
                _,
                _,
            ) && names_symbol(old(self).src@, old(self).toks@, old(self).pos as int, name),
    {
        let ghost goal = declare_fun_args_end(self.src@, self.toks@, self.pos as int);
        let name = self.parse_spanned_symbol()?;
        self.expect_lparen()?;
        let ghost mid = sorts_close_end(self.src@, self.toks@, self.pos as int);
        let mut param_sorts: Vec<Spanned<Sort>> = Vec::new();
        while !self.peek_is(TokenKind::RParen)
            invariant
                sorts_read(self.src@, self.toks@, old(self).pos + 2, param_sorts@) == Some(self.pos as int),
                kind_at(self.toks@, old(self).pos + 1, TokenKind::LParen),
                spanned_symbol_read(
                    self.src@,
                    self.toks@,
                    old(self).pos as int,
                    name,
                ) == Some(old(self).pos + 1),
                goal == declare_fun_args_end(old(self).src@, old(self).toks@, old(self).pos as int),
                mid == sorts_close_end(old(self).src@, old(self).toks@, old(self).pos as int + 2),
                goal is Some ==> mid is Some && sort_end(
                    self.src@,
                    self.toks@,
                    mid->0,
                ) == goal && sorts_close_end(self.src@, self.toks@, self.pos as int) == mid && self.diagnostics@ == old(self).diagnostics@,
                self.clean_since(*old(self)) ==> sorts_close_end(self.src@, self.toks@, self.pos as int) == mid,
                self.follows(*old(self)),
            decreases self.toks@.len() - self.pos,
        {
            let ghost before = param_sorts@;
            param_sorts.push(self.parse_sort()?);
            proof {
                assert(param_sorts@.drop_last() =~= before);
            }
        }
        self.expect_rparen()?;
        let result_sort = self.parse_sort()?;
        reveal(command_args_read);
        Some(Command::DeclareFun(name, param_sorts, result_sort))
    }

    fn parse_declare_const(&mut self) -> (res: Option<Command>)
        requires
            old(self).wf(),
        ensures
            res matches Some(c) ==> command_args_read(
                old(self).src@,
                old(self).toks@,
                old(self).pos as int,
                c,
            ) == Some(final(self).pos as int),
            final(self).accepts(
                *old(self),
                declare_const_args_end(old(self).src@, old(self).toks@, old(self).pos as int),
                res is Some,
            ),
            final(self).follows(*old(self)),
            res matches Some(c) ==> c matches Command::DeclareConst(
                name,
                _,
            ) && names_symbol(old(self).src@, old(self).toks@, old(self).pos as int, name),
    {
        let name = self.parse_spanned_symbol()?;
        let sort = self.parse_sort()?;
        reveal(command_args_read);
        Some(Command::DeclareConst(name, sort))
    }

    #[verifier::spinoff_prover]
    #[verifier::rlimit(100)]
    fn parse_define_fun(&mut self) -> (res: Option<Command>)
        requires
            old(self).wf(),
        ensures
            res matches Some(c) ==> command_args_read(
                old(self).src@,
                old(self).toks@,
                old(self).pos as int,
                c,
            ) == Some(final(self).pos as int),
            final(self).accepts(
                *old(self),
                fun_def_end(old(self).src@, old(self).toks@, old(self).pos as int),
                res is Some,
            ),
            final(self).follows(*old(self)),
            res matches Some(c) ==> c matches Command::DefineFun(def) && names_symbol(
                old(self).src@,
                old(self).toks@,
                old(self).pos as int,
                def.name,
            ),
    {
        let def = self.parse_fun_def()?;
        reveal(command_args_read);
        Some(Command::DefineFun(def))
    }

    #[verifier::spinoff_prover]
    #[verifier::rlimit(100)]
    fn parse_define_fun_rec(&mut self) -> (res: Option<Command>)
        requires
            old(self).wf(),
        ensures
            res matches Some(c) ==> command_args_read(
                old(self).src@,
                old(self).toks@,
                old(self).pos as int,
                c,
            ) == Some(final(self).pos as int),
            final(self).accepts(
                *old(self),
                fun_def_end(old(self).src@, old(self).toks@, old(self).pos as int),
                res is Some,
            ),
            final(self).follows(*old(self)),
            res matches Some(c) ==> c matches Command::DefineFunRec(def) && names_symbol(
                old(self).src@,
                old(self).toks@,
                old(self).pos as int,
                def.name,
            ),
    {
        let def = self.parse_fun_def()?;
        reveal(command_args_read);
        Some(Command::DefineFunRec(def))
    }

    /// One signature of `define-funs-rec`: `(name (sorted-var*) sort)`.
    #[verifier::spinoff_prover]
    #[verifier::rlimit(40)]
    fn parse_signature(&mut self) -> (res: Option<
        (Spanned<Symbol>, Vec<Spanned<SortedVar>>, Spanned<Sort>),
    >)
        requires
            old(self).wf(),
        ensures
            final(self).accepts(
                *old(self),
                signature_end(old(self).src@, old(self).toks@, old(self).pos as int),
                res is Some,
            ),
            final(self).follows(*old(self)),
            res is Some ==> old(self).pos < final(self).pos,
            res matches Some(sig) ==> signature_read(
                old(self).src@,
                old(self).toks@,
                old(self).pos as int,
                sig.0,
                sig.1@,
                sig.2,
            ) == Some(final(self).pos as int),
    {
        self.expect_lparen()?;
        let name = self.parse_spanned_symbol()?;
        self.expect_lparen()?;
        let params = self.parse_sorted_var_list()?;
        self.expect_rparen()?;
        let result_sort = self.parse_sort()?;
        self.expect_rparen()?;
        Some((name, params, result_sort))
    }

    /// The signatures of `define-funs-rec`, up to the `)` that closes their
    /// list (not read).
    #[verifier::spinoff_prover]
    #[verifier::rlimit(60)]
    fn parse_signatures(&mut self) -> (res: Option<
        Vec<(Spanned<Symbol>, Vec<Spanned<SortedVar>>, Spanned<Sort>)>,
    >)
        requires
            old(self).wf(),
        ensures
            final(self).follows(*old(self)),
            res matches Some(sigs) ==> signature_triples_read(
                old(self).src@,
                old(self).toks@,
                old(self).pos as int,
                sigs@,
            ) == Some(final(self).pos as int) && kind_at(
                final(self).toks@,
                final(self).pos as int,
                TokenKind::RParen,
            ),
            signatures_close_end(old(self).src@, old(self).toks@, old(self).pos as int) matches Some((e, n))
                ==> res matches Some(sigs) && sigs@.len() == n && e == final(self).pos + 1
                && final(self).diagnostics@ == old(self).diagnostics@,
            final(self).clean_since(*old(self)) ==> signatures_close_end(old(self).src@, old(self).toks@, old(self).pos as int) is Some,
    {
        let ghost src = self.src@;
        let ghost toks = self.toks@;
        let ghost p = self.pos as int;
        let ghost list = signatures_close_end(src, toks, p);
        let mut sigs: Vec<(Spanned<Symbol>, Vec<Spanned<SortedVar>>, Spanned<Sort>)> = Vec::new();
        while !self.peek_is(TokenKind::RParen)
            invariant
                self.follows(*old(self)),
                src == old(self).src@ && toks == old(self).toks@,
                p == old(self).pos,
                list == signatures_close_end(src, toks, p),
                signature_triples_read(src, toks, p, sigs@) == Some(self.pos as int),
                list is Some ==> {
                    &&& signatures_close_end(src, toks, self.pos as int) is Some
                    &&& signatures_stop(src, toks, self.pos as int) == list.unwrap().0
                    &&& signatures_count(src, toks, self.pos as int) + sigs@.len() == list.unwrap().1
                    &&& self.diagnostics@ == old(self).diagnostics@
                },
                self.clean_since(*old(self)) ==> (signatures_close_end(src, toks, self.pos as int) is Some
                    ==> list is Some),
            decreases self.toks@.len() - self.pos,
        {
            proof {
                if list is Some {
                    lemma_signature_step(src, toks, self.pos as int);
                }
            }
            let ghost before = sigs@;
            let ghost p0 = self.pos as int;
            sigs.push(self.parse_signature()?);
            proof {
                assert(sigs@.drop_last() =~= before);
                if self.clean_since(*old(self)) {
                    assert(signature_end(src, toks, p0) == Some(self.pos as int));
                    assert(signatures_close_end(src, toks, self.pos as int) is Some ==> signatures_close_end(
                        src,
                        toks,
                        p0,
                    ) is Some);
                }
            }
        }
        Some(sigs)
    }

    /// The bodies of `define-funs-rec`, one term per signature, each joined
    /// with its signature.
    #[verifier::spinoff_prover]
    #[verifier::rlimit(60)]
    fn parse_bodies(
        &mut self,
        sigs: Vec<(Spanned<Symbol>, Vec<Spanned<SortedVar>>, Spanned<Sort>)>,
    ) -> (res: Option<Vec<FunDef>>)
        requires
            old(self).wf(),
        ensures
            final(self).follows(*old(self)),
            res matches Some(defs) ==> {
                &&& defs@.len() == sigs@.len()
                &&& forall|k: int|
                    0 <= k < defs@.len() ==> (#[trigger] defs@[k]).name == sigs@[k].0 && defs@[k].params@
                        == sigs@[k].1@ && defs@[k].result_sort == sigs@[k].2
                &&& bodies_read(
                    old(self).src@,
                    old(self).toks@,
                    old(self).pos as int,
                    defs@,
                ) == Some(final(self).pos as int)
            },
            terms_count_end(
                old(self).src@,
                old(self).toks@,
                old(self).pos as int,
                sigs@.len(),
            ) matches Some(r)
                ==> res is Some && final(self).pos == r && final(self).diagnostics@ == old(self).diagnostics@,
            final(self).clean_since(*old(self)) ==> terms_count_end(old(self).src@, old(self).toks@, old(self).pos as int, sigs@.len()) is Some,
    {
        let ghost src = self.src@;
        let ghost toks = self.toks@;
        let ghost p = self.pos as int;
        let ghost sig_seq = sigs@;
        let ghost total = terms_count_end(src, toks, p, sig_seq.len());
        let mut defs: Vec<FunDef> = Vec::new();
        for sig in it: sigs
            invariant
                self.follows(*old(self)),
                src == old(self).src@ && toks == old(self).toks@,
                p == old(self).pos,
                it.seq() == sig_seq,
                defs@.len() == it.index(),
                forall|k: int|
                    0 <= k < defs@.len() ==> (#[trigger] defs@[k]).name == sig_seq[k].0 && defs@[k].params@
                        == sig_seq[k].1@ && defs@[k].result_sort == sig_seq[k].2,
                bodies_read(src, toks, p, defs@) == Some(self.pos as int),
                total == terms_count_end(src, toks, p, sig_seq.len()),
                total is Some ==> {
                    &&& terms_count_end(
                        src,
                        toks,
                        self.pos as int,
                        (sig_seq.len() - it.index()) as nat,
                    ) == total
                    &&& self.diagnostics@ == old(self).diagnostics@
                },
                self.clean_since(*old(self)) ==> terms_count_end(
                    src,
                    toks,
                    self.pos as int,
                    (sig_seq.len() - it.index()) as nat,
                ) == total,
        {
            let (name, params, result_sort) = sig;
            let body = self.parse_term()?;
            let ghost before = defs@;
            defs.push(FunDef { name, params, result_sort, body });
            proof {
                assert(defs@.drop_last() =~= before);
            }
        }
        Some(defs)
    }

    #[verifier::spinoff_prover]
    #[verifier::rlimit(100)]
    fn parse_define_funs_rec(&mut self) -> (res: Option<Command>)
        requires
            old(self).wf(),
        ensures
            res matches Some(c) ==> command_args_read(
                old(self).src@,
                old(self).toks@,
                old(self).pos as int,
                c,
            ) == Some(final(self).pos as int),
            final(self).accepts(
                *old(self),
                funs_rec_args_end(old(self).src@, old(self).toks@, old(self).pos as int),
                res is Some,
            ),
            final(self).follows(*old(self)),
            res matches Some(c) ==> c is DefineFunsRec,
    {
        let ghost src = self.src@;
        let ghost toks = self.toks@;
        let ghost p = self.pos as int;
        // ( define-funs-rec ( (sig)+ ) ( term+ ) )
        self.expect_lparen()?;
        let sigs = self.parse_signatures()?;
        self.expect_rparen()?;
        let ghost q = self.pos as int;
        let ghost sig_seq = sigs@;
        self.expect_lparen()?;
        let defs = self.parse_bodies(sigs)?;
        let ghost r = self.pos as int;
        self.expect_rparen()?;
        proof {
            lemma_signatures_of_triples(src, toks, p + 1, defs@, sig_seq);
            lemma_funs_rec_read(src, toks, p, q, r, defs);
        }
        Some(Command::DefineFunsRec(defs))
    }

    #[verifier::spinoff_prover]
    #[verifier::rlimit(60)]
    fn parse_declare_datatype(&mut self) -> (res: Option<Command>)
        requires
            old(self).wf(),
        ensures
            res matches Some(c) ==> command_args_read(
                old(self).src@,
                old(self).toks@,
                old(self).pos as int,
                c,
            ) == Some(final(self).pos as int),
            final(self).accepts(
                *old(self),
                declare_datatype_args_end(old(self).src@, old(self).toks@, old(self).pos as int),
                res is Some,
            ),
            final(self).follows(*old(self)),
            res matches Some(c) ==> c matches Command::DeclareDatatype(
                name,
                _,
            ) && names_symbol(old(self).src@, old(self).toks@, old(self).pos as int, name),
    {
        let name = self.parse_spanned_symbol()?;
        let dec = self.parse_datatype_dec()?;
        reveal(command_args_read);
        Some(Command::DeclareDatatype(name, dec))
    }

    #[verifier::spinoff_prover]
    #[verifier::rlimit(100)]
    fn parse_declare_datatypes(&mut self) -> (res: Option<Command>)
        requires
            old(self).wf(),
        ensures
            res matches Some(c) ==> command_args_read(
                old(self).src@,
                old(self).toks@,
                old(self).pos as int,
                c,
            ) == Some(final(self).pos as int),
            final(self).accepts(
                *old(self),
                datatypes_args_end(old(self).src@, old(self).toks@, old(self).pos as int),
                res is Some,
            ),
            final(self).follows(*old(self)),
            res matches Some(c) ==> c is DeclareDatatypes,
    {
        let ghost goal = datatypes_args_end(self.src@, self.toks@, self.pos as int);
        let ghost p = self.pos as int;
        // Supports both syntaxes:
        // SMT-LIB 2.6: (declare-datatypes ((name arity)+) (dec+))
        // Z3 legacy:   (declare-datatypes () ((TypeName (Ctor ...) ...)+))
        self.expect_lparen()?;

        if self.peek_is(TokenKind::RParen) {
            // Z3 legacy syntax: (declare-datatypes () ((TypeName ctors...) ...))
            self.expect_rparen()?;
            self.expect_lparen()?;
            let mut sort_decs: Vec<(Spanned<Symbol>, u64)> = Vec::new();
            let mut decs: Vec<Spanned<DatatypeDec>> = Vec::new();
            while !self.peek_is(TokenKind::RParen)
                invariant
                    kind_at(self.toks@, p, TokenKind::LParen) && kind_at(self.toks@, p + 1, TokenKind::RParen)
                        && kind_at(self.toks@, p + 2, TokenKind::LParen),
                    sort_decs@.len() == decs@.len(),
                    legacy_entries_read(
                        self.src@,
                        self.toks@,
                        p + 3,
                        sort_decs@,
                        decs@,
                    ) == Some(self.pos as int),
                    goal == datatypes_args_end(old(self).src@, old(self).toks@, old(self).pos as int),
                    goal is Some ==> legacy_datatypes_close_end(
                        self.src@,
                        self.toks@,
                        self.pos as int,
                    ) == goal
                        && self.diagnostics@ == old(self).diagnostics@,
                    self.clean_since(*old(self)) ==> legacy_datatypes_close_end(self.src@, self.toks@, self.pos as int) == goal,
                    self.follows(*old(self)),
                decreases self.toks@.len() - self.pos,
            {
                let ghost sorts_before = sort_decs@;
                let ghost decs_before = decs@;
                let (name, dec) = self.parse_legacy_entry()?;
                sort_decs.push((name, 0u64));
                decs.push(dec);
                proof {
                    assert(sort_decs@.drop_last() =~= sorts_before);
                    assert(decs@.drop_last() =~= decs_before);
                }
            }
            self.expect_rparen()?;
            reveal(command_args_read);
            Some(Command::DeclareDatatypes(sort_decs, decs))
        } else {
            // SMT-LIB 2.6 syntax: (declare-datatypes ((name arity)+) (dec+))
            let mut sort_decs: Vec<(Spanned<Symbol>, u64)> = Vec::new();
            let ghost smid = sort_decs_close_end(self.toks@, self.pos as int);
            while !self.peek_is(TokenKind::RParen)
                invariant
                    kind_at(
                        self.toks@,
                        p,
                        TokenKind::LParen,
                    ) && !kind_at(self.toks@, p + 1, TokenKind::RParen),
                    sort_decs_read(self.src@, self.toks@, p + 1, sort_decs@) == Some(self.pos as int),
                    goal == datatypes_args_end(old(self).src@, old(self).toks@, old(self).pos as int),
                    smid == sort_decs_close_end(old(self).toks@, old(self).pos as int + 1),
                    goal is Some ==> smid is Some && kind_at(self.toks@, smid->0, TokenKind::LParen)
                        && datatype_decs_close_end(self.src@, self.toks@, smid->0 + 1) == goal
                        && sort_decs_close_end(
                            self.toks@,
                            self.pos as int,
                        ) == smid && self.diagnostics@ == old(self).diagnostics@,
                    self.clean_since(*old(self)) ==> sort_decs_close_end(self.toks@, self.pos as int) == smid,
                    self.follows(*old(self)),
                decreases self.toks@.len() - self.pos,
            {
                let ghost before = sort_decs@;
                let ghost p0 = self.pos as int;
                sort_decs.push(self.parse_sort_dec()?);
                proof {
                    assert(sort_decs@.drop_last() =~= before);
                    if self.clean_since(*old(self)) {
                        assert(sort_decs_close_end(self.toks@, p0) == sort_decs_close_end(self.toks@, p0 + 4));
                    }
                }
            }
            self.expect_rparen()?;
            let ghost q = self.pos as int;

            self.expect_lparen()?;
            let mut decs: Vec<Spanned<DatatypeDec>> = Vec::new();
            while !self.peek_is(TokenKind::RParen)
                invariant
                    kind_at(
                        self.toks@,
                        p,
                        TokenKind::LParen,
                    ) && !kind_at(self.toks@, p + 1, TokenKind::RParen),
                    then_close(
                        self.toks@,
                        sort_decs_read(self.src@, self.toks@, p + 1, sort_decs@),
                    ) == Some(q),
                    kind_at(self.toks@, q, TokenKind::LParen),
                    datatype_decs_read(self.src@, self.toks@, q + 1, decs@) == Some(self.pos as int),
                    goal == datatypes_args_end(old(self).src@, old(self).toks@, old(self).pos as int),
                    goal is Some ==> datatype_decs_close_end(self.src@, self.toks@, self.pos as int) == goal
                        && self.diagnostics@ == old(self).diagnostics@,
                    self.clean_since(*old(self)) ==> datatype_decs_close_end(self.src@, self.toks@, self.pos as int) == goal,
                    self.follows(*old(self)),
                decreases self.toks@.len() - self.pos,
            {
                let ghost before = decs@;
                decs.push(self.parse_datatype_dec()?);
                proof {
                    assert(decs@.drop_last() =~= before);
                }
            }
            self.expect_rparen()?;

            reveal(command_args_read);
            Some(Command::DeclareDatatypes(sort_decs, decs))
        }
    }

    /// One entry `(name constructor*)` of the older `declare-datatypes`
    /// syntax: the sort's name, and its datatype, which spans the entry.
    #[verifier::spinoff_prover]
    #[verifier::rlimit(60)]
    fn parse_legacy_entry(&mut self) -> (res: Option<(Spanned<Symbol>, Spanned<DatatypeDec>)>)
        requires
            old(self).wf(),
        ensures
            final(self).follows(*old(self)),
            ({
                let src = old(self).src@;
                let toks = old(self).toks@;
                let p = old(self).pos as int;
                kind_at(
                    toks,
                    p,
                    TokenKind::LParen,
                ) && symbol_at(toks, p + 1) ==> match constructors_close_end(src, toks, p + 2) {
                    Some(q) => p < q <= toks.len() ==> res is Some && final(self).pos == q
                        && final(self).diagnostics@ == old(self).diagnostics@,
                    None => true,
                }
            }),
            final(self).clean_since(*old(self)) ==> kind_at(old(self).toks@, old(self).pos as int, TokenKind::LParen)
                && symbol_at(old(self).toks@, old(self).pos + 1) && constructors_close_end(
                old(self).src@,
                old(self).toks@,
                old(self).pos + 2,
            ) == Some(final(self).pos as int) && old(self).pos < final(self).pos,
            res matches Some(entry) ==> {
                let src = old(self).src@;
                let toks = old(self).toks@;
                let p = old(self).pos as int;
                &&& kind_at(toks, p, TokenKind::LParen)
                &&& spanned_symbol_read(src, toks, p + 1, entry.0) == Some(p + 2)
                &&& entry.1.node.params@.len() == 0
                &&& spans_to(
                    toks,
                    p,
                    then_close(toks, constructors_read(src, toks, p + 2, entry.1.node.constructors@)),
                    entry.1.span,
                ) == Some(final(self).pos as int)
            },
    {
        let lp = self.expect_lparen()?;
        let name = self.parse_spanned_symbol()?;
        let ctors = self.parse_constructor_list()?;
        let rp = self.expect_rparen()?;
        let dec = Spanned::new(
            DatatypeDec { params: Vec::new(), constructors: ctors },
            Span::new(lp.span.start, rp.span.end),
        );
        Some((name, dec))
    }

    /// One sort declaration `(name arity)` of `declare-datatypes`.
    fn parse_sort_dec(&mut self) -> (res: Option<(Spanned<Symbol>, u64)>)
        requires
            old(self).wf(),
        ensures
            final(self).follows(*old(self)),
            ({
                let toks = old(self).toks@;
                let p = old(self).pos as int;
                kind_at(
                    toks,
                    p,
                    TokenKind::LParen,
                ) && symbol_at(toks, p + 1) && kind_at(toks, p + 2, TokenKind::Numeral)
                    && kind_at(toks, p + 3, TokenKind::RParen) ==> res is Some && final(self).pos == p + 4
                    && final(self).diagnostics@ == old(self).diagnostics@
            }),
            final(self).clean_since(*old(self)) ==> kind_at(old(self).toks@, old(self).pos as int, TokenKind::LParen)
                && symbol_at(old(self).toks@, old(self).pos + 1) && kind_at(
                old(self).toks@,
                old(self).pos + 2,
                TokenKind::Numeral,
            ) && kind_at(old(self).toks@, old(self).pos + 3, TokenKind::RParen),
            res matches Some(d) ==> {
                let src = old(self).src@;
                let toks = old(self).toks@;
                let p = old(self).pos as int;
                &&& kind_at(toks, p, TokenKind::LParen)
                &&& spanned_symbol_read(src, toks, p + 1, d.0) == Some(p + 2)
                &&& kind_at(toks, p + 2, TokenKind::Numeral)
                &&& kind_at(toks, p + 3, TokenKind::RParen)
                &&& d.1 == numeral_value(src, toks[p + 2])
                &&& final(self).pos == p + 4
            },
    {
        self.expect_lparen()?;
        let name = self.parse_spanned_symbol()?;
        let arity = self.parse_numeral_value()?;
        self.expect_rparen()?;
        Some((name, arity))
    }

    fn parse_assert(&mut self) -> (res: Option<Command>)
        requires
            old(self).wf(),
        ensures
            res matches Some(c) ==> command_args_read(
                old(self).src@,
                old(self).toks@,
                old(self).pos as int,
                c,
            ) == Some(final(self).pos as int),
            final(self).accepts(
                *old(self),
                term_end(old(self).src@, old(self).toks@, old(self).pos as int),
                res is Some,
            ),
            final(self).follows(*old(self)),
            res matches Some(c) ==> c is Assert,
    {
        let term = self.parse_term()?;
        reveal(command_args_read);
        Some(Command::Assert(term))
    }

    #[verifier::spinoff_prover]
    #[verifier::rlimit(60)]
    fn parse_check_sat_assuming(&mut self) -> (res: Option<Command>)
        requires
            old(self).wf(),
        ensures
            res matches Some(c) ==> command_args_read(
                old(self).src@,
                old(self).toks@,
                old(self).pos as int,
                c,
            ) == Some(final(self).pos as int),
            final(self).accepts(
                *old(self),
                term_list_end(old(self).src@, old(self).toks@, old(self).pos as int),
                res is Some,
            ),
            final(self).follows(*old(self)),
            res matches Some(c) ==> c is CheckSatAssuming,
    {
        let ghost goal = term_list_end(self.src@, self.toks@, self.pos as int);
        self.expect_lparen()?;
        let mut terms: Vec<Spanned<Term>> = Vec::new();
        while !self.peek_is(TokenKind::RParen)
            invariant
                terms_read(self.src@, self.toks@, old(self).pos + 1, terms@) == Some(self.pos as int),
                kind_at(self.toks@, old(self).pos as int, TokenKind::LParen),
                goal == term_list_end(old(self).src@, old(self).toks@, old(self).pos as int),
                goal is Some ==> terms_close_end(
                    self.src@,
                    self.toks@,
                    self.pos as int,
                ) == goal && self.diagnostics@ == old(self).diagnostics@,
                self.clean_since(*old(self)) ==> terms_close_end(self.src@, self.toks@, self.pos as int) == goal,
                self.follows(*old(self)),
            decreases self.toks@.len() - self.pos,
        {
            let ghost before = terms@;
            terms.push(self.parse_term()?);
            proof {
                assert(terms@.drop_last() =~= before);
            }
        }
        self.expect_rparen()?;
        reveal(command_args_read);
        Some(Command::CheckSatAssuming(terms))
    }

    fn parse_push(&mut self) -> (res: Option<Command>)
        requires
            old(self).wf(),
        ensures
            res matches Some(c) ==> command_args_read(
                old(self).src@,
                old(self).toks@,
                old(self).pos as int,
                c,
            ) == Some(final(self).pos as int),
            final(self).accepts(
                *old(self),
                optional_numeral_end(old(self).toks@, old(self).pos as int),
                res is Some,
            ),
            final(self).follows(*old(self)),
            res == Some(
                Command::Push(optional_numeral(old(self).src@, old(self).toks@, old(self).pos as int, 1)),
            ),
    {
        let n = if self.peek_is(TokenKind::Numeral) {
            self.parse_numeral_value()?
        } else {
            1
        };
        reveal(command_args_read);
        Some(Command::Push(n))
    }

    fn parse_pop(&mut self) -> (res: Option<Command>)
        requires
            old(self).wf(),
        ensures
            res matches Some(c) ==> command_args_read(
                old(self).src@,
                old(self).toks@,
                old(self).pos as int,
                c,
            ) == Some(final(self).pos as int),
            final(self).accepts(
                *old(self),
                optional_numeral_end(old(self).toks@, old(self).pos as int),
                res is Some,
            ),
            final(self).follows(*old(self)),
            res == Some(
                Command::Pop(optional_numeral(old(self).src@, old(self).toks@, old(self).pos as int, 1)),
            ),
    {
        let n = if self.peek_is(TokenKind::Numeral) {
            self.parse_numeral_value()?
        } else {
            1
        };
        reveal(command_args_read);
        Some(Command::Pop(n))
    }

    #[verifier::spinoff_prover]
    #[verifier::rlimit(60)]
    fn parse_get_value(&mut self) -> (res: Option<Command>)
        requires
            old(self).wf(),
        ensures
            res matches Some(c) ==> command_args_read(
                old(self).src@,
                old(self).toks@,
                old(self).pos as int,
                c,
            ) == Some(final(self).pos as int),
            final(self).accepts(
                *old(self),
                term_list_end(old(self).src@, old(self).toks@, old(self).pos as int),
                res is Some,
            ),
            final(self).follows(*old(self)),
            res matches Some(c) ==> c is GetValue,
    {
        let ghost goal = term_list_end(self.src@, self.toks@, self.pos as int);
        self.expect_lparen()?;
        let mut terms: Vec<Spanned<Term>> = Vec::new();
        while !self.peek_is(TokenKind::RParen)
            invariant
                terms_read(self.src@, self.toks@, old(self).pos + 1, terms@) == Some(self.pos as int),
                kind_at(self.toks@, old(self).pos as int, TokenKind::LParen),
                goal == term_list_end(old(self).src@, old(self).toks@, old(self).pos as int),
                goal is Some ==> terms_close_end(
                    self.src@,
                    self.toks@,
                    self.pos as int,
                ) == goal && self.diagnostics@ == old(self).diagnostics@,
                self.clean_since(*old(self)) ==> terms_close_end(self.src@, self.toks@, self.pos as int) == goal,
                self.follows(*old(self)),
            decreases self.toks@.len() - self.pos,
        {
            let ghost before = terms@;
            terms.push(self.parse_term()?);
            proof {
                assert(terms@.drop_last() =~= before);
            }
        }
        self.expect_rparen()?;
        reveal(command_args_read);
        Some(Command::GetValue(terms))
    }

    fn parse_echo(&mut self) -> (res: Option<Command>)
        requires
            old(self).wf(),
        ensures
            res matches Some(c) ==> command_args_read(
                old(self).src@,
                old(self).toks@,
                old(self).pos as int,
                c,
            ) == Some(final(self).pos as int),
            final(self).accepts(
                *old(self),
                one_end(old(self).toks@, old(self).pos as int, TokenKind::StringLiteral),
                res is Some,
            ),
            final(self).follows(*old(self)),
            res matches Some(c) ==> c matches Command::Echo(text) && old(self).pos < old(
                self,
            ).toks@.len() && text@ == string_literal_value(
                old(self).src@,
                old(self).toks@[old(self).pos as int],
            ),
    {
        let tok = self.expect(TokenKind::StringLiteral)?;
        let text = self.string_value(&tok);
        reveal(command_args_read);
        Some(Command::Echo(text))
    }

    #[verifier::spinoff_prover]
    #[verifier::rlimit(60)]
    fn parse_unknown_command(&mut self, name_tok: Token) -> (res: Option<Command>)
        requires
            old(self).wf(),
            name_tok.span.start < name_tok.span.end <= old(self).src@.len(),
        ensures
            res matches Some(c) ==> command_args_read(
                old(self).src@,
                old(self).toks@,
                old(self).pos as int,
                c,
            ) == Some(final(self).pos as int),
            final(self).accepts(
                *old(self),
                unknown_args_end(old(self).toks@, old(self).pos as int),
                res is Some,
            ),
            final(self).follows(*old(self)),
            res matches Some(c) ==> c matches Command::Unknown(name, _) && name@ == text_of(
                token_bytes(old(self).src@, name_tok),
            ),
    {
        let ghost goal = unknown_args_end(self.toks@, self.pos as int);
        let name = self.text_string(name_tok.span.start, name_tok.span.end);
        let mut args: Vec<Spanned<SExpr>> = Vec::new();
        while self.peek().is_some() && !self.peek_is(TokenKind::RParen)
            invariant
                sexprs_read(self.src@, self.toks@, old(self).pos as int, args@) == Some(self.pos as int),
                goal == unknown_args_end(old(self).toks@, old(self).pos as int),
                goal is Some ==> unknown_args_end(
                    self.toks@,
                    self.pos as int,
                ) == goal && self.diagnostics@ == old(self).diagnostics@,
                self.clean_since(*old(self)) ==> unknown_args_end(self.toks@, self.pos as int) == goal,
                self.follows(*old(self)),
            decreases self.toks@.len() - self.pos,
        {
            let ghost before = args@;
            args.push(self.parse_sexpr()?);
            proof {
                assert(args@.drop_last() =~= before);
            }
        }
        reveal(command_args_read);
        Some(Command::Unknown(name, args))
    }

    // -----------------------------------------------------------------------
    // Fun def helper
    // -----------------------------------------------------------------------

    #[verifier::spinoff_prover]
    #[verifier::rlimit(60)]
    fn parse_fun_def(&mut self) -> (res: Option<FunDef>)
        requires
            old(self).wf(),
        ensures
            res matches Some(d) ==> fun_def_read(
                old(self).src@,
                old(self).toks@,
                old(self).pos as int,
                d,
            ) == Some(final(self).pos as int),
            final(self).accepts(
                *old(self),
                fun_def_end(old(self).src@, old(self).toks@, old(self).pos as int),
                res is Some,
            ),
            final(self).follows(*old(self)),
            res matches Some(d) ==> names_symbol(
                old(self).src@,
                old(self).toks@,
                old(self).pos as int,
                d.name,
            ),
    {
        let name = self.parse_spanned_symbol()?;
        self.expect_lparen()?;
        let params = self.parse_sorted_var_list()?;
        self.expect_rparen()?;
        let result_sort = self.parse_sort()?;
        let body = self.parse_term()?;
        Some(FunDef { name, params, result_sort, body })
    }

    // -----------------------------------------------------------------------
    // Datatypes
    // -----------------------------------------------------------------------

    #[verifier::spinoff_prover]
    #[verifier::rlimit(60)]
    fn parse_datatype_dec(&mut self) -> (res: Option<Spanned<DatatypeDec>>)
        requires
            old(self).wf(),
        ensures
            final(self).accepts(
                *old(self),
                datatype_dec_end(old(self).src@, old(self).toks@, old(self).pos as int),
                res is Some,
            ),
            final(self).follows(*old(self)),
            res matches Some(d) ==> final(self).spans_read(old(self).pos as int, d.span),
            res matches Some(d) ==> datatype_dec_read(
                old(self).src@,
                old(self).toks@,
                old(self).pos as int,
                d,
            ) == Some(final(self).pos as int),
    {
        let lparen = self.expect_lparen()?;
        let start = lparen.span.start;

        // Check for parametric: (par (params) (constructors))
        let (params, constructors) = if self.peek_is_symbol("par") {
            self.next();  // consume 'par'
            self.parse_par_body()?
        } else {
            (Vec::new(), self.parse_constructor_list()?)
        };

        let rparen = self.expect_rparen()?;
        let end = rparen.span.end;

        Some(Spanned::new(DatatypeDec { params, constructors }, Span::new(start, end)))
    }

    /// The rest of a parametric datatype declaration after `par`:
    /// `(symbol*) (constructor*)`.
    #[verifier::spinoff_prover]
    #[verifier::rlimit(60)]
    fn parse_par_body(&mut self) -> (res: Option<(Vec<Spanned<Symbol>>, Vec<Spanned<ConstructorDec>>)>)
        requires
            old(self).wf(),
        ensures
            final(self).follows(*old(self)),
            ({
                let src = old(self).src@;
                let toks = old(self).toks@;
                let p = old(self).pos as int;
                kind_at(toks, p, TokenKind::LParen) ==> match symbols_close_end(toks, p + 1) {
                    Some(q) => kind_at(
                        toks,
                        q,
                        TokenKind::LParen,
                    ) ==> match constructors_close_end(src, toks, q + 1) {
                        Some(r) => res is Some && final(self).pos == r && final(self).diagnostics@ == old(self).diagnostics@,
                        None => true,
                    },
                    None => true,
                }
            }),
            final(self).clean_since(*old(self)) ==> kind_at(old(self).toks@, old(self).pos as int, TokenKind::LParen)
                && match symbols_close_end(old(self).toks@, old(self).pos + 1) {
                Some(q) => kind_at(old(self).toks@, q, TokenKind::LParen) && constructors_close_end(
                    old(self).src@,
                    old(self).toks@,
                    q + 1,
                ) is Some,
                None => false,
            },
            res matches Some(body) ==> {
                let src = old(self).src@;
                let toks = old(self).toks@;
                let p = old(self).pos as int;
                &&& kind_at(toks, p, TokenKind::LParen)
                &&& match then_close(toks, spanned_symbols_read(src, toks, p + 1, body.0@)) {
                    Some(q) => kind_at(toks, q, TokenKind::LParen) && then_close(
                        toks,
                        constructors_read(src, toks, q + 1, body.1@),
                    ) == Some(final(self).pos as int),
                    None => false,
                }
            },
    {
        self.expect_lparen()?;
        let params = self.parse_symbol_list()?;
        self.expect_rparen()?;
        self.expect_lparen()?;
        let constructors = self.parse_constructor_list()?;
        self.expect_rparen()?;
        Some((params, constructors))
    }

    /// Sorted variables up to the `)` that closes their list (not read).
    #[verifier::spinoff_prover]
    #[verifier::rlimit(60)]
    fn parse_sorted_var_list(&mut self) -> (res: Option<Vec<Spanned<SortedVar>>>)
        requires
            old(self).wf(),
        ensures
            final(self).follows(*old(self)),
            res matches Some(vs) ==> sorted_vars_read(
                old(self).src@,
                old(self).toks@,
                old(self).pos as int,
                vs@,
            )
                == Some(final(self).pos as int) && kind_at(
                    final(self).toks@,
                    final(self).pos as int,
                    TokenKind::RParen,
                ),
            vars_close_end(
                old(self).src@,
                old(self).toks@,
                old(self).pos as int,
            ) matches Some(e) ==> res is Some
                && e == final(self).pos + 1 && final(self).diagnostics@ == old(self).diagnostics@,
            final(self).clean_since(*old(self)) ==> vars_close_end(old(self).src@, old(self).toks@, old(self).pos as int) is Some,
    {
        let ghost goal = vars_close_end(self.src@, self.toks@, self.pos as int);
        let mut vars: Vec<Spanned<SortedVar>> = Vec::new();
        while !self.peek_is(TokenKind::RParen)
            invariant
                sorted_vars_read(self.src@, self.toks@, old(self).pos as int, vars@) == Some(self.pos as int),
                goal == vars_close_end(old(self).src@, old(self).toks@, old(self).pos as int),
                goal is Some ==> vars_close_end(self.src@, self.toks@, self.pos as int) == goal
                    && self.diagnostics@ == old(self).diagnostics@,
                self.clean_since(*old(self)) ==> vars_close_end(self.src@, self.toks@, self.pos as int) == goal,
                self.follows(*old(self)),
            decreases self.toks@.len() - self.pos,
        {
            let ghost before = vars@;
            vars.push(self.parse_sorted_var()?);
            proof {
                assert(vars@.drop_last() =~= before);
            }
        }
        Some(vars)
    }

    /// Symbols up to the `)` that closes their list (not read).
    fn parse_symbol_list(&mut self) -> (res: Option<Vec<Spanned<Symbol>>>)
        requires
            old(self).wf(),
        ensures
            final(self).follows(*old(self)),
            res matches Some(ss) ==> spanned_symbols_read(
                old(self).src@,
                old(self).toks@,
                old(self).pos as int,
                ss@,
            )
                == Some(final(self).pos as int) && kind_at(
                    final(self).toks@,
                    final(self).pos as int,
                    TokenKind::RParen,
                ),
            symbols_close_end(old(self).toks@, old(self).pos as int) matches Some(e) ==> res is Some
                && e == final(self).pos + 1 && final(self).diagnostics@ == old(self).diagnostics@,
            final(self).clean_since(*old(self)) ==> symbols_close_end(old(self).toks@, old(self).pos as int) is Some,
    {
        let ghost goal = symbols_close_end(self.toks@, self.pos as int);
        let mut syms: Vec<Spanned<Symbol>> = Vec::new();
        while !self.peek_is(TokenKind::RParen)
            invariant
                spanned_symbols_read(
                    self.src@,
                    self.toks@,
                    old(self).pos as int,
                    syms@,
                ) == Some(self.pos as int),
                goal == symbols_close_end(old(self).toks@, old(self).pos as int),
                goal is Some ==> symbols_close_end(self.toks@, self.pos as int) == goal
                    && self.diagnostics@ == old(self).diagnostics@,
                self.clean_since(*old(self)) ==> symbols_close_end(self.toks@, self.pos as int) == goal,
                self.follows(*old(self)),
            decreases self.toks@.len() - self.pos,
        {
            let ghost before = syms@;
            syms.push(self.parse_spanned_symbol()?);
            proof {
                assert(syms@.drop_last() =~= before);
            }
        }
        Some(syms)
    }

    /// Constructor declarations up to the `)` that closes their list (not
    /// read).
    #[verifier::spinoff_prover]
    #[verifier::rlimit(60)]
    fn parse_constructor_list(&mut self) -> (res: Option<Vec<Spanned<ConstructorDec>>>)
        requires
            old(self).wf(),
        ensures
            final(self).follows(*old(self)),
            res matches Some(cs) ==> constructors_read(
                old(self).src@,
                old(self).toks@,
                old(self).pos as int,
                cs@,
            )
                == Some(final(self).pos as int) && kind_at(
                    final(self).toks@,
                    final(self).pos as int,
                    TokenKind::RParen,
                ),
            constructors_close_end(
                old(self).src@,
                old(self).toks@,
                old(self).pos as int,
            ) matches Some(e) ==> res is Some
                && e == final(self).pos + 1 && final(self).diagnostics@ == old(self).diagnostics@,
            final(self).clean_since(*old(self)) ==> constructors_close_end(old(self).src@, old(self).toks@, old(self).pos as int) is Some,
    {
        let ghost goal = constructors_close_end(self.src@, self.toks@, self.pos as int);
        let mut constructors: Vec<Spanned<ConstructorDec>> = Vec::new();
        while !self.peek_is(TokenKind::RParen)
            invariant
                constructors_read(
                    self.src@,
                    self.toks@,
                    old(self).pos as int,
                    constructors@,
                ) == Some(self.pos as int),
                goal == constructors_close_end(old(self).src@, old(self).toks@, old(self).pos as int),
                goal is Some ==> constructors_close_end(self.src@, self.toks@, self.pos as int) == goal
                    && self.diagnostics@ == old(self).diagnostics@,
                self.clean_since(*old(self)) ==> constructors_close_end(self.src@, self.toks@, self.pos as int) == goal,
                self.follows(*old(self)),
            decreases self.toks@.len() - self.pos,
        {
            let ghost before = constructors@;
            constructors.push(self.parse_constructor_dec()?);
            proof {
                assert(constructors@.drop_last() =~= before);
            }
        }
        Some(constructors)
    }

    #[verifier::spinoff_prover]
    #[verifier::rlimit(40)]
    fn parse_constructor_dec(&mut self) -> (res: Option<Spanned<ConstructorDec>>)
        requires
            old(self).wf(),
        ensures
            final(self).accepts(
                *old(self),
                constructor_end(old(self).src@, old(self).toks@, old(self).pos as int),
                res is Some,
            ),
            final(self).follows(*old(self)),
            res matches Some(d) ==> final(self).spans_read(old(self).pos as int, d.span),
            res matches Some(d) ==> constructor_read(
                old(self).src@,
                old(self).toks@,
                old(self).pos as int,
                d,
            ) == Some(final(self).pos as int),
    {
        let ghost goal = constructor_end(self.src@, self.toks@, self.pos as int);
        let lparen = self.expect_lparen()?;
        let start = lparen.span.start;
        let name = self.parse_spanned_symbol()?;
        let ghost q0 = self.pos as int;
        let mut selectors: Vec<SelectorDec> = Vec::new();
        while !self.peek_is(TokenKind::RParen)
            invariant
                kind_at(self.toks@, old(self).pos as int, TokenKind::LParen),
                start == self.toks@[old(self).pos as int].span.start,
                spanned_symbol_read(self.src@, self.toks@, old(self).pos + 1, name) == Some(q0),
                selectors_read(self.src@, self.toks@, q0, selectors@) == Some(self.pos as int),
                goal == constructor_end(old(self).src@, old(self).toks@, old(self).pos as int),
                goal is Some ==> vars_close_end(
                    self.src@,
                    self.toks@,
                    self.pos as int,
                ) == goal && self.diagnostics@ == old(self).diagnostics@,
                self.clean_since(*old(self)) ==> vars_close_end(self.src@, self.toks@, self.pos as int) == goal,
                self.follows(*old(self)),
                old(self).pos < self.pos,
            decreases self.toks@.len() - self.pos,
        {
            proof {
                if goal is Some {
                    lemma_var_step(self.src@, self.toks@, self.pos as int);
                }
            }
            let ghost before = selectors@;
            let ghost p0 = self.pos as int;
            self.expect_lparen()?;
            let sel_name = self.parse_spanned_symbol()?;
            let sel_sort = self.parse_sort()?;
            let ghost s0 = self.pos as int;
            self.expect_rparen()?;
            selectors.push(SelectorDec { name: sel_name, sort: sel_sort });
            proof {
                assert(selectors@.drop_last() =~= before);
                if self.clean_since(*old(self)) {
                    assert(sort_end(self.src@, self.toks@, p0 + 2) == Some(s0));
                    assert(sorted_var_end(self.src@, self.toks@, p0) == Some(s0 + 1));
                    assert(vars_close_end(self.src@, self.toks@, p0) == vars_close_end(
                        self.src@,
                        self.toks@,
                        s0 + 1,
                    ));
                }
            }
        }
        let rparen = self.expect_rparen()?;
        Some(Spanned::new(ConstructorDec { name, selectors }, Span::new(start, rparen.span.end)))
    }
}

fn is_literal(kind: TokenKind) -> (res: bool)
    ensures
        res == is_literal_kind(kind),
{
    match kind {
        TokenKind::Numeral | TokenKind::Decimal | TokenKind::Hexadecimal | TokenKind::Binary
        | TokenKind::StringLiteral => true,
        _ => false,
    }
}

/// The name of a token kind, as diagnostics print it.
pub open spec fn token_kind_name(kind: TokenKind) -> Seq<char> {
    match kind {
        TokenKind::LParen => "LParen"@,
        TokenKind::RParen => "RParen"@,
        TokenKind::Numeral => "Numeral"@,
        TokenKind::Decimal => "Decimal"@,
        TokenKind::Hexadecimal => "Hexadecimal"@,
        TokenKind::Binary => "Binary"@,
        TokenKind::StringLiteral => "StringLiteral"@,
        TokenKind::Symbol => "Symbol"@,
        TokenKind::QuotedSymbol => "QuotedSymbol"@,
        TokenKind::Keyword => "Keyword"@,
        TokenKind::Comment => "Comment"@,
        TokenKind::Error => "Error"@,
    }
}

/// The name of a token kind, as diagnostics print it.
fn kind_name(kind: TokenKind) -> (res: &'static str)
    ensures
        res@ == token_kind_name(kind),
{
    match kind {
        TokenKind::LParen => "LParen",
        TokenKind::RParen => "RParen",
        TokenKind::Numeral => "Numeral",
        TokenKind::Decimal => "Decimal",
        TokenKind::Hexadecimal => "Hexadecimal",
        TokenKind::Binary => "Binary",
        TokenKind::StringLiteral => "StringLiteral",
        TokenKind::Symbol => "Symbol",
        TokenKind::QuotedSymbol => "QuotedSymbol",
        TokenKind::Keyword => "Keyword",
        TokenKind::Comment => "Comment",
        TokenKind::Error => "Error",
    }
}

/// `u64`'s `from_str` on the bytes `b`.
fn u64_from_bytes(b: &[u8]) -> (res: Option<u64>)
    ensures
        res == u64_from_text(b@),
{
    let start: usize = if b.len() > 0 && b[0] == 43 {
        1
    } else {
        0
    };
    let ghost d = b@.subrange(start as int, b@.len() as int);
    proof {
        assert(d =~= (if b@.len() > 0 && b@[0] == 43 {
            b@.subrange(1, b@.len() as int)
        } else {
            b@
        }));
    }
    if start >= b.len() {
        proof {
            assert(d.len() == 0);
        }
        return None;
    }
    let mut v: u64 = 0;
    let mut overflowed = false;
    let mut i: usize = start;
    while i < b.len()
        invariant
            start <= i <= b@.len(),
            d == b@.subrange(start as int, b@.len() as int),
            d == (if b@.len() > 0 && b@[0] == 43 {
                b@.subrange(1, b@.len() as int)
            } else {
                b@
            }),
            all_digits(d.subrange(0, i - start)),
            !overflowed ==> v == digits_value(d.subrange(0, i - start)),
            overflowed ==> digits_value(d.subrange(0, i - start)) > u64::MAX,
        decreases b@.len() - i,
    {
        let c = b[i];
        if c < 48 || c > 57 {
            proof {
                assert(d[i - start] == c);
            }
            return None;
        }
        proof {
            let p = d.subrange(0, i - start);
            let p1 = d.subrange(0, i + 1 - start);
            assert(p1.drop_last() =~= p);
            assert(p1.last() == c);
            assert(digits_value(p1) == digits_value(p) * 10 + (c - 48));
            assert forall|k: int| 0 <= k < p1.len() implies 48 <= #[trigger] p1[k] <= 57 by {
                if k < p.len() {
                    assert(p1[k] == p[k]);
                }
            }
        }
        if !overflowed {
            match v.checked_mul(10) {
                Some(m) => match m.checked_add((c - 48) as u64) {
                    Some(n) => {
                        v = n;
                    },
                    None => {
                        overflowed = true;
                    },
                },
                None => {
                    overflowed = true;
                },
            }
        }
        i = i + 1;
    }
    proof {
        assert(d.subrange(0, i - start) =~= d);
    }
    if overflowed {
        None
    } else {
        Some(v)
    }
}

} // verus!
