use vstd::prelude::*;
use crate::ast::{
    Spanned, Symbol, Index, Identifier, QualifiedIdentifier, Sort, SortedVar, VarBinding, MatchCase, Term,
    SExpr, AttributeValue, Attribute, MatchPattern, SelectorDec, ConstructorDec, DatatypeDec, FunDef,
    Command,
};
use crate::lexer::{Token, TokenKind, text_of};
use crate::span::Span;
use crate::parser::{
    token_bytes, is_literal_kind, symbol_matches, index_matches, constant_matches, numeral_value,
    string_literal_value,
};
use crate::grammar::{kind_at, symbol_at, spelled_at, word_at};

verus! {

// What each syntax-tree node reads from the tokens. Each `*_read` function takes
// the position `p` of the node's first token and the node, and gives the
// position just past the node's last token when the node is what those tokens
// read as, its span included; nothing otherwise.

/// The span from the start of token `p` to the end of token `q - 1`.
pub open spec fn span_over(toks: Seq<Token>, p: int, q: int) -> Span {
    Span { start: toks[p].span.start, end: toks[q - 1].span.end }
}

/// The span `s` runs over tokens `p` to `q - 1` when `q` is given.
pub open spec fn spans_to(toks: Seq<Token>, p: int, end: Option<int>, s: Span) -> Option<int> {
    match end {
        Some(q) => if p < q && s == span_over(toks, p, q) {
            Some(q)
        } else {
            None
        },
        None => None,
    }
}

/// Then a `)` at `q`.
pub open spec fn then_close(toks: Seq<Token>, end: Option<int>) -> Option<int> {
    match end {
        Some(q) => if kind_at(toks, q, TokenKind::RParen) {
            Some(q + 1)
        } else {
            None
        },
        None => None,
    }
}

/// A symbol token.
pub open spec fn symbol_read(src: Seq<u8>, toks: Seq<Token>, p: int, s: Symbol) -> Option<int> {
    if symbol_at(toks, p) && symbol_matches(src, toks[p], s) {
        Some(p + 1)
    } else {
        None
    }
}

/// A symbol token, with its span.
pub open spec fn spanned_symbol_read(
    src: Seq<u8>,
    toks: Seq<Token>,
    p: int,
    s: Spanned<Symbol>,
) -> Option<int> {
    if symbol_at(toks, p) && symbol_matches(src, toks[p], s.node) && s.span == toks[p].span {
        Some(p + 1)
    } else {
        None
    }
}

/// Symbol tokens, one per symbol.
pub open spec fn symbols_read(src: Seq<u8>, toks: Seq<Token>, p: int, ss: Seq<Symbol>) -> Option<int>
    decreases ss.len(),
{
    if ss.len() == 0 {
        Some(p)
    } else {
        match symbols_read(src, toks, p, ss.drop_last()) {
            Some(q) => symbol_read(src, toks, q, ss.last()),
            None => None,
        }
    }
}

/// Symbol tokens with their spans, one per symbol.
pub open spec fn spanned_symbols_read(
    src: Seq<u8>,
    toks: Seq<Token>,
    p: int,
    ss: Seq<Spanned<Symbol>>,
) -> Option<int>
    decreases ss.len(),
{
    if ss.len() == 0 {
        Some(p)
    } else {
        match spanned_symbols_read(src, toks, p, ss.drop_last()) {
            Some(q) => spanned_symbol_read(src, toks, q, ss.last()),
            None => None,
        }
    }
}

/// A keyword token, its text and span.
pub open spec fn keyword_read(src: Seq<u8>, toks: Seq<Token>, p: int, k: Spanned<String>) -> Option<int> {
    if kind_at(toks, p, TokenKind::Keyword) && k.node@ == text_of(token_bytes(src, toks[p])) && k.span
        == toks[p].span {
        Some(p + 1)
    } else {
        None
    }
}

/// Index tokens, one per index.
pub open spec fn indices_read(src: Seq<u8>, toks: Seq<Token>, p: int, ixs: Seq<Index>) -> Option<int>
    decreases ixs.len(),
{
    if ixs.len() == 0 {
        Some(p)
    } else {
        match indices_read(src, toks, p, ixs.drop_last()) {
            Some(q) => if 0 <= q < toks.len() && index_matches(src, toks[q], ixs.last()) {
                Some(q + 1)
            } else {
                None
            },
            None => None,
        }
    }
}

/// After a `(`: `_`, the symbol, the indices and `)`.
pub open spec fn indexed_read(
    src: Seq<u8>,
    toks: Seq<Token>,
    p: int,
    s: Symbol,
    ixs: Seq<Index>,
) -> Option<int> {
    if word_at(src, toks, p, "_") {
        match symbol_read(src, toks, p + 1, s) {
            Some(q) => then_close(toks, indices_read(src, toks, q, ixs)),
            None => None,
        }
    } else {
        None
    }
}

/// An identifier: a symbol, or `(_ symbol index*)`.
pub open spec fn identifier_read(src: Seq<u8>, toks: Seq<Token>, p: int, id: Identifier) -> Option<int> {
    match id {
        Identifier::Simple(s) => symbol_read(src, toks, p, s),
        Identifier::Indexed(s, ixs) => if kind_at(toks, p, TokenKind::LParen) {
            indexed_read(src, toks, p + 1, s, ixs@)
        } else {
            None
        },
    }
}

/// An identifier with its span.
pub open spec fn spanned_identifier_read(
    src: Seq<u8>,
    toks: Seq<Token>,
    p: int,
    id: Spanned<Identifier>,
) -> Option<int> {
    spans_to(toks, p, identifier_read(src, toks, p, id.node), id.span)
}

/// A sort: an identifier (indexed ones included), or `(identifier sort*)`
/// when the token after `(` is not `_`.
pub open spec fn sort_read(src: Seq<u8>, toks: Seq<Token>, p: int, s: Spanned<Sort>) -> Option<int>
    decreases s,
{
    let end = match s.node {
        Sort::Simple(id) => identifier_read(src, toks, p, id),
        Sort::Parameterized(id, params) => if kind_at(toks, p, TokenKind::LParen) && !word_at(
            src,
            toks,
            p + 1,
            "_",
        ) {
            match identifier_read(src, toks, p + 1, id) {
                Some(q) => then_close(toks, sorts_read(src, toks, q, params@)),
                None => None,
            }
        } else {
            None
        },
    };
    spans_to(toks, p, end, s.span)
}

/// Sorts, one after another.
pub open spec fn sorts_read(src: Seq<u8>, toks: Seq<Token>, p: int, ss: Seq<Spanned<Sort>>) -> Option<int>
    decreases ss,
{
    if ss.len() == 0 {
        Some(p)
    } else {
        match sorts_read(src, toks, p, ss.drop_last()) {
            Some(q) => sort_read(src, toks, q, ss.last()),
            None => None,
        }
    }
}

/// A sorted variable `(symbol sort)`.
pub open spec fn sorted_var_read(
    src: Seq<u8>,
    toks: Seq<Token>,
    p: int,
    v: Spanned<SortedVar>,
) -> Option<int> {
    let end = if kind_at(toks, p, TokenKind::LParen) {
        match spanned_symbol_read(src, toks, p + 1, v.node.name) {
            Some(q) => then_close(toks, sort_read(src, toks, q, v.node.sort)),
            None => None,
        }
    } else {
        None
    };
    spans_to(toks, p, end, v.span)
}

/// Sorted variables, one after another.
pub open spec fn sorted_vars_read(
    src: Seq<u8>,
    toks: Seq<Token>,
    p: int,
    vs: Seq<Spanned<SortedVar>>,
) -> Option<int>
    decreases vs.len(),
{
    if vs.len() == 0 {
        Some(p)
    } else {
        match sorted_vars_read(src, toks, p, vs.drop_last()) {
            Some(q) => sorted_var_read(src, toks, q, vs.last()),
            None => None,
        }
    }
}

/// A qualified identifier whose `(` is token `p`, read after it: `as
/// identifier sort )`, `_ symbol index* )`, or (when neither word follows) an
/// identifier, the span running from the `(` to the identifier's end.
pub open spec fn qualified_rest_read(
    src: Seq<u8>,
    toks: Seq<Token>,
    p: int,
    q: Spanned<QualifiedIdentifier>,
) -> Option<int> {
    if word_at(src, toks, p + 1, "as") {
        match q.node {
            QualifiedIdentifier::As(id, sort) => match spanned_identifier_read(src, toks, p + 2, id) {
                Some(a) => spans_to(toks, p, then_close(toks, sort_read(src, toks, a, sort)), q.span),
                None => None,
            },
            _ => None,
        }
    } else if word_at(src, toks, p + 1, "_") {
        match q.node {
            QualifiedIdentifier::Simple(id) => match id.node {
                Identifier::Indexed(s, ixs) => if id.span == q.span {
                    spans_to(toks, p, indexed_read(src, toks, p + 1, s, ixs@), q.span)
                } else {
                    None
                },
                _ => None,
            },
            _ => None,
        }
    } else {
        match q.node {
            QualifiedIdentifier::Simple(id) => match spanned_identifier_read(src, toks, p + 1, id) {
                Some(a) => spans_to(toks, p, Some(a), q.span),
                None => None,
            },
            _ => None,
        }
    }
}

/// A qualified identifier.
pub open spec fn qualified_read(
    src: Seq<u8>,
    toks: Seq<Token>,
    p: int,
    q: Spanned<QualifiedIdentifier>,
) -> Option<int> {
    if kind_at(toks, p, TokenKind::LParen) {
        qualified_rest_read(src, toks, p, q)
    } else {
        match q.node {
            QualifiedIdentifier::Simple(id) => if q.span == id.span {
                spanned_identifier_read(src, toks, p, id)
            } else {
                None
            },
            _ => None,
        }
    }
}

/// An s-expression.
pub open spec fn sexpr_read(src: Seq<u8>, toks: Seq<Token>, p: int, e: Spanned<SExpr>) -> Option<int>
    decreases e,
{
    let end = match e.node {
        SExpr::Constant(c) => if 0 <= p < toks.len() && is_literal_kind(toks[p].kind)
            && constant_matches(src, toks[p], c) {
            Some(p + 1)
        } else {
            None
        },
        SExpr::Symbol(s) => symbol_read(src, toks, p, s),
        SExpr::Keyword(k) => if kind_at(toks, p, TokenKind::Keyword) && k@ == text_of(
            token_bytes(src, toks[p]),
        ) {
            Some(p + 1)
        } else {
            None
        },
        SExpr::List(items) => if kind_at(toks, p, TokenKind::LParen) {
            then_close(toks, sexprs_read(src, toks, p + 1, items@))
        } else {
            None
        },
    };
    spans_to(toks, p, end, e.span)
}

/// S-expressions, one after another.
pub open spec fn sexprs_read(src: Seq<u8>, toks: Seq<Token>, p: int, es: Seq<Spanned<SExpr>>) -> Option<int>
    decreases es,
{
    if es.len() == 0 {
        Some(p)
    } else {
        match sexprs_read(src, toks, p, es.drop_last()) {
            Some(q) => sexpr_read(src, toks, q, es.last()),
            None => None,
        }
    }
}

/// An attribute value: a literal (as its text), a symbol, or `(s-expression*)`.
pub open spec fn attribute_value_read(
    src: Seq<u8>,
    toks: Seq<Token>,
    p: int,
    v: Spanned<AttributeValue>,
) -> Option<int> {
    let end = match v.node {
        AttributeValue::Constant(text) => if 0 <= p < toks.len() && is_literal_kind(toks[p].kind)
            && text@ == text_of(token_bytes(src, toks[p])) {
            Some(p + 1)
        } else {
            None
        },
        AttributeValue::Symbol(s) => symbol_read(src, toks, p, s),
        AttributeValue::SExpr(items) => if kind_at(toks, p, TokenKind::LParen) {
            then_close(toks, sexprs_read(src, toks, p + 1, items@))
        } else {
            None
        },
        AttributeValue::Nothing => None,
    };
    spans_to(toks, p, end, v.span)
}

/// An attribute: a keyword, and a value unless a keyword, a `)` or the end of
/// input follows.
pub open spec fn attribute_read(src: Seq<u8>, toks: Seq<Token>, p: int, a: Attribute) -> Option<int> {
    match keyword_read(src, toks, p, a.keyword) {
        Some(q) => if q < toks.len() && toks[q].kind != TokenKind::Keyword && toks[q].kind
            != TokenKind::RParen {
            match a.value {
                Some(v) => attribute_value_read(src, toks, q, v),
                None => None,
            }
        } else {
            match a.value {
                Some(_) => None,
                None => Some(q),
            }
        },
        None => None,
    }
}

/// Attributes, one after another.
pub open spec fn attributes_read(src: Seq<u8>, toks: Seq<Token>, p: int, attrs: Seq<Attribute>) -> Option<int>
    decreases attrs.len(),
{
    if attrs.len() == 0 {
        Some(p)
    } else {
        match attributes_read(src, toks, p, attrs.drop_last()) {
            Some(q) => attribute_read(src, toks, q, attrs.last()),
            None => None,
        }
    }
}

/// A match pattern: `(constructor variable*)` or a symbol.
pub open spec fn pattern_read(
    src: Seq<u8>,
    toks: Seq<Token>,
    p: int,
    pat: Spanned<MatchPattern>,
) -> Option<int> {
    let end = if kind_at(toks, p, TokenKind::LParen) {
        match pat.node {
            MatchPattern::Application(ctor, vars) => match symbol_read(src, toks, p + 1, ctor) {
                Some(q) => then_close(toks, symbols_read(src, toks, q, vars@)),
                None => None,
            },
            _ => None,
        }
    } else {
        match pat.node {
            MatchPattern::Symbol(s) => symbol_read(src, toks, p, s),
            _ => None,
        }
    };
    spans_to(toks, p, end, pat.span)
}

/// A term: a literal, a symbol (as a simple qualified identifier), or a
/// compound term.
pub open spec fn term_read(src: Seq<u8>, toks: Seq<Token>, p: int, t: Spanned<Term>) -> Option<int>
    decreases t, 2int,
{
    if 0 <= p < toks.len() && is_literal_kind(toks[p].kind) {
        match t.node {
            Term::Constant(c) => if constant_matches(src, toks[p], c) && t.span == toks[p].span {
                Some(p + 1)
            } else {
                None
            },
            _ => None,
        }
    } else if symbol_at(toks, p) {
        match t.node {
            Term::QualifiedIdentifier(QualifiedIdentifier::Simple(id)) => if id.span == toks[p].span
                && t.span == toks[p].span {
                match id.node {
                    Identifier::Simple(s) => symbol_read(src, toks, p, s),
                    _ => None,
                }
            } else {
                None
            },
            _ => None,
        }
    } else if kind_at(toks, p, TokenKind::LParen) {
        compound_read(src, toks, p, t)
    } else {
        None
    }
}

/// A compound term whose `(` is token `p`: a special form named by the symbol
/// after the `(`, else an application.
pub open spec fn compound_read(src: Seq<u8>, toks: Seq<Token>, p: int, t: Spanned<Term>) -> Option<int>
    decreases t, 1int,
{
    if spelled_at(src, toks, p + 1, "let") {
        let_read(src, toks, p, t)
    } else if spelled_at(src, toks, p + 1, "forall") || spelled_at(src, toks, p + 1, "exists")
        || spelled_at(src, toks, p + 1, "lambda") {
        binder_term_read(src, toks, p, t)
    } else if spelled_at(src, toks, p + 1, "match") {
        match_read(src, toks, p, t)
    } else if spelled_at(src, toks, p + 1, "!") {
        annotated_read(src, toks, p, t)
    } else if spelled_at(src, toks, p + 1, "_") || spelled_at(src, toks, p + 1, "as") {
        match t.node {
            Term::QualifiedIdentifier(q) => qualified_rest_read(
                src,
                toks,
                p,
                Spanned { node: q, span: t.span },
            ),
            _ => None,
        }
    } else {
        application_read(src, toks, p, t)
    }
}

/// `(let (binding*) term)`, its `(` at token `p`.
pub open spec fn let_read(src: Seq<u8>, toks: Seq<Token>, p: int, t: Spanned<Term>) -> Option<int>
    decreases t, 0int,
{
    let end = match t.node {
        Term::Let(bs, body) => if kind_at(toks, p + 2, TokenKind::LParen) {
            match then_close(toks, bindings_read(src, toks, p + 3, bs@)) {
                Some(q) => then_close(toks, term_read(src, toks, q, *body)),
                None => None,
            }
        } else {
            None
        },
        _ => None,
    };
    spans_to(toks, p, end, t.span)
}

/// A quantifier or lambda, its `(` at token `p`: `forall`, `exists` or
/// `lambda` names the kind of term.
pub open spec fn binder_term_read(src: Seq<u8>, toks: Seq<Token>, p: int, t: Spanned<Term>) -> Option<int>
    decreases t, 0int,
{
    let end = match t.node {
        Term::Forall(vs, body) => if spelled_at(src, toks, p + 1, "forall") {
            binder_read(src, toks, p + 2, vs@, *body)
        } else {
            None
        },
        Term::Exists(vs, body) => if spelled_at(src, toks, p + 1, "exists") {
            binder_read(src, toks, p + 2, vs@, *body)
        } else {
            None
        },
        Term::Lambda(vs, body) => if spelled_at(src, toks, p + 1, "lambda") {
            binder_read(src, toks, p + 2, vs@, *body)
        } else {
            None
        },
        _ => None,
    };
    spans_to(toks, p, end, t.span)
}

/// `(match term (case*))`, its `(` at token `p`.
pub open spec fn match_read(src: Seq<u8>, toks: Seq<Token>, p: int, t: Spanned<Term>) -> Option<int>
    decreases t, 0int,
{
    let end = match t.node {
        Term::Match(scrutinee, cases) => match term_read(src, toks, p + 2, *scrutinee) {
            Some(q) => if kind_at(toks, q, TokenKind::LParen) {
                then_close(toks, then_close(toks, cases_read(src, toks, q + 1, cases@)))
            } else {
                None
            },
            None => None,
        },
        _ => None,
    };
    spans_to(toks, p, end, t.span)
}

/// `(! term attribute*)`, its `(` at token `p`.
pub open spec fn annotated_read(src: Seq<u8>, toks: Seq<Token>, p: int, t: Spanned<Term>) -> Option<int>
    decreases t, 0int,
{
    let end = match t.node {
        Term::Annotated(inner, attrs) => match term_read(src, toks, p + 2, *inner) {
            Some(q) => then_close(toks, attributes_read(src, toks, q, attrs@)),
            None => None,
        },
        _ => None,
    };
    spans_to(toks, p, end, t.span)
}

/// `(qualified-identifier term*)`, its `(` at token `p`.
pub open spec fn application_read(src: Seq<u8>, toks: Seq<Token>, p: int, t: Spanned<Term>) -> Option<int>
    decreases t, 0int,
{
    let end = match t.node {
        Term::Application(f, args) => match qualified_read(src, toks, p + 1, f) {
            Some(q) => then_close(toks, terms_read(src, toks, q, args@)),
            None => None,
        },
        _ => None,
    };
    spans_to(toks, p, end, t.span)
}

/// A quantifier's or lambda's rest after its head: `(sorted-var*) term )`.
pub open spec fn binder_read(
    src: Seq<u8>,
    toks: Seq<Token>,
    p: int,
    vs: Seq<Spanned<SortedVar>>,
    body: Spanned<Term>,
) -> Option<int>
    decreases body, 3int,
{
    if kind_at(toks, p, TokenKind::LParen) {
        match then_close(toks, sorted_vars_read(src, toks, p + 1, vs)) {
            Some(q) => then_close(toks, term_read(src, toks, q, body)),
            None => None,
        }
    } else {
        None
    }
}

/// Terms, one after another.
pub open spec fn terms_read(src: Seq<u8>, toks: Seq<Token>, p: int, ts: Seq<Spanned<Term>>) -> Option<int>
    decreases ts, 0int,
{
    if ts.len() == 0 {
        Some(p)
    } else {
        match terms_read(src, toks, p, ts.drop_last()) {
            Some(q) => term_read(src, toks, q, ts.last()),
            None => None,
        }
    }
}

/// A let binding `(symbol term)`.
pub open spec fn binding_read(src: Seq<u8>, toks: Seq<Token>, p: int, b: Spanned<VarBinding>) -> Option<int>
    decreases b, 0int,
{
    let end = if kind_at(toks, p, TokenKind::LParen) {
        match spanned_symbol_read(src, toks, p + 1, b.node.name) {
            Some(q) => then_close(toks, term_read(src, toks, q, b.node.value)),
            None => None,
        }
    } else {
        None
    };
    spans_to(toks, p, end, b.span)
}

/// Let bindings, one after another.
pub open spec fn bindings_read(
    src: Seq<u8>,
    toks: Seq<Token>,
    p: int,
    bs: Seq<Spanned<VarBinding>>,
) -> Option<int>
    decreases bs, 0int,
{
    if bs.len() == 0 {
        Some(p)
    } else {
        match bindings_read(src, toks, p, bs.drop_last()) {
            Some(q) => binding_read(src, toks, q, bs.last()),
            None => None,
        }
    }
}

/// A match case `(pattern term)`.
pub open spec fn case_read(src: Seq<u8>, toks: Seq<Token>, p: int, c: Spanned<MatchCase>) -> Option<int>
    decreases c, 0int,
{
    let end = if kind_at(toks, p, TokenKind::LParen) {
        match pattern_read(src, toks, p + 1, c.node.pattern) {
            Some(q) => then_close(toks, term_read(src, toks, q, c.node.body)),
            None => None,
        }
    } else {
        None
    };
    spans_to(toks, p, end, c.span)
}

/// Match cases, one after another.
pub open spec fn cases_read(
    src: Seq<u8>,
    toks: Seq<Token>,
    p: int,
    cs: Seq<Spanned<MatchCase>>,
) -> Option<int>
    decreases cs, 0int,
{
    if cs.len() == 0 {
        Some(p)
    } else {
        match cases_read(src, toks, p, cs.drop_last()) {
            Some(q) => case_read(src, toks, q, cs.last()),
            None => None,
        }
    }
}

/// A function definition after its keyword: the name, `(sorted-var*)`, the
/// result sort and the body.
pub open spec fn fun_def_read(src: Seq<u8>, toks: Seq<Token>, p: int, d: FunDef) -> Option<int> {
    match spanned_symbol_read(src, toks, p, d.name) {
        Some(q) => if kind_at(toks, q, TokenKind::LParen) {
            match then_close(toks, sorted_vars_read(src, toks, q + 1, d.params@)) {
                Some(r) => match sort_read(src, toks, r, d.result_sort) {
                    Some(u) => term_read(src, toks, u, d.body),
                    None => None,
                },
                None => None,
            }
        } else {
            None
        },
        None => None,
    }
}

/// A selector `(symbol sort)`.
pub open spec fn selector_read(src: Seq<u8>, toks: Seq<Token>, p: int, s: SelectorDec) -> Option<int> {
    if kind_at(toks, p, TokenKind::LParen) {
        match spanned_symbol_read(src, toks, p + 1, s.name) {
            Some(q) => then_close(toks, sort_read(src, toks, q, s.sort)),
            None => None,
        }
    } else {
        None
    }
}

/// Selectors, one after another.
pub open spec fn selectors_read(src: Seq<u8>, toks: Seq<Token>, p: int, ss: Seq<SelectorDec>) -> Option<int>
    decreases ss.len(),
{
    if ss.len() == 0 {
        Some(p)
    } else {
        match selectors_read(src, toks, p, ss.drop_last()) {
            Some(q) => selector_read(src, toks, q, ss.last()),
            None => None,
        }
    }
}

/// A constructor declaration `(symbol selector*)`.
pub open spec fn constructor_read(
    src: Seq<u8>,
    toks: Seq<Token>,
    p: int,
    c: Spanned<ConstructorDec>,
) -> Option<int> {
    let end = if kind_at(toks, p, TokenKind::LParen) {
        match spanned_symbol_read(src, toks, p + 1, c.node.name) {
            Some(q) => then_close(toks, selectors_read(src, toks, q, c.node.selectors@)),
            None => None,
        }
    } else {
        None
    };
    spans_to(toks, p, end, c.span)
}

/// Constructor declarations, one after another.
pub open spec fn constructors_read(
    src: Seq<u8>,
    toks: Seq<Token>,
    p: int,
    cs: Seq<Spanned<ConstructorDec>>,
) -> Option<int>
    decreases cs.len(),
{
    if cs.len() == 0 {
        Some(p)
    } else {
        match constructors_read(src, toks, p, cs.drop_last()) {
            Some(q) => constructor_read(src, toks, q, cs.last()),
            None => None,
        }
    }
}

/// A datatype declaration: `(par (symbol*) (constructor*))`, or
/// `(constructor*)` with no sort parameters.
pub open spec fn datatype_dec_read(
    src: Seq<u8>,
    toks: Seq<Token>,
    p: int,
    d: Spanned<DatatypeDec>,
) -> Option<int> {
    let end = if !kind_at(toks, p, TokenKind::LParen) {
        None
    } else if word_at(src, toks, p + 1, "par") {
        if kind_at(toks, p + 2, TokenKind::LParen) {
            match then_close(toks, spanned_symbols_read(src, toks, p + 3, d.node.params@)) {
                Some(q) => if kind_at(toks, q, TokenKind::LParen) {
                    then_close(
                        toks,
                        then_close(toks, constructors_read(src, toks, q + 1, d.node.constructors@)),
                    )
                } else {
                    None
                },
                None => None,
            }
        } else {
            None
        }
    } else if d.node.params@.len() == 0 {
        then_close(toks, constructors_read(src, toks, p + 1, d.node.constructors@))
    } else {
        None
    };
    spans_to(toks, p, end, d.span)
}

/// Datatype declarations, one after another.
pub open spec fn datatype_decs_read(
    src: Seq<u8>,
    toks: Seq<Token>,
    p: int,
    ds: Seq<Spanned<DatatypeDec>>,
) -> Option<int>
    decreases ds.len(),
{
    if ds.len() == 0 {
        Some(p)
    } else {
        match datatype_decs_read(src, toks, p, ds.drop_last()) {
            Some(q) => datatype_dec_read(src, toks, q, ds.last()),
            None => None,
        }
    }
}

/// Sort declarations `(symbol numeral)`, one after another.
pub open spec fn sort_decs_read(
    src: Seq<u8>,
    toks: Seq<Token>,
    p: int,
    ds: Seq<(Spanned<Symbol>, u64)>,
) -> Option<int>
    decreases ds.len(),
{
    if ds.len() == 0 {
        Some(p)
    } else {
        match sort_decs_read(src, toks, p, ds.drop_last()) {
            Some(q) => if kind_at(toks, q, TokenKind::LParen) && kind_at(toks, q + 2, TokenKind::Numeral)
                && kind_at(toks, q + 3, TokenKind::RParen) && ds.last().1 == numeral_value(
                src,
                toks[q + 2],
            ) {
                match spanned_symbol_read(src, toks, q + 1, ds.last().0) {
                    Some(_) => Some(q + 4),
                    None => None,
                }
            } else {
                None
            },
            None => None,
        }
    }
}

/// Entries `(symbol constructor*)` of the older datatype syntax, one after
/// another: entry `i` declares the sort `sorts[i]` (of arity 0) with the
/// datatype `decs[i]`, which has no sort parameters and spans the entry.
pub open spec fn legacy_entries_read(
    src: Seq<u8>,
    toks: Seq<Token>,
    p: int,
    sorts: Seq<(Spanned<Symbol>, u64)>,
    decs: Seq<Spanned<DatatypeDec>>,
) -> Option<int>
    decreases decs.len(),
{
    if decs.len() != sorts.len() {
        None
    } else if decs.len() == 0 {
        Some(p)
    } else {
        match legacy_entries_read(src, toks, p, sorts.drop_last(), decs.drop_last()) {
            Some(q) => if kind_at(toks, q, TokenKind::LParen) && sorts.last().1 == 0
                && decs.last().node.params@.len() == 0 {
                match spanned_symbol_read(src, toks, q + 1, sorts.last().0) {
                    Some(r) => spans_to(
                        toks,
                        q,
                        then_close(toks, constructors_read(src, toks, r, decs.last().node.constructors@)),
                        decs.last().span,
                    ),
                    None => None,
                }
            } else {
                None
            },
            None => None,
        }
    }
}

/// A signature of `define-funs-rec`: `(name (sorted-var*) sort)`.
pub open spec fn signature_read(
    src: Seq<u8>,
    toks: Seq<Token>,
    p: int,
    name: Spanned<Symbol>,
    params: Seq<Spanned<SortedVar>>,
    sort: Spanned<Sort>,
) -> Option<int> {
    if kind_at(toks, p, TokenKind::LParen) {
        match spanned_symbol_read(src, toks, p + 1, name) {
            Some(q) => if kind_at(toks, q, TokenKind::LParen) {
                match then_close(toks, sorted_vars_read(src, toks, q + 1, params)) {
                    Some(r) => then_close(toks, sort_read(src, toks, r, sort)),
                    None => None,
                }
            } else {
                None
            },
            None => None,
        }
    } else {
        None
    }
}

/// Signatures, one per definition.
pub open spec fn signatures_read(src: Seq<u8>, toks: Seq<Token>, p: int, ds: Seq<FunDef>) -> Option<int>
    decreases ds.len(),
{
    if ds.len() == 0 {
        Some(p)
    } else {
        match signatures_read(src, toks, p, ds.drop_last()) {
            Some(q) => signature_read(
                src,
                toks,
                q,
                ds.last().name,
                ds.last().params@,
                ds.last().result_sort,
            ),
            None => None,
        }
    }
}

/// Signatures, one per (name, parameters, result sort) triple.
pub open spec fn signature_triples_read(
    src: Seq<u8>,
    toks: Seq<Token>,
    p: int,
    ss: Seq<(Spanned<Symbol>, Vec<Spanned<SortedVar>>, Spanned<Sort>)>,
) -> Option<int>
    decreases ss.len(),
{
    if ss.len() == 0 {
        Some(p)
    } else {
        match signature_triples_read(src, toks, p, ss.drop_last()) {
            Some(q) => signature_read(src, toks, q, ss.last().0, ss.last().1@, ss.last().2),
            None => None,
        }
    }
}

/// Definitions made of the triples, in order, read as the triples do.
pub proof fn lemma_signatures_of_triples(
    src: Seq<u8>,
    toks: Seq<Token>,
    p: int,
    ds: Seq<FunDef>,
    ss: Seq<(Spanned<Symbol>, Vec<Spanned<SortedVar>>, Spanned<Sort>)>,
)
    requires
        ds.len() == ss.len(),
        forall|k: int|
            0 <= k < ds.len() ==> (#[trigger] ds[k]).name == ss[k].0 && ds[k].params@ == ss[k].1@
                && ds[k].result_sort == ss[k].2,
    ensures
        signatures_read(src, toks, p, ds) == signature_triples_read(src, toks, p, ss),
    decreases ds.len(),
{
    if ds.len() > 0 {
        lemma_signatures_of_triples(src, toks, p, ds.drop_last(), ss.drop_last());
        assert(ds[ds.len() - 1] == ds.last());
    }
}

/// Bodies, one per definition.
pub open spec fn bodies_read(src: Seq<u8>, toks: Seq<Token>, p: int, ds: Seq<FunDef>) -> Option<int>
    decreases ds.len(),
{
    if ds.len() == 0 {
        Some(p)
    } else {
        match bodies_read(src, toks, p, ds.drop_last()) {
            Some(q) => term_read(src, toks, q, ds.last().body),
            None => None,
        }
    }
}

/// An optional numeral: its value, else `default` when no numeral follows.
pub open spec fn optional_numeral_read(
    src: Seq<u8>,
    toks: Seq<Token>,
    p: int,
    n: u64,
    default: u64,
) -> Option<int> {
    if kind_at(toks, p, TokenKind::Numeral) {
        if n == numeral_value(src, toks[p]) {
            Some(p + 1)
        } else {
            None
        }
    } else if n == default {
        Some(p)
    } else {
        None
    }
}

/// The arguments of the command `c`, read from token `p` on (the token after
/// the command's name).
#[verifier::opaque]
pub open spec fn command_args_read(src: Seq<u8>, toks: Seq<Token>, p: int, c: Command) -> Option<int> {
    match c {
        Command::SetLogic(sym) => spanned_symbol_read(src, toks, p, sym),
        Command::SetInfo(a) => attribute_read(src, toks, p, a),
        Command::SetOption(a) => attribute_read(src, toks, p, a),
        Command::GetInfo(kw) => keyword_read(src, toks, p, kw),
        Command::GetOption(kw) => keyword_read(src, toks, p, kw),
        Command::DeclareSort(name, arity) => match spanned_symbol_read(src, toks, p, name) {
            Some(q) => optional_numeral_read(src, toks, q, arity, 0),
            None => None,
        },
        Command::DefineSort(name, params, sort) => match spanned_symbol_read(src, toks, p, name) {
            Some(q) => if kind_at(toks, q, TokenKind::LParen) {
                match then_close(toks, spanned_symbols_read(src, toks, q + 1, params@)) {
                    Some(r) => sort_read(src, toks, r, sort),
                    None => None,
                }
            } else {
                None
            },
            None => None,
        },
        Command::DeclareFun(name, params, result) => match spanned_symbol_read(src, toks, p, name) {
            Some(q) => if kind_at(toks, q, TokenKind::LParen) {
                match then_close(toks, sorts_read(src, toks, q + 1, params@)) {
                    Some(r) => sort_read(src, toks, r, result),
                    None => None,
                }
            } else {
                None
            },
            None => None,
        },
        Command::DeclareConst(name, sort) => match spanned_symbol_read(src, toks, p, name) {
            Some(q) => sort_read(src, toks, q, sort),
            None => None,
        },
        Command::DefineFun(def) => fun_def_read(src, toks, p, def),
        Command::DefineFunRec(def) => fun_def_read(src, toks, p, def),
        Command::DefineFunsRec(defs) => if kind_at(toks, p, TokenKind::LParen) {
            match then_close(toks, signatures_read(src, toks, p + 1, defs@)) {
                Some(q) => if kind_at(toks, q, TokenKind::LParen) {
                    then_close(toks, bodies_read(src, toks, q + 1, defs@))
                } else {
                    None
                },
                None => None,
            }
        } else {
            None
        },
        Command::DeclareDatatype(name, dec) => match spanned_symbol_read(src, toks, p, name) {
            Some(q) => datatype_dec_read(src, toks, q, dec),
            None => None,
        },
        Command::DeclareDatatypes(sorts, decs) => if !kind_at(toks, p, TokenKind::LParen) {
            None
        } else if kind_at(toks, p + 1, TokenKind::RParen) {
            if kind_at(toks, p + 2, TokenKind::LParen) {
                then_close(toks, legacy_entries_read(src, toks, p + 3, sorts@, decs@))
            } else {
                None
            }
        } else {
            match then_close(toks, sort_decs_read(src, toks, p + 1, sorts@)) {
                Some(q) => if kind_at(toks, q, TokenKind::LParen) {
                    then_close(toks, datatype_decs_read(src, toks, q + 1, decs@))
                } else {
                    None
                },
                None => None,
            }
        },
        Command::Assert(t) => term_read(src, toks, p, t),
        Command::CheckSatAssuming(ts) => if kind_at(toks, p, TokenKind::LParen) {
            then_close(toks, terms_read(src, toks, p + 1, ts@))
        } else {
            None
        },
        Command::GetValue(ts) => if kind_at(toks, p, TokenKind::LParen) {
            then_close(toks, terms_read(src, toks, p + 1, ts@))
        } else {
            None
        },
        Command::Push(n) => optional_numeral_read(src, toks, p, n, 1),
        Command::Pop(n) => optional_numeral_read(src, toks, p, n, 1),
        Command::Echo(text) => if kind_at(toks, p, TokenKind::StringLiteral) && text@
            == string_literal_value(src, toks[p]) {
            Some(p + 1)
        } else {
            None
        },
        Command::Unknown(_, args) => sexprs_read(src, toks, p, args@),
        _ => Some(p),
    }
}

} // verus!
