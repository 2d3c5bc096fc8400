use vstd::prelude::*;
use vstd::string::StringSliceAdditionalSpecFns;
use crate::lexer::{Token, TokenKind, spec_tokenize};
use crate::span::Span;
use crate::parser::{token_bytes, is_symbol_kind, is_literal_kind, balanced_end};

verus! {

// The well-formed SMT-LIB token sequences. Each `*_end` function reads one
// syntactic form starting at token `p` and gives the position just past it, or
// nothing when the tokens from `p` on do not start that form.

/// Token `p` exists and has kind `k`.
pub open spec fn kind_at(toks: Seq<Token>, p: int, k: TokenKind) -> bool {
    0 <= p < toks.len() && toks[p].kind == k
}

/// Token `p` is a symbol token (plain or quoted).
pub open spec fn symbol_at(toks: Seq<Token>, p: int) -> bool {
    0 <= p < toks.len() && is_symbol_kind(toks[p].kind)
}

/// Token `p` is a symbol token spelled `lit`.
pub open spec fn spelled_at(src: Seq<u8>, toks: Seq<Token>, p: int, lit: &str) -> bool {
    symbol_at(toks, p) && token_bytes(src, toks[p]) == lit.spec_bytes()
}

/// Token `p` is a plain symbol spelled `lit`.
pub open spec fn word_at(src: Seq<u8>, toks: Seq<Token>, p: int, lit: &str) -> bool {
    kind_at(toks, p, TokenKind::Symbol) && token_bytes(src, toks[p]) == lit.spec_bytes()
}

/// A single token of kind `k`.
pub open spec fn one_end(toks: Seq<Token>, p: int, k: TokenKind) -> Option<int> {
    if kind_at(toks, p, k) {
        Some(p + 1)
    } else {
        None
    }
}

/// A symbol.
pub open spec fn symbol_end(toks: Seq<Token>, p: int) -> Option<int> {
    if symbol_at(toks, p) {
        Some(p + 1)
    } else {
        None
    }
}

/// An index of an indexed identifier: a numeral or a symbol.
pub open spec fn index_end(toks: Seq<Token>, p: int) -> Option<int> {
    if symbol_at(toks, p) || kind_at(toks, p, TokenKind::Numeral) {
        Some(p + 1)
    } else {
        None
    }
}

/// Indices up to and including the closing `)`.
pub open spec fn indices_close_end(toks: Seq<Token>, p: int) -> Option<int>
    decreases toks.len() - p,
{
    if kind_at(toks, p, TokenKind::RParen) {
        Some(p + 1)
    } else if index_end(toks, p) is Some && p < toks.len() {
        indices_close_end(toks, p + 1)
    } else {
        None
    }
}

/// The rest of an indexed identifier after its `(`: `_`, a symbol, indices, `)`.
pub open spec fn indexed_rest_end(src: Seq<u8>, toks: Seq<Token>, p: int) -> Option<int> {
    if word_at(src, toks, p, "_") && symbol_at(toks, p + 1) {
        indices_close_end(toks, p + 2)
    } else {
        None
    }
}

/// An identifier: a symbol, or `(_ symbol index*)`.
pub open spec fn identifier_end(src: Seq<u8>, toks: Seq<Token>, p: int) -> Option<int> {
    if kind_at(toks, p, TokenKind::LParen) {
        indexed_rest_end(src, toks, p + 1)
    } else {
        symbol_end(toks, p)
    }
}

/// A sort: an identifier, `(_ symbol index*)`, or `(identifier sort*)`.
pub open spec fn sort_end(src: Seq<u8>, toks: Seq<Token>, p: int) -> Option<int>
    decreases toks.len() - p, 0int,
{
    if kind_at(toks, p, TokenKind::LParen) {
        if word_at(src, toks, p + 1, "_") {
            indexed_rest_end(src, toks, p + 1)
        } else {
            match identifier_end(src, toks, p + 1) {
                Some(q) => if p < q <= toks.len() {
                    sorts_close_end(src, toks, q)
                } else {
                    None
                },
                None => None,
            }
        }
    } else {
        identifier_end(src, toks, p)
    }
}

/// Sorts up to and including the closing `)`.
pub open spec fn sorts_close_end(src: Seq<u8>, toks: Seq<Token>, p: int) -> Option<int>
    decreases toks.len() - p, 1int,
{
    if kind_at(toks, p, TokenKind::RParen) {
        Some(p + 1)
    } else if 0 <= p < toks.len() {
        match sort_end(src, toks, p) {
            Some(q) => if p < q <= toks.len() {
                sorts_close_end(src, toks, q)
            } else {
                None
            },
            None => None,
        }
    } else {
        None
    }
}

/// A sorted variable: `(symbol sort)`.
pub open spec fn sorted_var_end(src: Seq<u8>, toks: Seq<Token>, p: int) -> Option<int> {
    if kind_at(toks, p, TokenKind::LParen) && symbol_at(toks, p + 1) {
        match sort_end(src, toks, p + 2) {
            Some(q) => one_end(toks, q, TokenKind::RParen),
            None => None,
        }
    } else {
        None
    }
}

/// Sorted variables up to and including the closing `)`.
pub open spec fn vars_close_end(src: Seq<u8>, toks: Seq<Token>, p: int) -> Option<int>
    decreases toks.len() - p,
{
    if kind_at(toks, p, TokenKind::RParen) {
        Some(p + 1)
    } else {
        match sorted_var_end(src, toks, p) {
            Some(q) => if p < q <= toks.len() {
                vars_close_end(src, toks, q)
            } else {
                None
            },
            None => None,
        }
    }
}

/// Symbols up to and including the closing `)`.
pub open spec fn symbols_close_end(toks: Seq<Token>, p: int) -> Option<int>
    decreases toks.len() - p,
{
    if kind_at(toks, p, TokenKind::RParen) {
        Some(p + 1)
    } else if symbol_at(toks, p) {
        symbols_close_end(toks, p + 1)
    } else {
        None
    }
}

/// After a qualified identifier's `(`: `as identifier sort )`,
/// `_ symbol index* )`, or an identifier.
pub open spec fn qualified_rest_end(src: Seq<u8>, toks: Seq<Token>, p: int) -> Option<int> {
    if word_at(src, toks, p, "as") {
        match identifier_end(src, toks, p + 1) {
            Some(q) => match sort_end(src, toks, q) {
                Some(r) => one_end(toks, r, TokenKind::RParen),
                None => None,
            },
            None => None,
        }
    } else if word_at(src, toks, p, "_") {
        indexed_rest_end(src, toks, p)
    } else {
        identifier_end(src, toks, p)
    }
}

/// A qualified identifier.
pub open spec fn qualified_end(src: Seq<u8>, toks: Seq<Token>, p: int) -> Option<int> {
    if kind_at(toks, p, TokenKind::LParen) {
        qualified_rest_end(src, toks, p + 1)
    } else {
        identifier_end(src, toks, p)
    }
}

/// An s-expression: a literal, a symbol, a keyword or `(s-expression*)`.
pub open spec fn sexpr_end(toks: Seq<Token>, p: int) -> Option<int>
    decreases toks.len() - p, 0int,
{
    if 0 <= p < toks.len() && (is_literal_kind(toks[p].kind) || is_symbol_kind(toks[p].kind)
        || toks[p].kind == TokenKind::Keyword) {
        Some(p + 1)
    } else if kind_at(toks, p, TokenKind::LParen) {
        sexprs_close_end(toks, p + 1)
    } else {
        None
    }
}

/// S-expressions up to and including the closing `)`.
pub open spec fn sexprs_close_end(toks: Seq<Token>, p: int) -> Option<int>
    decreases toks.len() - p, 1int,
{
    if kind_at(toks, p, TokenKind::RParen) {
        Some(p + 1)
    } else if 0 <= p < toks.len() {
        match sexpr_end(toks, p) {
            Some(q) => if p < q <= toks.len() {
                sexprs_close_end(toks, q)
            } else {
                None
            },
            None => None,
        }
    } else {
        None
    }
}

/// An attribute value: a literal, a symbol or `(s-expression*)`.
pub open spec fn attribute_value_end(toks: Seq<Token>, p: int) -> Option<int> {
    if 0 <= p < toks.len() && (is_literal_kind(toks[p].kind) || is_symbol_kind(toks[p].kind)) {
        Some(p + 1)
    } else if kind_at(toks, p, TokenKind::LParen) {
        sexprs_close_end(toks, p + 1)
    } else {
        None
    }
}

/// An attribute: a keyword, with a value unless a keyword or `)` follows.
pub open spec fn attribute_end(toks: Seq<Token>, p: int) -> Option<int> {
    if kind_at(toks, p, TokenKind::Keyword) {
        if p + 1 < toks.len() && toks[p + 1].kind != TokenKind::Keyword && toks[p + 1].kind
            != TokenKind::RParen {
            attribute_value_end(toks, p + 1)
        } else {
            Some(p + 1)
        }
    } else {
        None
    }
}

/// Attributes up to and including the closing `)`.
pub open spec fn attributes_close_end(toks: Seq<Token>, p: int) -> Option<int>
    decreases toks.len() - p,
{
    if kind_at(toks, p, TokenKind::RParen) {
        Some(p + 1)
    } else {
        match attribute_end(toks, p) {
            Some(q) => if p < q <= toks.len() {
                attributes_close_end(toks, q)
            } else {
                None
            },
            None => None,
        }
    }
}

/// A match pattern: a symbol, or `(symbol symbol*)`.
pub open spec fn pattern_end(toks: Seq<Token>, p: int) -> Option<int> {
    if kind_at(toks, p, TokenKind::LParen) {
        if symbol_at(toks, p + 1) {
            symbols_close_end(toks, p + 2)
        } else {
            None
        }
    } else {
        symbol_end(toks, p)
    }
}

/// A term: a literal, a qualified identifier, or a compound term.
pub open spec fn term_end(src: Seq<u8>, toks: Seq<Token>, p: int) -> Option<int>
    decreases toks.len() - p, 0int,
{
    if 0 <= p < toks.len() && is_literal_kind(toks[p].kind) {
        Some(p + 1)
    } else if symbol_at(toks, p) {
        Some(p + 1)
    } else if kind_at(toks, p, TokenKind::LParen) {
        compound_end(src, toks, p + 1)
    } else {
        None
    }
}

/// A compound term after its `(`: a special form named by its head symbol, or
/// an application of a qualified identifier to terms.
pub open spec fn compound_end(src: Seq<u8>, toks: Seq<Token>, p: int) -> Option<int>
    decreases toks.len() - p, 1int,
{
    if p < 0 || p >= toks.len() {
        None
    } else if spelled_at(src, toks, p, "let") {
        let_rest_end(src, toks, p + 1)
    } else if spelled_at(src, toks, p, "forall") || spelled_at(src, toks, p, "exists")
        || spelled_at(src, toks, p, "lambda") {
        binder_rest_end(src, toks, p + 1)
    } else if spelled_at(src, toks, p, "match") {
        match_rest_end(src, toks, p + 1)
    } else if spelled_at(src, toks, p, "!") {
        annotated_rest_end(src, toks, p + 1)
    } else if spelled_at(src, toks, p, "_") || spelled_at(src, toks, p, "as") {
        qualified_rest_end(src, toks, p)
    } else {
        match qualified_end(src, toks, p) {
            Some(q) => if p < q <= toks.len() {
                terms_close_end(src, toks, q)
            } else {
                None
            },
            None => None,
        }
    }
}

/// The rest of a `let` term after `let`: `(binding*) term )`.
pub open spec fn let_rest_end(src: Seq<u8>, toks: Seq<Token>, p: int) -> Option<int>
    decreases toks.len() - p, 1int,
{
    if kind_at(toks, p, TokenKind::LParen) {
        match bindings_close_end(src, toks, p + 1) {
            Some(q) => if p < q <= toks.len() {
                body_close_end(src, toks, q)
            } else {
                None
            },
            None => None,
        }
    } else {
        None
    }
}

/// The rest of a quantifier or lambda after its head: `(sorted-var*) term )`.
pub open spec fn binder_rest_end(src: Seq<u8>, toks: Seq<Token>, p: int) -> Option<int>
    decreases toks.len() - p, 1int,
{
    if kind_at(toks, p, TokenKind::LParen) {
        match vars_close_end(src, toks, p + 1) {
            Some(q) => if p < q <= toks.len() {
                body_close_end(src, toks, q)
            } else {
                None
            },
            None => None,
        }
    } else {
        None
    }
}

/// The rest of a `match` term after `match`: `term (case*) )`.
pub open spec fn match_rest_end(src: Seq<u8>, toks: Seq<Token>, p: int) -> Option<int>
    decreases toks.len() - p, 1int,
{
    match term_end(src, toks, p) {
        Some(q) => if p < q <= toks.len() && kind_at(toks, q, TokenKind::LParen) {
            match cases_close_end(src, toks, q + 1) {
                Some(r) => one_end(toks, r, TokenKind::RParen),
                None => None,
            }
        } else {
            None
        },
        None => None,
    }
}

/// The rest of an annotated term after `!`: `term attribute* )`.
pub open spec fn annotated_rest_end(src: Seq<u8>, toks: Seq<Token>, p: int) -> Option<int>
    decreases toks.len() - p, 1int,
{
    match term_end(src, toks, p) {
        Some(q) => if p < q <= toks.len() {
            attributes_close_end(toks, q)
        } else {
            None
        },
        None => None,
    }
}

/// A term followed by `)`.
pub open spec fn body_close_end(src: Seq<u8>, toks: Seq<Token>, p: int) -> Option<int>
    decreases toks.len() - p, 1int,
{
    match term_end(src, toks, p) {
        Some(q) => one_end(toks, q, TokenKind::RParen),
        None => None,
    }
}

/// Terms up to and including the closing `)`.
pub open spec fn terms_close_end(src: Seq<u8>, toks: Seq<Token>, p: int) -> Option<int>
    decreases toks.len() - p, 1int,
{
    if kind_at(toks, p, TokenKind::RParen) {
        Some(p + 1)
    } else if 0 <= p < toks.len() {
        match term_end(src, toks, p) {
            Some(q) => if p < q <= toks.len() {
                terms_close_end(src, toks, q)
            } else {
                None
            },
            None => None,
        }
    } else {
        None
    }
}

/// Let bindings `(symbol term)` up to and including the closing `)`.
pub open spec fn bindings_close_end(src: Seq<u8>, toks: Seq<Token>, p: int) -> Option<int>
    decreases toks.len() - p, 1int,
{
    if kind_at(toks, p, TokenKind::RParen) {
        Some(p + 1)
    } else if kind_at(toks, p, TokenKind::LParen) && symbol_at(toks, p + 1) {
        match body_close_end(src, toks, p + 2) {
            Some(q) => if p < q <= toks.len() {
                bindings_close_end(src, toks, q)
            } else {
                None
            },
            None => None,
        }
    } else {
        None
    }
}

/// Match cases `(pattern term)` up to and including the closing `)`.
pub open spec fn cases_close_end(src: Seq<u8>, toks: Seq<Token>, p: int) -> Option<int>
    decreases toks.len() - p, 1int,
{
    if kind_at(toks, p, TokenKind::RParen) {
        Some(p + 1)
    } else if kind_at(toks, p, TokenKind::LParen) {
        match pattern_end(toks, p + 1) {
            Some(q) => if p < q <= toks.len() {
                match body_close_end(src, toks, q) {
                    Some(r) => if p < r <= toks.len() {
                        cases_close_end(src, toks, r)
                    } else {
                        None
                    },
                    None => None,
                }
            } else {
                None
            },
            None => None,
        }
    } else {
        None
    }
}

/// A function definition after its keyword: `symbol (sorted-var*) sort term`.
pub open spec fn fun_def_end(src: Seq<u8>, toks: Seq<Token>, p: int) -> Option<int> {
    if symbol_at(toks, p) && kind_at(toks, p + 1, TokenKind::LParen) {
        match vars_close_end(src, toks, p + 2) {
            Some(q) => match sort_end(src, toks, q) {
                Some(r) => term_end(src, toks, r),
                None => None,
            },
            None => None,
        }
    } else {
        None
    }
}

/// A constructor declaration: `(symbol selector*)`, each selector shaped like
/// a sorted variable `(symbol sort)`.
pub open spec fn constructor_end(src: Seq<u8>, toks: Seq<Token>, p: int) -> Option<int> {
    if kind_at(toks, p, TokenKind::LParen) && symbol_at(toks, p + 1) {
        vars_close_end(src, toks, p + 2)
    } else {
        None
    }
}

/// Constructor declarations up to and including the closing `)`.
pub open spec fn constructors_close_end(src: Seq<u8>, toks: Seq<Token>, p: int) -> Option<int>
    decreases toks.len() - p,
{
    if kind_at(toks, p, TokenKind::RParen) {
        Some(p + 1)
    } else {
        match constructor_end(src, toks, p) {
            Some(q) => if p < q <= toks.len() {
                constructors_close_end(src, toks, q)
            } else {
                None
            },
            None => None,
        }
    }
}

/// A datatype declaration: `(par (symbol*) (constructor*))` or
/// `(constructor*)`.
pub open spec fn datatype_dec_end(src: Seq<u8>, toks: Seq<Token>, p: int) -> Option<int> {
    if !kind_at(toks, p, TokenKind::LParen) {
        None
    } else if word_at(src, toks, p + 1, "par") {
        if kind_at(toks, p + 2, TokenKind::LParen) {
            match symbols_close_end(toks, p + 3) {
                Some(q) => if kind_at(toks, q, TokenKind::LParen) {
                    match constructors_close_end(src, toks, q + 1) {
                        Some(r) => one_end(toks, r, TokenKind::RParen),
                        None => None,
                    }
                } else {
                    None
                },
                None => None,
            }
        } else {
            None
        }
    } else {
        constructors_close_end(src, toks, p + 1)
    }
}

/// Datatype declarations up to and including the closing `)`.
pub open spec fn datatype_decs_close_end(src: Seq<u8>, toks: Seq<Token>, p: int) -> Option<int>
    decreases toks.len() - p,
{
    if kind_at(toks, p, TokenKind::RParen) {
        Some(p + 1)
    } else {
        match datatype_dec_end(src, toks, p) {
            Some(q) => if p < q <= toks.len() {
                datatype_decs_close_end(src, toks, q)
            } else {
                None
            },
            None => None,
        }
    }
}

/// Sort declarations `(symbol numeral)` up to and including the closing `)`.
pub open spec fn sort_decs_close_end(toks: Seq<Token>, p: int) -> Option<int>
    decreases toks.len() - p,
{
    if kind_at(toks, p, TokenKind::RParen) {
        Some(p + 1)
    } else if kind_at(toks, p, TokenKind::LParen) && symbol_at(toks, p + 1) && kind_at(
        toks,
        p + 2,
        TokenKind::Numeral,
    ) && kind_at(toks, p + 3, TokenKind::RParen) {
        sort_decs_close_end(toks, p + 4)
    } else {
        None
    }
}

/// Entries `(symbol constructor*)` of the older datatype syntax, up to and
/// including the closing `)`.
pub open spec fn legacy_datatypes_close_end(src: Seq<u8>, toks: Seq<Token>, p: int) -> Option<int>
    decreases toks.len() - p,
{
    if kind_at(toks, p, TokenKind::RParen) {
        Some(p + 1)
    } else if kind_at(toks, p, TokenKind::LParen) && symbol_at(toks, p + 1) {
        match constructors_close_end(src, toks, p + 2) {
            Some(q) => if p < q <= toks.len() {
                legacy_datatypes_close_end(src, toks, q)
            } else {
                None
            },
            None => None,
        }
    } else {
        None
    }
}

/// The arguments of `declare-datatypes`: `() (entry*)` in the older syntax,
/// else `(sort-dec*) (datatype-dec*)`.
pub open spec fn datatypes_args_end(src: Seq<u8>, toks: Seq<Token>, p: int) -> Option<int> {
    if !kind_at(toks, p, TokenKind::LParen) {
        None
    } else if kind_at(toks, p + 1, TokenKind::RParen) {
        if kind_at(toks, p + 2, TokenKind::LParen) {
            legacy_datatypes_close_end(src, toks, p + 3)
        } else {
            None
        }
    } else {
        match sort_decs_close_end(toks, p + 1) {
            Some(q) => if kind_at(toks, q, TokenKind::LParen) {
                datatype_decs_close_end(src, toks, q + 1)
            } else {
                None
            },
            None => None,
        }
    }
}

/// A signature of `define-funs-rec`: `(symbol (sorted-var*) sort)`.
pub open spec fn signature_end(src: Seq<u8>, toks: Seq<Token>, p: int) -> Option<int> {
    if kind_at(toks, p, TokenKind::LParen) && symbol_at(toks, p + 1) && kind_at(
        toks,
        p + 2,
        TokenKind::LParen,
    ) {
        match vars_close_end(src, toks, p + 3) {
            Some(q) => match sort_end(src, toks, q) {
                Some(r) => one_end(toks, r, TokenKind::RParen),
                None => None,
            },
            None => None,
        }
    } else {
        None
    }
}

/// Signatures up to and including the closing `)`, and how many there are.
pub open spec fn signatures_close_end(src: Seq<u8>, toks: Seq<Token>, p: int) -> Option<(int, nat)>
    decreases toks.len() - p,
{
    if kind_at(toks, p, TokenKind::RParen) {
        Some((p + 1, 0))
    } else {
        match signature_end(src, toks, p) {
            Some(q) => if p < q <= toks.len() {
                match signatures_close_end(src, toks, q) {
                    Some((e, n)) => Some((e, n + 1)),
                    None => None,
                }
            } else {
                None
            },
            None => None,
        }
    }
}

/// Where the signature list from `p` ends.
pub open spec fn signatures_stop(src: Seq<u8>, toks: Seq<Token>, p: int) -> int {
    match signatures_close_end(src, toks, p) {
        Some((e, _)) => e,
        None => 0,
    }
}

/// How many signatures the list from `p` holds.
pub open spec fn signatures_count(src: Seq<u8>, toks: Seq<Token>, p: int) -> nat {
    match signatures_close_end(src, toks, p) {
        Some((_, n)) => n,
        None => 0,
    }
}

/// Exactly `n` terms.
pub open spec fn terms_count_end(src: Seq<u8>, toks: Seq<Token>, p: int, n: nat) -> Option<int>
    decreases n,
{
    if n == 0 {
        Some(p)
    } else {
        match term_end(src, toks, p) {
            Some(q) => terms_count_end(src, toks, q, (n - 1) as nat),
            None => None,
        }
    }
}

/// The arguments of `define-funs-rec`: `(signature+) (term+)`, one term per
/// signature.
pub open spec fn funs_rec_args_end(src: Seq<u8>, toks: Seq<Token>, p: int) -> Option<int> {
    if kind_at(toks, p, TokenKind::LParen) {
        match signatures_close_end(src, toks, p + 1) {
            Some((q, n)) => if kind_at(toks, q, TokenKind::LParen) {
                match terms_count_end(src, toks, q + 1, n) {
                    Some(r) => one_end(toks, r, TokenKind::RParen),
                    None => None,
                }
            } else {
                None
            },
            None => None,
        }
    } else {
        None
    }
}

/// The arguments of a command that the parser does not know: s-expressions up
/// to a `)` or the end of input.
pub open spec fn unknown_args_end(toks: Seq<Token>, p: int) -> Option<int>
    decreases toks.len() - p,
{
    if p < 0 {
        None
    } else if p >= toks.len() || kind_at(toks, p, TokenKind::RParen) {
        Some(p)
    } else {
        match sexpr_end(toks, p) {
            Some(q) => if p < q <= toks.len() {
                unknown_args_end(toks, q)
            } else {
                None
            },
            None => None,
        }
    }
}

/// An optional numeral.
pub open spec fn optional_numeral_end(toks: Seq<Token>, p: int) -> Option<int> {
    if kind_at(toks, p, TokenKind::Numeral) {
        Some(p + 1)
    } else {
        Some(p)
    }
}

/// The arguments of `declare-sort`: a symbol and an optional arity.
pub open spec fn declare_sort_args_end(toks: Seq<Token>, p: int) -> Option<int> {
    if symbol_at(toks, p) {
        optional_numeral_end(toks, p + 1)
    } else {
        None
    }
}

/// The arguments of `define-sort`: `symbol (symbol*) sort`.
pub open spec fn define_sort_args_end(src: Seq<u8>, toks: Seq<Token>, p: int) -> Option<int> {
    if symbol_at(toks, p) && kind_at(toks, p + 1, TokenKind::LParen) {
        match symbols_close_end(toks, p + 2) {
            Some(q) => sort_end(src, toks, q),
            None => None,
        }
    } else {
        None
    }
}

/// The arguments of `declare-fun`: `symbol (sort*) sort`.
pub open spec fn declare_fun_args_end(src: Seq<u8>, toks: Seq<Token>, p: int) -> Option<int> {
    if symbol_at(toks, p) && kind_at(toks, p + 1, TokenKind::LParen) {
        match sorts_close_end(src, toks, p + 2) {
            Some(q) => sort_end(src, toks, q),
            None => None,
        }
    } else {
        None
    }
}

/// The arguments of `declare-const`: `symbol sort`.
pub open spec fn declare_const_args_end(src: Seq<u8>, toks: Seq<Token>, p: int) -> Option<int> {
    if symbol_at(toks, p) {
        sort_end(src, toks, p + 1)
    } else {
        None
    }
}

/// The arguments of `declare-datatype`: `symbol datatype-dec`.
pub open spec fn declare_datatype_args_end(src: Seq<u8>, toks: Seq<Token>, p: int) -> Option<int> {
    if symbol_at(toks, p) {
        datatype_dec_end(src, toks, p + 1)
    } else {
        None
    }
}

/// A parenthesized list of terms: `(term*)`.
pub open spec fn term_list_end(src: Seq<u8>, toks: Seq<Token>, p: int) -> Option<int> {
    if kind_at(toks, p, TokenKind::LParen) {
        terms_close_end(src, toks, p + 1)
    } else {
        None
    }
}

/// The arguments of the command named by token `name`, starting at token `p`.
pub open spec fn command_args_end(src: Seq<u8>, toks: Seq<Token>, name: Token, p: int) -> Option<int> {
    let n = token_bytes(src, name);
    if n == "set-logic".spec_bytes() {
        symbol_end(toks, p)
    } else if n == "set-info".spec_bytes() || n == "set-option".spec_bytes() {
        attribute_end(toks, p)
    } else if n == "get-info".spec_bytes() || n == "get-option".spec_bytes() {
        one_end(toks, p, TokenKind::Keyword)
    } else if n == "declare-sort".spec_bytes() {
        declare_sort_args_end(toks, p)
    } else if n == "define-sort".spec_bytes() {
        define_sort_args_end(src, toks, p)
    } else if n == "declare-fun".spec_bytes() {
        declare_fun_args_end(src, toks, p)
    } else if n == "declare-const".spec_bytes() {
        declare_const_args_end(src, toks, p)
    } else if n == "define-fun".spec_bytes() || n == "define-fun-rec".spec_bytes() {
        fun_def_end(src, toks, p)
    } else if n == "define-funs-rec".spec_bytes() {
        funs_rec_args_end(src, toks, p)
    } else if n == "declare-datatype".spec_bytes() {
        declare_datatype_args_end(src, toks, p)
    } else if n == "declare-datatypes".spec_bytes() {
        datatypes_args_end(src, toks, p)
    } else if n == "assert".spec_bytes() || n == "assert-not".spec_bytes() {
        term_end(src, toks, p)
    } else if n == "check-sat".spec_bytes() {
        Some(p)
    } else if n == "check-sat-assuming".spec_bytes() {
        term_list_end(src, toks, p)
    } else if n == "push".spec_bytes() || n == "pop".spec_bytes() {
        optional_numeral_end(toks, p)
    } else if n == "reset".spec_bytes() || n == "reset-assertions".spec_bytes() || n
        == "get-model".spec_bytes() {
        Some(p)
    } else if n == "get-value".spec_bytes() {
        term_list_end(src, toks, p)
    } else if n == "get-proof".spec_bytes() || n == "get-unsat-core".spec_bytes() || n
        == "get-unsat-assumptions".spec_bytes() || n == "get-assertions".spec_bytes() || n
        == "get-assignment".spec_bytes() {
        Some(p)
    } else if n == "echo".spec_bytes() {
        one_end(toks, p, TokenKind::StringLiteral)
    } else if n == "exit".spec_bytes() {
        Some(p)
    } else {
        unknown_args_end(toks, p)
    }
}

/// A command: `(`, a plain symbol naming it, its arguments, `)`.
#[verifier::opaque]
pub open spec fn command_end(src: Seq<u8>, toks: Seq<Token>, p: int) -> Option<int> {
    if kind_at(toks, p, TokenKind::LParen) && kind_at(toks, p + 1, TokenKind::Symbol) {
        match command_args_end(src, toks, toks[p + 1], p + 2) {
            Some(q) => one_end(toks, q, TokenKind::RParen),
            None => None,
        }
    } else {
        None
    }
}

/// The tokens from `p` on are well-formed commands, one after another.
pub open spec fn commands_from(src: Seq<u8>, toks: Seq<Token>, p: int) -> bool
    decreases toks.len() - p,
{
    if p >= toks.len() {
        p == toks.len()
    } else {
        match command_end(src, toks, p) {
            Some(q) => p < q <= toks.len() && commands_from(src, toks, q),
            None => false,
        }
    }
}

/// Where the run of well-formed commands that starts at token `p` ends: the
/// first token that does not start one.
pub open spec fn commands_prefix_end(src: Seq<u8>, toks: Seq<Token>, p: int) -> int
    decreases toks.len() - p,
{
    if 0 <= p < toks.len() {
        match command_end(src, toks, p) {
            Some(q) => if p < q <= toks.len() {
                commands_prefix_end(src, toks, q)
            } else {
                p
            },
            None => p,
        }
    } else {
        p
    }
}

/// The run of well-formed commands from `p` ends at or after `p`, and within
/// the tokens.
pub proof fn lemma_commands_prefix_end_bounds(src: Seq<u8>, toks: Seq<Token>, p: int)
    requires
        0 <= p <= toks.len(),
    ensures
        p <= commands_prefix_end(src, toks, p) <= toks.len(),
    decreases toks.len() - p,
{
    if p < toks.len() {
        if let Some(q) = command_end(src, toks, p) {
            if p < q <= toks.len() {
                lemma_commands_prefix_end_bounds(src, toks, q);
            }
        }
    }
}

/// Well-formed commands from `p` on run to the end of the tokens.
pub proof fn lemma_commands_from_prefix_end(src: Seq<u8>, toks: Seq<Token>, p: int)
    requires
        0 <= p <= toks.len(),
        commands_from(src, toks, p),
    ensures
        commands_prefix_end(src, toks, p) == toks.len(),
    decreases toks.len() - p,
{
    if p < toks.len() {
        lemma_commands_from_prefix_end(src, toks, command_end(src, toks, p)->0);
    }
}

/// A group `(x ...)` whose head `x` is a single token but not a plain symbol
/// (a literal, a keyword, a quoted symbol or a lexing error): not a command.
pub open spec fn bad_head_at(toks: Seq<Token>, p: int) -> bool {
    &&& kind_at(toks, p, TokenKind::LParen)
    &&& p + 1 < toks.len()
    &&& toks[p + 1].kind != TokenKind::Symbol
    &&& toks[p + 1].kind != TokenKind::LParen
    &&& toks[p + 1].kind != TokenKind::RParen
}

/// The tokens from `p` on as well-formed commands and groups with a bad head
/// (each through the `)` that balances its `(`), one after another: where each
/// command starts, and the span of each bad head, which the parser reports.
pub open spec fn recovery_walk(src: Seq<u8>, toks: Seq<Token>, p: int) -> Option<(Seq<int>, Seq<Span>)>
    decreases toks.len() - p,
{
    if p < 0 || p > toks.len() {
        None
    } else if p == toks.len() {
        Some((Seq::empty(), Seq::empty()))
    } else {
        match command_end(src, toks, p) {
            Some(q) => if p < q <= toks.len() {
                match recovery_walk(src, toks, q) {
                    Some(w) => Some((seq![p] + w.0, w.1)),
                    None => None,
                }
            } else {
                None
            },
            None => if bad_head_at(toks, p) && p < balanced_end(toks, p + 2, 1) <= toks.len() {
                match recovery_walk(src, toks, balanced_end(toks, p + 2, 1)) {
                    Some(w) => Some((w.0, seq![toks[p + 1].span] + w.1)),
                    None => None,
                }
            } else {
                None
            },
        }
    }
}

/// One step of the recovery walk: a well-formed command, or a group with a bad
/// head.
pub proof fn lemma_recovery_step(src: Seq<u8>, toks: Seq<Token>, p: int)
    requires
        recovery_walk(src, toks, p) is Some,
        0 <= p < toks.len(),
    ensures
        ({
            let w = recovery_walk(src, toks, p).unwrap();
            match command_end(src, toks, p) {
                Some(q) => {
                    &&& p < q <= toks.len()
                    &&& recovery_walk(src, toks, q) is Some
                    &&& w.0 == seq![p] + recovery_walk(src, toks, q).unwrap().0
                    &&& w.1 == recovery_walk(src, toks, q).unwrap().1
                },
                None => {
                    let e = balanced_end(toks, p + 2, 1);
                    &&& bad_head_at(toks, p)
                    &&& p < e <= toks.len()
                    &&& recovery_walk(src, toks, e) is Some
                    &&& w.0 == recovery_walk(src, toks, e).unwrap().0
                    &&& w.1 == seq![toks[p + 1].span] + recovery_walk(src, toks, e).unwrap().1
                },
            }
        }),
{
}

/// The source text is a well-formed script: its tokens are well-formed
/// commands, one after another.
pub open spec fn well_formed_script(src: Seq<u8>) -> bool {
    commands_from(src, spec_tokenize(src), 0)
}

/// One sorted variable (or selector), read off a well-formed list of them.
pub proof fn lemma_var_step(src: Seq<u8>, toks: Seq<Token>, p: int)
    requires
        vars_close_end(src, toks, p) is Some,
        !kind_at(toks, p, TokenKind::RParen),
    ensures
        kind_at(toks, p, TokenKind::LParen),
        symbol_at(toks, p + 1),
        ({
            let r = sort_end(src, toks, p + 2)->0;
            &&& sort_end(src, toks, p + 2) is Some
            &&& kind_at(toks, r, TokenKind::RParen)
            &&& vars_close_end(src, toks, r + 1) == vars_close_end(src, toks, p)
        }),
{
    assert(sorted_var_end(src, toks, p) is Some);
}

/// One signature of `define-funs-rec`, read off a well-formed signature list.
pub proof fn lemma_signature_step(src: Seq<u8>, toks: Seq<Token>, p: int)
    requires
        signatures_close_end(src, toks, p) is Some,
        !kind_at(toks, p, TokenKind::RParen),
    ensures
        ({
            let q = signature_end(src, toks, p)->0;
            &&& signature_end(src, toks, p) is Some
            &&& p < q <= toks.len()
            &&& signatures_close_end(src, toks, q) is Some
            &&& signatures_stop(src, toks, q) == signatures_stop(src, toks, p)
            &&& signatures_count(src, toks, q) + 1 == signatures_count(src, toks, p)
        }),
{
}

/// One let binding: `(symbol term)`.
pub open spec fn binding_end(src: Seq<u8>, toks: Seq<Token>, p: int) -> Option<int> {
    if kind_at(toks, p, TokenKind::LParen) && symbol_at(toks, p + 1) {
        body_close_end(src, toks, p + 2)
    } else {
        None
    }
}

/// One match case: `(pattern term)`.
pub open spec fn case_end(src: Seq<u8>, toks: Seq<Token>, p: int) -> Option<int> {
    if kind_at(toks, p, TokenKind::LParen) {
        match pattern_end(toks, p + 1) {
            Some(q) => body_close_end(src, toks, q),
            None => None,
        }
    } else {
        None
    }
}

/// One binding of a `let`, read off a well-formed binding list.
pub proof fn lemma_binding_step(src: Seq<u8>, toks: Seq<Token>, p: int)
    requires
        bindings_close_end(src, toks, p) is Some,
        !kind_at(toks, p, TokenKind::RParen),
    ensures
        binding_end(src, toks, p) is Some,
        bindings_close_end(src, toks, binding_end(src, toks, p)->0) == bindings_close_end(src, toks, p),
{
}

/// One case of a `match`, read off a well-formed case list.
pub proof fn lemma_case_step(src: Seq<u8>, toks: Seq<Token>, p: int)
    requires
        cases_close_end(src, toks, p) is Some,
        !kind_at(toks, p, TokenKind::RParen),
    ensures
        case_end(src, toks, p) is Some,
        cases_close_end(src, toks, case_end(src, toks, p)->0) == cases_close_end(src, toks, p),
{
}

} // verus!
