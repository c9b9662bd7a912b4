use ott::earley::{earley_parse, earley_recognize};
use ott::error::{Position, Span};
use ott::grammar::{Grammar, MetavarDef, Prod, RhsItem, Sym};
use ott::termlex::{Token, TokenKind};

fn item(sym: Sym) -> RhsItem {
    RhsItem { sym, label: None }
}

fn prod(lhs: &str, rhs: Vec<Sym>) -> Prod {
    Prod { lhs: lhs.to_string(), rhs: rhs.into_iter().map(item).collect(), typst: None }
}

fn term(t: &str) -> Sym {
    Sym::Terminal(t.to_string())
}

fn tok(t: &str, start: usize, end: usize) -> Token {
    Token { kind: TokenKind::Terminal(t.to_string()), span: Span::new(start, end) }
}

#[test]
fn failure_reported_at_end_when_all_tokens_are_reached() {
    // t -> a | b t c: the tokens "b a" are a prefix of a parse, so the
    // failure is reported at the end of the input.
    let g = Grammar {
        prods: vec![
            prod("t", vec![term("a")]),
            prod("t", vec![term("b"), Sym::Nonterminal("t".to_string()), term("c")]),
        ],
    };
    let metavars: Vec<(String, MetavarDef)> = Vec::new();
    let toks = vec![tok("b", 0, 1), tok("a", 2, 3)];
    let start = "t".to_string();
    let e = earley_parse(&start, &g, &metavars, &toks, "b a").unwrap_err();
    assert_eq!(e.message, "failed to parse input as `t`");
    assert_eq!(e.span, Some(Span::new(3, 3)));
    assert_eq!(e.position, Some(Position::new(1, 4)));
    let e = earley_recognize(&start, &g, &metavars, &toks, "b a").unwrap_err();
    assert_eq!(e.span, Some(Span::new(3, 3)));
}

#[test]
fn failure_reported_at_first_unreached_token() {
    // t -> a: after the first "a" nothing can follow, so the failure is
    // reported at the second token.
    let g = Grammar { prods: vec![prod("t", vec![term("a")])] };
    let metavars: Vec<(String, MetavarDef)> = Vec::new();
    let toks = vec![tok("a", 0, 1), tok("a", 2, 3)];
    let start = "t".to_string();
    let e = earley_recognize(&start, &g, &metavars, &toks, "a a").unwrap_err();
    assert_eq!(e.message, "failed to parse input as `t`");
    assert_eq!(e.span, Some(Span::new(2, 3)));
    assert_eq!(e.position, Some(Position::new(1, 3)));
    let e = earley_parse(&start, &g, &metavars, &toks, "a a").unwrap_err();
    assert_eq!(e.span, Some(Span::new(2, 3)));
}

#[test]
fn missing_lexer_reported_only_when_reached() {
    // t -> a | b x: the sort `x` has no lexer, but "a" never reaches it.
    let g = Grammar {
        prods: vec![
            prod("t", vec![term("a")]),
            prod("t", vec![term("b"), Sym::Metavar("x".to_string())]),
        ],
    };
    let metavars: Vec<(String, MetavarDef)> = Vec::new();
    let start = "t".to_string();
    let toks = vec![tok("a", 0, 1)];
    assert!(earley_recognize(&start, &g, &metavars, &toks, "a").is_ok());
    let toks = vec![tok("b", 0, 1), tok("a", 2, 3)];
    let e = earley_recognize(&start, &g, &metavars, &toks, "b a").unwrap_err();
    assert_eq!(e.message, "missing lex specification for metavariable sort `x`");
    assert_eq!(e.span, None);
}

#[test]
fn missing_lexer_reported_at_the_first_position_that_needs_one() {
    // t -> a y | a b x: after "a" the sort `y` is needed, before `x` is.
    let g = Grammar {
        prods: vec![
            prod("t", vec![term("a"), Sym::Metavar("y".to_string())]),
            prod("t", vec![term("a"), term("b"), Sym::Metavar("x".to_string())]),
        ],
    };
    let metavars: Vec<(String, MetavarDef)> = Vec::new();
    let start = "t".to_string();
    let toks = vec![tok("a", 0, 1), tok("b", 2, 3), tok("c", 4, 5)];
    let e = earley_parse(&start, &g, &metavars, &toks, "a b c").unwrap_err();
    assert_eq!(e.message, "missing lex specification for metavariable sort `y`");
}
