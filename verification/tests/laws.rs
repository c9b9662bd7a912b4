use ott::ast::{GrammarRule, GrammarSection, Item, Production, Spec};
use ott::bind::parse_bind_spec;
use ott::check::{check_spec, OttOptions};
use ott::parser::parse_spec;
use ott::plugin::{compile_spec_syntax, term_math};

const SYNONYMS: &str = r#"
metavar termvar , x ::=
  {{ lex alphanum }}

grammar
 t , u :: 't_' ::=
  | x :: :: var {{ typst [[x]] }}
  | ( t ) :: :: paren {{ typst ([[t]]) }}
v :: 'v_' ::=
  | t :: :: one {{ typst [[t]] }}

grammar
w, 'q' :: 'w_' ::=
  | x :: :: leaf {{ typst [[x]] }}
"#;

#[test]
fn compiled_roots_follow_the_rules_and_resolve_synonyms() {
    let syntax = compile_spec_syntax(SYNONYMS).unwrap();
    assert_eq!(*syntax.roots(), vec!["t".to_string(), "v".to_string(), "w".to_string()]);
    assert_eq!(syntax.default_root(), Some("t"));
    assert_eq!(syntax.resolve_root("u"), Some("t"));
    assert_eq!(syntax.resolve_root("t"), Some("t"));
    assert_eq!(syntax.resolve_root("v"), Some("v"));
    assert_eq!(syntax.resolve_root("q"), Some("w"));
    assert_eq!(syntax.resolve_root("x"), None);
    assert_eq!(syntax.resolve_root("zz"), None);
}

#[test]
fn parsed_names_are_trimmed_and_patterns_hold_no_separator() {
    let spec = parse_spec(SYNONYMS).unwrap();
    match &spec.items[0] {
        Item::Metavar(m) => assert_eq!(m.names, vec!["termvar".to_string(), "x".to_string()]),
        _ => panic!("expected a metavariable declaration"),
    }
    match &spec.items[1] {
        Item::Grammar(g) => {
            assert_eq!(g.rules[0].roots, vec!["t".to_string(), "u".to_string()]);
            assert_eq!(g.rules[1].roots, vec!["v".to_string()]);
            for r in &g.rules {
                for p in &r.productions {
                    assert!(!p.pattern.contains("::"));
                }
            }
            assert_eq!(g.rules[0].productions[1].pattern, "( t )");
        }
        _ => panic!("expected a grammar"),
    }
    assert!(matches!(spec.items[2], Item::Grammar(_)));
}

#[test]
fn term_math_is_the_rendering_as_the_chosen_root() {
    let syntax = compile_spec_syntax(SYNONYMS).unwrap();
    let rendered = syntax.render_typst_math("t", "( x )").unwrap();
    assert_eq!(term_math(&syntax, "", "( x )").unwrap(), rendered);
    assert_eq!(term_math(&syntax, " u ", "( x )").unwrap(), rendered);
    let err = syntax.render_typst_math("t", "( x").unwrap_err();
    assert_eq!(term_math(&syntax, "", "( x").unwrap_err(), err.to_string());
}

#[test]
fn bind_errors_point_at_a_non_space_byte() {
    for src in ["bind x", "  bind x in", "bind \u{e9} in t", "\t\u{e9}", "bind x in t t", "", "   "] {
        match parse_bind_spec(src) {
            Ok(_) => {}
            Err(e) => {
                let bytes = src.as_bytes();
                assert!(e.offset <= bytes.len());
                if e.offset < bytes.len() {
                    assert!(!matches!(bytes[e.offset], b' ' | b'\t' | b'\n' | b'\r'));
                }
            }
        }
    }
    let e = parse_bind_spec("bind \u{e9} in t").unwrap_err();
    assert_eq!(e.offset, 5);
}

fn rule(roots: &[&str], bind: &str) -> GrammarRule {
    GrammarRule {
        roots: roots.iter().map(|r| r.to_string()).collect(),
        sort: "T".to_string(),
        comment: None,
        annotations: Vec::new(),
        productions: vec![Production {
            pattern: "x".to_string(),
            meta: None,
            name: Some("a".to_string()),
            bind_specs: vec![bind.to_string()],
            annotations: Vec::new(),
            raw: "| x :: :: a".to_string(),
        }],
    }
}

#[test]
fn strict_check_reports_errors_before_a_rule_without_roots() {
    // The duplicate root is reported before the rule without roots is reached.
    let spec = Spec {
        items: vec![Item::Grammar(GrammarSection {
            rules: vec![rule(&["t"], "bind x in t"), rule(&["t"], "bind x in t"), rule(&[], "bind x in t")],
        })],
    };
    let e = check_spec(spec, &OttOptions { strict: true }).unwrap_err();
    assert_eq!(e.message, "duplicate grammar root `t`");
    // A bad binding specification too.
    let spec = Spec {
        items: vec![Item::Grammar(GrammarSection { rules: vec![rule(&["t"], "bind x"), rule(&[], "bind x in t")] })],
    };
    let e = check_spec(spec, &OttOptions { strict: true }).unwrap_err();
    assert!(e.message.starts_with("invalid binding specification in grammar `t`"));
    // Relaxed checking never needs a root.
    let spec = Spec { items: vec![Item::Grammar(GrammarSection { rules: vec![rule(&[], "bind x")] })] };
    assert!(check_spec(spec, &OttOptions { strict: false }).is_ok());
}
