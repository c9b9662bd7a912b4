use ott::plugin::{compile_spec_syntax, rules_document, term_math, SyntaxCache, MAX_CACHED_SPECS};
use ott::render::TypstRenderItem;

const LAMBDA: &str = r#"
metavar termvar, x ::=
  {{ lex alphanum }}

grammar
t, u :: 't_' ::=
  | x :: :: var {{ typst [[x]] }}
  | \ x . t :: :: lam {{ typst lambda [[x]]. [[t]] }}
  | t t' :: :: app {{ typst [[t]] space [[t']] }}
  | ( t ) :: M :: paren {{ typst ([[t]]) }}
"#;

const RULES: &str = "grammar\nt :: T ::=\n  | x :: :: a\ndefn\nj :: :: j :: J_ by\n\n---- :: r\na\n";

#[test]
fn rules_document_renders_checked_spec() {
    let doc = rules_document(RULES).unwrap();
    assert_eq!(doc.items.len(), 3);
    match &doc.items[0] {
        TypstRenderItem::Grammar { nonterminal, comment, alternatives } => {
            assert_eq!(nonterminal, "t");
            assert_eq!(*comment, None);
            assert_eq!(alternatives, &vec!["x".to_string()]);
        }
        _ => panic!("expected a grammar entry"),
    }
    match &doc.items[2] {
        TypstRenderItem::Rule { name, conclusion, .. } => {
            assert_eq!(name, "r");
            assert_eq!(conclusion, "a");
        }
        _ => panic!("expected a rule"),
    }
}

#[test]
fn rules_document_reports_check_errors_as_text() {
    let src = "grammar\nt :: T ::=\n  | x :: :: a\ngrammar\nt :: U ::=\n  | y :: :: b\n";
    let err = rules_document(src).unwrap_err();
    assert_eq!(err, "duplicate grammar root `t` (line 2, col 1)");
}

#[test]
fn compile_spec_syntax_reports_errors_as_text() {
    let syntax = compile_spec_syntax(LAMBDA).unwrap();
    assert_eq!(*syntax.roots(), vec!["t".to_string()]);
    let err = compile_spec_syntax("grammar\nt :: T ::=\n  | x :: :: a (+ bind x +)\n").unwrap_err();
    assert_eq!(err, "invalid binding specification in grammar `t`: expected In, found Eof (byte offset 6) (line 1, col 1)");
}

#[test]
fn term_math_trims_the_root_and_defaults_to_the_first() {
    let syntax = compile_spec_syntax(LAMBDA).unwrap();
    assert_eq!(term_math(&syntax, "", "\\x.x").unwrap(), "lambda x. x");
    assert_eq!(term_math(&syntax, "  u ", "(x)").unwrap(), "(x)");
    assert_eq!(term_math(&syntax, "t", "x y").unwrap(), "x space y");
    assert_eq!(term_math(&syntax, "v", "x").unwrap_err(), "unknown grammar root `v`");
}

#[test]
fn term_math_without_roots_reports_it() {
    let syntax = compile_spec_syntax("metavar termvar, x ::=\n  {{ lex alphanum }}\n").unwrap();
    assert_eq!(term_math(&syntax, " ", "x").unwrap_err(), "spec does not define any grammar roots");
}

#[test]
fn cache_reuses_entries_and_keeps_the_newest() {
    let mut cache = SyntaxCache::new();
    assert_eq!(cache.len(), 0);
    let first = cache.get_or_insert(LAMBDA).unwrap();
    assert_eq!(first, 0);
    assert_eq!(cache.get_or_insert(LAMBDA).unwrap(), 0);
    assert_eq!(cache.len(), 1);
    assert_eq!(term_math(cache.syntax(first), "t", "x").unwrap(), "x");

    let mut specs = Vec::new();
    for k in 0..MAX_CACHED_SPECS {
        specs.push(format!("grammar\nr{k} :: R ::=\n  | a :: :: a\n"));
    }
    for s in &specs {
        cache.get_or_insert(s).unwrap();
    }
    assert_eq!(cache.len(), MAX_CACHED_SPECS);
    // The oldest entry (LAMBDA) left; the newest is last.
    let again = cache.get_or_insert(&specs[MAX_CACHED_SPECS - 1]).unwrap();
    assert_eq!(again, MAX_CACHED_SPECS - 1);
    assert_eq!(*cache.syntax(0).roots(), vec!["r0".to_string()]);
    let lambda = cache.get_or_insert(LAMBDA).unwrap();
    assert_eq!(lambda, MAX_CACHED_SPECS - 1);
    assert_eq!(*cache.syntax(0).roots(), vec!["r1".to_string()]);
}

#[test]
fn cache_keeps_nothing_on_failure() {
    let mut cache = SyntaxCache::new();
    let bad = "grammar\nt :: T ::=\n  | x :: :: a\ngrammar\nt :: U ::=\n  | y :: :: b\n";
    assert_eq!(cache.get_or_insert(bad).unwrap_err(), "duplicate grammar root `t` (line 2, col 1)");
    assert_eq!(cache.len(), 0);
}
