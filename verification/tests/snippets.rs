use ott::check::{check_spec, OttOptions};
use ott::parser::parse_spec;
use ott::syntax::{compile_syntax, OttSyntax};
use ott::error::{Position, Span};

fn compile(src: &str) -> OttSyntax {
    let spec = parse_spec(src).expect("parse should succeed");
    let checked = check_spec(spec, &OttOptions::default()).expect("check should succeed");
    compile_syntax(&checked).expect("compile should succeed")
}

const LAMBDA: &str = r#"
metavar termvar, x ::=
  {{ lex alphanum }}

grammar
t :: 't_' ::=
  | x :: :: var {{ typst [[x]] }}
  | \ x . t :: :: lam {{ typst lambda [[x]]. [[t]] }}
  | t t' :: :: app {{ typst [[t]] space [[t']] }}
  | ( t ) :: M :: paren {{ typst ([[t]]) }}
  | [ x // t ] t' :: :: subst
"#;

#[test]
fn user_syntax_reports_ambiguity() {
    let spec_src = r#"
metavar ident, x ::= {{ lex alphanum }}

grammar

a :: A_ ::=
  | x y :: :: Axy {{ typst A }}

b :: B_ ::=
  | x y :: :: Bxy {{ typst B }}
"#;

    let spec = parse_spec(spec_src).expect("parse should succeed");
    let checked = check_spec(spec, &OttOptions::default()).expect("check should succeed");
    let syntax = compile_syntax(&checked).expect("compile should succeed");

    let err = syntax
        .render_typst_math("", "x y")
        .expect_err("should be ambiguous");

    assert!(
        err.to_string().contains("ambiguous snippet"),
        "unexpected error: {}",
        err.to_string()
    );
}

#[test]
fn renders_lambda_with_templates() {
    let syntax = compile(LAMBDA);
    assert_eq!(*syntax.roots(), vec!["t".to_string()]);
    assert_eq!(syntax.default_root(), Some("t"));
    assert_eq!(syntax.resolve_root("t"), Some("t"));
    assert_eq!(syntax.resolve_root("u"), None);
    assert_eq!(syntax.render_typst_math("t", "\\x.x").unwrap(), "lambda x. x");
    assert_eq!(syntax.render_typst_math("", "\\x.x").unwrap(), "lambda x. x");
    assert_eq!(syntax.render_typst_math("t", "(x y)").unwrap(), "(x space y)");
    assert_eq!(syntax.render_typst_math("t", "x y z").unwrap(), "x space y space z");
}

#[test]
fn node_without_template_renders_its_source() {
    let syntax = compile(LAMBDA);
    assert_eq!(syntax.render_typst_math("t", "[ x // y ] z").unwrap(), "\"[ x // y ] z\"");
}

#[test]
fn metavariables_render_as_identifiers() {
    let syntax = compile(LAMBDA);
    assert_eq!(syntax.render_typst_math("t", "x12").unwrap(), "x_12");
    assert_eq!(syntax.render_typst_math("t", "x'").unwrap(), "x'");
    assert_eq!(syntax.render_typst_math("t", "y_3").unwrap(), "y_3");
    assert_eq!(syntax.render_typst_math("t", "foo").unwrap(), "\"foo\"");
}

#[test]
fn parse_gives_trimmed_input() {
    let syntax = compile(LAMBDA);
    assert_eq!(syntax.parse("t", "  \\x . x  ").unwrap(), "\\x . x");
    assert_eq!(syntax.parse("", "x").unwrap_err().message, "unknown grammar root ``");
}

#[test]
fn unknown_roots_and_characters_are_reported() {
    let syntax = compile(LAMBDA);
    let err = syntax.render_typst_math("s", "x").unwrap_err();
    assert_eq!(err.to_string(), "unknown grammar root `s`");
    let err = syntax.parse("t", "x # y").unwrap_err();
    assert_eq!(err.message, "unexpected character `#`");
    assert_eq!(err.span, Some(ott::error::Span::new(2, 3)));
    assert_eq!(err.to_string(), "unexpected character `#` (line 1, col 3)");
}

#[test]
fn parse_failures_point_at_the_last_reached_token() {
    let syntax = compile(LAMBDA);
    let err = syntax.parse("t", "\\x.").unwrap_err();
    assert_eq!(err.message, "failed to parse input as `t`");
    assert_eq!(err.span, Some(ott::error::Span::new(3, 3)));
    let err = syntax.render_typst_math("t", "x )").unwrap_err();
    assert_eq!(err.message, "failed to parse input as `t`");
    assert_eq!(err.span, Some(ott::error::Span::new(2, 3)));
}

#[test]
fn dot_forms_become_lists() {
    let syntax = compile(
        "metavar termvar, x ::= {{ lex alphanum }}\ngrammar\nt :: T_ ::=\n  | x :: :: var {{ typst [[x]] }}\n  | { t1 , .. , tn } :: :: set\n",
    );
    assert_eq!(syntax.render_typst_math("t", "{x, y, z}").unwrap(), "\"{x, y, z}\"");
    assert!(syntax.parse("t", "{x, y,}").is_err());
}

#[test]
fn comprehension_forms_become_lists() {
    let syntax = compile(
        "metavar termvar, x ::= {{ lex alphanum }}\ngrammar\nt :: T_ ::=\n  | x :: :: var\n  | f </ t // ; // i /> end :: :: call\n",
    );
    assert_eq!(syntax.parse("t", "f x ; y ; z end").unwrap(), "f x ; y ; z end");
    assert!(syntax.parse("t", "f end").is_err());
}

#[test]
fn regex_lexical_classes() {
    let syntax = compile("metavar var, v ::= {{ lex [a-z][0-9]* }}\ngrammar\ne :: E_ ::=\n  | v :: :: var {{ typst [[v]] }}\n");
    assert_eq!(syntax.render_typst_math("e", "a12").unwrap(), "a_12");
    let err = syntax.render_typst_math("e", "ab").unwrap_err();
    assert_eq!(err.message, "failed to parse input as `e`");
}

#[test]
fn numeral_metavariables() {
    let syntax = compile("indexvar n ::= {{ lex numeral }}\ngrammar\ne :: E_ ::=\n  | n :: :: num {{ typst [[n]] }}\n  | e + e' :: :: add {{ typst [[e]] + [[e']] }}\n");
    assert_eq!(syntax.render_typst_math("e", "1 + -2").unwrap(), "1 + -2");
}

#[test]
fn template_errors() {
    let spec = parse_spec("metavar x ::= {{ typst [[ }}\n").unwrap();
    let checked = check_spec(spec, &OttOptions::default()).unwrap();
    let err = compile_syntax(&checked).unwrap_err();
    assert_eq!(err.message, "unclosed `[[` in typst template");

    let syntax = compile("metavar termvar, x ::= {{ lex alphanum }}\ngrammar\nt :: T_ ::=\n  | x :: :: var {{ typst [[y]] }}\n");
    let err = syntax.render_typst_math("t", "x").unwrap_err();
    assert_eq!(err.message, "unknown typst template hole `[[y]]` (available: x)");
}

#[test]
fn quoted_fallback_escapes_text() {
    let syntax = compile("metavar termvar, x ::= {{ lex alphanum }}\ngrammar\nt :: T_ ::=\n  | x \" :: :: q\n");
    assert_eq!(syntax.render_typst_math("t", "x\"").unwrap(), "\"x\\\"\"");
}

const ARROW_TYPST: &str = r#"
metavar termvar, x ::=
  {{ lex alphanum }}

grammar
t :: 't_' ::=                                  {{ com term }}
  | x                 ::   :: var               {{ typst [[x]] }}
  | \ x . t           ::   :: abs  (+ bind x in t +) {{ typst lambda [[x]]. [[t]] }}
  | t t'              ::   :: app               {{ typst [[t]] space [[t']] }}
  | ( t )             :: S :: paren             {{ typst ([[t]]) }}
  | [ x |-> t ] t'    :: M :: sub               {{ typst [ [[x]] mapsto [[t]] ] [[t']] }}

v :: 'v_' ::=                                  {{ com value }}
  | \ x . t           ::   :: abs               {{ typst lambda [[x]]. [[t]] }}
"#;

#[test]
fn user_syntax_auto_parses_without_root() {
    let spec = parse_spec(ARROW_TYPST).expect("parse should succeed");
    let checked = check_spec(spec, &OttOptions::default()).expect("check should succeed");
    let syntax = compile_syntax(&checked).expect("compile should succeed");

    // An empty root tries every grammar root.
    let code = syntax.render_typst_math("", "\\x.x").expect("should render");

    assert_eq!(code, "lambda x. x");
}

#[test]
fn typst_hom_pretty_prints_terms() {
    let syntax = compile(ARROW_TYPST);
    assert_eq!(syntax.render_typst_math("t", "\\x.x").expect("render should succeed"), "lambda x. x");
    assert_eq!(syntax.render_typst_math("t", "[x|->x]x").expect("render should succeed"), "[ x mapsto x ] x");
}

#[test]
fn parse_terms_against_tapl_arrow_grammar() {
    let syntax = compile(ARROW_TYPST);
    let root = syntax.default_root().expect("should have at least one root");
    assert_eq!(root, "t");

    assert!(syntax.parse("t", "x").is_ok());
    assert!(syntax.parse("t", "\\ x . x").is_ok());
    assert!(syntax.parse("t", "\\x.x").is_ok());
    assert!(syntax.parse("t", "x x").is_ok());
    assert!(syntax.parse("t", "[x|->x]x").is_ok());
    assert!(syntax.parse("t", "@").is_err());
}

const NULLABLE: &str = r#"
metavar ident, x ::=

grammar
l :: L_ ::=
  |           :: :: nil
  | l a       :: :: snoc
  | x         :: :: var
"#;

#[test]
fn left_recursive_and_empty_productions_parse() {
    let syntax = compile(NULLABLE);
    assert!(syntax.parse("l", "").is_ok());
    assert!(syntax.parse("l", "a").is_ok());
    assert!(syntax.parse("l", "a a a").is_ok());
    assert!(syntax.parse("l", "y a a").is_ok());
    assert!(syntax.parse("l", "a y").is_err());
}

#[test]
fn metavariables_without_lex_block_read_alphanumeric_words() {
    let syntax = compile(NULLABLE);
    assert_eq!(syntax.parse("l", " x1 ").unwrap(), "x1");
}

#[test]
fn rendered_snippets_also_parse() {
    let syntax = compile(LAMBDA);
    for input in ["x", "\\x.x", "(x y)", "x y z"] {
        assert!(syntax.render_typst_math("t", input).is_ok());
        assert!(syntax.parse("t", input).is_ok());
        assert!(syntax.render_typst_math("", input).is_ok());
    }
}

const TWO_ROOTS: &str = r#"
metavar ident, x ::= {{ lex alphanum }}

grammar

a :: A_ ::=
  | x y :: :: Axy {{ typst A }}
  | x :: :: Ax {{ typst X }}

b :: B_ ::=
  | x y :: :: Bxy {{ typst A }}
"#;

#[test]
fn empty_root_agrees_when_readings_render_alike() {
    let syntax = compile(TWO_ROOTS);
    assert_eq!(syntax.render_typst_math("", "x y").unwrap(), "A");
    assert_eq!(syntax.render_typst_math("", "x").unwrap(), "X");
    let err = syntax.render_typst_math("", "y x").unwrap_err();
    assert_eq!(err.message, "snippet does not parse as any grammar root");
}

#[test]
fn failed_parses_report_the_root() {
    let syntax = compile(LAMBDA);
    let err = syntax.parse("t", "x )").unwrap_err();
    assert_eq!(err.message, "failed to parse input as `t`");
    let err = syntax.render_typst_math("t", ")").unwrap_err();
    assert_eq!(err.message, "failed to parse input as `t`");
}

const NESTED: &str = r#"
grammar
t :: T_ ::=
  | a       :: :: leaf
  | b t c   :: :: wrap
"#;

#[test]
fn failures_point_at_the_farthest_token_or_the_end() {
    let syntax = compile(NESTED);
    let err = syntax.parse("t", "b a").unwrap_err();
    assert_eq!(err.message, "failed to parse input as `t`");
    assert_eq!(err.span, Some(Span::new(3, 3)));
    assert_eq!(err.position, Some(Position::new(1, 4)));
    let err = syntax.parse("t", "a a").unwrap_err();
    assert_eq!(err.span, Some(Span::new(2, 3)));
    assert_eq!(err.position, Some(Position::new(1, 3)));
}

const TWO_PRODUCTIONS: &str = r#"
metavar ident, x ::= {{ lex alphanum }}

grammar
t :: T_ ::=
  | x :: :: first {{ typst A }}
  | x :: :: second {{ typst B }}
"#;

#[test]
fn the_lowest_production_is_chosen() {
    let syntax = compile(TWO_PRODUCTIONS);
    assert_eq!(syntax.render_typst_math("t", "y").unwrap(), "A");
}
