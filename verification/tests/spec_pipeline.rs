use ott::ast::{Item, SubstKind};
use ott::check::{check_spec, OttOptions};
use ott::error::{position_from_offset, OttError, Position, Span};
use ott::parser::parse_spec;
use ott::render::{render_for_typst, RenderError, TypstRenderDoc, TypstRenderItem};

const TWO_GRAMMARS: &str = r#"
metavar ident, x ::= {{ lex alphanum }}

grammar

a :: A_ ::=
  | x y :: :: Axy {{ typst A }}

b :: B_ ::=
  | x y :: :: Bxy {{ typst B }}
"#;

const ARROW: &str = r#"% simply typed lambda calculus
metavar termvar, x ::=
  {{ lex alphanum }}

grammar
t :: 't_' ::= {{ com term }}
  | x :: :: var {{ com variable }}
  | \ x . t :: :: lam (+ bind x in t +) {{ com abstraction }}
  | t t' :: :: app
  | ( t ) :: M :: paren

v :: 'v_' ::=
  | \ x . t :: :: vlam

subrules
  v <:: t

substitutions
  single t x :: tsubst

defns
Jop :: '' ::=

defn
t --> t' :: :: reduce :: E_ {{ com Evaluation }} by

t1 --> t1'
-------------- :: app1
t1 t --> t1' t

----------------------- :: beta
(\x.t12) v2 --> [x|->v2]t12
"#;

#[test]
fn parses_metavar_and_grammar_sections() {
    let spec = parse_spec(TWO_GRAMMARS).unwrap();
    assert_eq!(spec.items.len(), 2);
    match &spec.items[0] {
        Item::Metavar(m) => {
            assert!(!m.is_index);
            assert_eq!(m.names, vec!["ident".to_string(), "x".to_string()]);
            assert_eq!(m.reps.len(), 1);
            assert_eq!(m.reps[0].name, "lex");
            assert_eq!(m.reps[0].body, "alphanum");
        }
        _ => panic!("expected a metavar"),
    }
    match &spec.items[1] {
        Item::Grammar(g) => {
            assert_eq!(g.rules.len(), 2);
            assert_eq!(g.rules[0].roots, vec!["a".to_string()]);
            assert_eq!(g.rules[0].sort, "A_");
            let p = &g.rules[0].productions[0];
            assert_eq!(p.pattern, "x y");
            assert_eq!(p.meta, None);
            assert_eq!(p.name.as_deref(), Some("Axy"));
            assert_eq!(p.annotations.len(), 1);
            assert_eq!(p.annotations[0].name, "typst");
            assert_eq!(p.annotations[0].body, "A");
        }
        _ => panic!("expected a grammar"),
    }
}

#[test]
fn parses_a_full_specification() {
    let spec = parse_spec(ARROW).unwrap();
    assert_eq!(spec.items.len(), 6);
    match &spec.items[1] {
        Item::Grammar(g) => {
            let t = &g.rules[0];
            assert_eq!(t.roots, vec!["t".to_string()]);
            assert_eq!(t.sort, "'t_'");
            assert_eq!(t.comment.as_deref(), Some("term"));
            assert_eq!(t.productions.len(), 4);
            let lam = &t.productions[1];
            assert_eq!(lam.pattern, "\\ x . t");
            assert_eq!(lam.bind_specs, vec!["bind x in t".to_string()]);
            assert_eq!(lam.name.as_deref(), Some("lam"));
            assert_eq!(t.productions[3].meta.as_deref(), Some("M"));
        }
        _ => panic!("expected a grammar"),
    }
    match &spec.items[2] {
        Item::Subrules(s) => {
            assert_eq!(s.relations.len(), 1);
            assert_eq!(s.relations[0].sub, "v");
            assert_eq!(s.relations[0].sup, "t");
        }
        _ => panic!("expected subrules"),
    }
    match &spec.items[3] {
        Item::Substitutions(s) => {
            assert_eq!(s.entries.len(), 1);
            assert_eq!(s.entries[0].kind, SubstKind::Single);
            assert_eq!(s.entries[0].nonterminal, "t");
            assert_eq!(s.entries[0].metavar, "x");
            assert_eq!(s.entries[0].name, "tsubst");
        }
        _ => panic!("expected substitutions"),
    }
    match &spec.items[4] {
        Item::Defns(d) => assert_eq!(d.lines, vec!["defns".to_string(), "Jop :: '' ::=".to_string(), "".to_string()]),
        _ => panic!("expected defns"),
    }
    match &spec.items[5] {
        Item::Defn(d) => {
            assert_eq!(d.header, "t --> t' :: :: reduce :: E_");
            assert_eq!(d.comment.as_deref(), Some("Evaluation"));
            assert_eq!(d.rules.len(), 2);
            assert_eq!(d.rules[0].name, "app1");
            assert_eq!(d.rules[0].premises, vec!["t1 --> t1'".to_string()]);
            assert_eq!(d.rules[0].conclusion, vec!["t1 t --> t1' t".to_string()]);
            assert_eq!(d.rules[1].name, "beta");
            assert!(d.rules[1].premises.is_empty());
        }
        _ => panic!("expected a defn"),
    }
}

#[test]
fn unknown_sections_keep_their_lines() {
    let spec = parse_spec("homs 't'\n  :: foo {{ tex x }}\ngrammar\n").unwrap();
    assert_eq!(spec.items.len(), 2);
    match &spec.items[0] {
        Item::UnknownSection(u) => {
            assert_eq!(u.keyword, "homs");
            assert_eq!(u.lines.len(), 2);
        }
        _ => panic!("expected an unknown section"),
    }
}

#[test]
fn comment_blocks_and_indexvars() {
    let spec = parse_spec(">> a comment\n  nested >> x << \n<<\nindexvar i, j ::= {{ lex numeral }}\n").unwrap();
    assert_eq!(spec.items.len(), 1);
    match &spec.items[0] {
        Item::Metavar(m) => {
            assert!(m.is_index);
            assert_eq!(m.names, vec!["i".to_string(), "j".to_string()]);
        }
        _ => panic!("expected an indexvar"),
    }
}

#[test]
fn grammar_header_errors_carry_their_line() {
    let err = parse_spec("grammar\n  t :: T\n").unwrap_err();
    assert_eq!(err.message, "expected grammar rule header containing `::=`");
    assert_eq!(err.position, Some(Position::new(2, 1)));
    assert_eq!(err.to_string(), "expected grammar rule header containing `::=` (line 2, col 1)");

    let err = parse_spec("grammar\n  t ::= \n").unwrap_err();
    assert_eq!(err.message, "expected `::` in grammar header before `::=`");

    let err = parse_spec("grammar\n , :: T ::=\n").unwrap_err();
    assert_eq!(err.message, "grammar rule must have at least one root");
}

#[test]
fn production_errors() {
    let err = parse_spec("grammar\nt :: T ::=\n  x :: :: var\n").unwrap_err();
    assert_eq!(err.message, "expected production line starting with `|`");
    assert_eq!(err.position, Some(Position::new(3, 1)));

    let err = parse_spec("grammar\nt :: T ::=\n  | x\n").unwrap_err();
    assert_eq!(err.message, "expected `::` metadata in production");
}

#[test]
fn metavar_and_substitution_errors() {
    let err = parse_spec("metavar x\n").unwrap_err();
    assert_eq!(err.message, "expected `::=` in metavar declaration");
    assert_eq!(err.position, Some(Position::new(1, 1)));

    let err = parse_spec("substitutions\n  twice t x :: s\n").unwrap_err();
    assert_eq!(err.message, "expected `single` or `multiple` in substitutions");
    assert_eq!(err.position, Some(Position::new(2, 1)));

    let err = parse_spec("subrules\n  v t\n").unwrap_err();
    assert_eq!(err.message, "expected `<::` in subrules line");
}

#[test]
fn defn_errors() {
    let err = parse_spec("defn\n").unwrap_err();
    assert_eq!(err.message, "unexpected EOF after `defn`");
    let err = parse_spec("defn x by\n----- App\n").unwrap_err();
    assert_eq!(err.message, "expected `:: RuleName` after rule bar");
    let err = parse_spec("defn x by\n----- :: App\n").unwrap_err();
    assert_eq!(err.message, "unexpected EOF: missing rule conclusion");
}

#[test]
fn check_collects_roots_in_string_order() {
    let src = "grammar\nv :: V ::=\n  | x :: :: a\ngrammar\nt, b :: T ::=\n  | y :: :: c\n";
    let checked = check_spec(parse_spec(src).unwrap(), &OttOptions::default()).unwrap();
    assert_eq!(checked.grammar_roots, vec!["b".to_string(), "t".to_string(), "v".to_string()]);
    assert_eq!(checked.grammar_index, vec![1, 1, 0]);
    assert_eq!(checked.root_index(&"v".to_string()), Some(0));
    let spec = parse_spec(ARROW).unwrap();
    let checked = check_spec(spec, &OttOptions::default()).unwrap();
    assert_eq!(checked.grammar_roots, vec!["t".to_string(), "v".to_string()]);
    assert_eq!(checked.grammar_index, vec![1, 1]);
    assert!(checked.has_root(&"v".to_string()));
    assert!(!checked.has_root(&"x".to_string()));
    assert_eq!(checked.root_index(&"t".to_string()), Some(1));
    assert_eq!(checked.root_index(&"w".to_string()), None);
}

#[test]
fn check_rejects_duplicate_roots() {
    let src = "grammar\nt :: T ::=\n  | x :: :: a\ngrammar\nt :: U ::=\n  | y :: :: b\n";
    let spec = parse_spec(src).unwrap();
    let err = check_spec(spec, &OttOptions::default()).unwrap_err();
    assert_eq!(err.message, "duplicate grammar root `t`");
    assert_eq!(err.position, Some(Position::new(2, 1)));
}

#[test]
fn check_rejects_invalid_bind_specs_when_strict() {
    let src = "grammar\nt, u :: T ::=\n  | x :: :: a (+ bind x +)\n";
    let spec = parse_spec(src).unwrap();
    let err = check_spec(spec.clone(), &OttOptions::default()).unwrap_err();
    assert_eq!(
        err.message,
        "invalid binding specification in grammar `t`: expected In, found Eof (byte offset 6)"
    );
    assert_eq!(err.position, Some(Position::new(1, 1)));
    let relaxed = check_spec(spec, &OttOptions { strict: false }).unwrap();
    assert_eq!(relaxed.grammar_roots, vec!["t".to_string(), "u".to_string()]);
}

#[test]
fn check_rejects_unknown_subrule_roots() {
    let src = "grammar\nt :: T ::=\n  | x :: :: a\nsubrules\n  v <:: t\n";
    let spec = parse_spec(src).unwrap();
    let err = check_spec(spec, &OttOptions::default()).unwrap_err();
    assert_eq!(err.message, "subrules references unknown grammar root `v`");
    assert_eq!(err.position, Some(Position::new(2, 1)));
}

#[test]
fn check_rejects_bad_inference_rules() {
    let src = "defn\nj :: :: j :: J_ by\n\n---- :: r\na\n\n---- :: r\nb\n";
    let spec = parse_spec(src).unwrap();
    let err = check_spec(spec, &OttOptions::default()).unwrap_err();
    assert_eq!(err.message, "duplicate inference rule name `r` within a defn block");
    assert_eq!(err.position, Some(Position::new(1, 1)));
}

#[test]
fn render_lists_grammars_and_rules() {
    let spec = parse_spec(ARROW).unwrap();
    let checked = check_spec(spec, &OttOptions::default()).unwrap();
    let doc = render_for_typst(&checked);
    assert_eq!(doc.items.len(), 5);
    match &doc.items[0] {
        TypstRenderItem::Grammar { nonterminal, comment, alternatives } => {
            assert_eq!(nonterminal, "t");
            assert_eq!(comment.as_deref(), Some("term"));
            assert_eq!(alternatives[1], "\\ x . t (+ bind x in t +)");
            assert_eq!(alternatives[2], "t t'");
        }
        _ => panic!("expected a grammar entry"),
    }
    match &doc.items[2] {
        TypstRenderItem::Section { title } => assert_eq!(title, "Evaluation"),
        _ => panic!("expected a section"),
    }
    match &doc.items[4] {
        TypstRenderItem::Rule { name, comment, premises, conclusion } => {
            assert_eq!(name, "beta");
            assert_eq!(*comment, None);
            assert!(premises.is_empty());
            assert_eq!(conclusion, "(\\x.t12) v2 --> [x|->v2]t12");
        }
        _ => panic!("expected a rule"),
    }
}

#[test]
fn render_joins_conclusion_lines_and_uses_header_without_comment() {
    let src = "defn\nj :: :: j :: J_ by\n\n---- :: r\na\nb\n";
    let spec = parse_spec(src).unwrap();
    let checked = check_spec(spec, &OttOptions::default()).unwrap();
    let doc = render_for_typst(&checked);
    assert_eq!(doc.items.len(), 2);
    match &doc.items[0] {
        TypstRenderItem::Section { title } => assert_eq!(title, "j :: :: j :: J_"),
        _ => panic!("expected a section"),
    }
    match &doc.items[1] {
        TypstRenderItem::Rule { conclusion, .. } => assert_eq!(conclusion, "a b"),
        _ => panic!("expected a rule"),
    }
}

#[test]
fn render_doc_and_error_constructors() {
    let doc = TypstRenderDoc::new(vec![TypstRenderItem::Section { title: "s".to_string() }]);
    assert_eq!(doc.items.len(), 1);
    let e = RenderError::new("boom".to_string());
    assert_eq!(e.to_string(), "boom");
}

#[test]
fn positions_count_lines_and_bytes() {
    let src = "ab\ncd\n\nxyz";
    assert_eq!(position_from_offset(src, 0), Position::new(1, 1));
    assert_eq!(position_from_offset(src, 4), Position::new(2, 2));
    assert_eq!(position_from_offset(src, 7), Position::new(4, 1));
    assert_eq!(position_from_offset(src, 100), Position::new(4, 94));
}

#[test]
fn error_builders_keep_message_and_location() {
    let e = OttError::new("bad".to_string());
    assert_eq!(e.to_string(), "bad");
    let e = e.with_span(Span::new(3, 4), "ab\ncd");
    assert_eq!(e.span, Some(Span::new(3, 4)));
    assert_eq!(e.position, Some(Position::new(2, 1)));
    assert_eq!(e.to_string(), "bad (line 2, col 1)");
    let e = e.with_position(Position::new(9, 8));
    assert_eq!(e.to_string(), "bad (line 9, col 8)");
}

const TAPL_ARROW: &str = r#"
metavar termvar, x ::=
  {{ lex alphanum }}

grammar
t :: 't_' ::=                       {{ com term }}
  | x              ::   :: var
  | \ x . t        ::   :: abs (+ bind x in t +)
  | t t'           ::   :: app
  | ( t )          :: S :: paren
  | [ x |-> t ] t' :: M :: sub

v :: 'v_' ::=                       {{ com value }}
  | \ x . t        ::   :: abs

subrules
  v <:: t

defns
Jop :: '' ::=

defn
t --> t' :: :: reduce :: E_ {{ com Evaluation }} by

t1 --> t1'
-------------- :: App1
t1 t --> t1' t

t1 --> t1'
-------------- :: App2
v t1 --> v t1'

----------------------- :: AppAbs
(\x.t12) v2 --> [x|->v2]t12
"#;

#[test]
fn parse_and_check_tapl_arrow() {
    let spec = parse_spec(TAPL_ARROW).expect("parse should succeed");
    let checked = check_spec(spec, &OttOptions::default()).expect("check should succeed");

    assert!(checked.grammar_roots.contains(&"t".to_string()));
    assert!(checked.grammar_roots.contains(&"v".to_string()));

    let defn_rules: usize = checked
        .spec
        .items
        .iter()
        .filter_map(|it| match it {
            Item::Defn(d) => Some(d.rules.len()),
            _ => None,
        })
        .sum();

    assert!(defn_rules >= 3);
}

const TEST10: &str = r#"
metavar termvar, x ::=
  {{ lex alphanum }}

grammar
term, t :: 't_' ::=
  | x        :: :: var
  | \ x . t  :: :: lam
  | t t'     :: :: app

val, v :: 'v_' ::=
  | \ x . t  :: :: lam

subrules
  val <:: term
"#;

#[test]
fn parse_and_check_test10_synonyms_and_subrules() {
    let spec = parse_spec(TEST10).expect("parse should succeed");
    let checked = check_spec(spec, &OttOptions::default()).expect("check should succeed");

    assert!(checked.grammar_roots.contains(&"term".to_string()));
    assert!(checked.grammar_roots.contains(&"t".to_string()));
    assert!(checked.grammar_roots.contains(&"val".to_string()));
    assert!(checked.grammar_roots.contains(&"v".to_string()));
}

#[test]
fn strict_success_implies_relaxed_success_with_same_roots() {
    let spec = parse_spec(TAPL_ARROW).unwrap();
    let strict = check_spec(spec.clone(), &OttOptions { strict: true }).unwrap();
    let relaxed = check_spec(spec, &OttOptions { strict: false }).unwrap();
    assert_eq!(strict.grammar_roots, relaxed.grammar_roots);
    assert_eq!(strict.grammar_index, relaxed.grammar_index);
    assert_eq!(strict.grammar_roots, vec!["t".to_string(), "v".to_string()]);
}
