use ott::bind::{parse_bind_spec, Clause, Expr};

#[test]
fn parse_simple_bind() {
    let bs = parse_bind_spec("bind x in t").unwrap();
    assert_eq!(bs.clauses.len(), 1);
}

#[test]
fn parse_assignment_emptyset() {
    let bs = parse_bind_spec("binders = {}").unwrap();
    assert_eq!(bs.clauses.len(), 1);
}

#[test]
fn parse_union_and_calls() {
    let bs = parse_bind_spec("binders = binders(p1) union binders(p2)").unwrap();
    assert_eq!(bs.clauses.len(), 1);
}

#[test]
fn parse_multiclause() {
    let bs = parse_bind_spec("Tdom = Tdom(G) union X tdom = tdom(G)").unwrap();
    assert_eq!(bs.clauses.len(), 2);
}

#[test]
fn parse_range() {
    let bs = parse_bind_spec("b = b(a1..an)").unwrap();
    assert_eq!(bs.clauses.len(), 1);
}

#[test]
fn bind_clause_has_binder_and_term() {
    let bs = parse_bind_spec("bind x in t").unwrap();
    match &bs.clauses[0] {
        Clause::Bind { binder: Expr::Var(v), in_term } => {
            assert_eq!(v, "x");
            assert_eq!(in_term, "t");
        }
        other => panic!("unexpected clause {other:?}"),
    }
}

#[test]
fn union_is_left_associative() {
    let bs = parse_bind_spec("b = x union y # z").unwrap();
    match &bs.clauses[0] {
        Clause::Assign { name, value: Expr::Hash { left, right } } => {
            assert_eq!(name, "b");
            assert!(matches!(**left, Expr::Union { .. }));
            assert!(matches!(**right, Expr::Var(ref z) if z == "z"));
        }
        other => panic!("unexpected clause {other:?}"),
    }
}

#[test]
fn dots_count_longest_first() {
    for (src, n) in [("b = a1..an", 2u8), ("b = a1...an", 3), ("b = a1....an", 4)] {
        let bs = parse_bind_spec(src).unwrap();
        match &bs.clauses[0] {
            Clause::Assign { value: Expr::Dots { dots, .. }, .. } => assert_eq!(*dots, n),
            other => panic!("unexpected clause {other:?}"),
        }
    }
}

#[test]
fn call_with_arguments_and_raw_atom() {
    let bs = parse_bind_spec("b = f(x, </ p // i />, {})").unwrap();
    match &bs.clauses[0] {
        Clause::Assign { value: Expr::Call { func, args }, .. } => {
            assert_eq!(func, "f");
            assert_eq!(args.len(), 3);
            assert!(matches!(&args[1], Expr::Raw(r) if r == "</ p // i />"));
            assert!(matches!(&args[2], Expr::EmptySet));
        }
        other => panic!("unexpected clause {other:?}"),
    }
}

#[test]
fn empty_source_has_no_clauses() {
    let bs = parse_bind_spec("   ").unwrap();
    assert_eq!(bs.clauses.len(), 0);
}

#[test]
fn single_dot_is_rejected_at_its_offset() {
    let err = parse_bind_spec("x = .").unwrap_err();
    assert_eq!(err.message, "unexpected '.' (did you mean '..'?)");
    assert_eq!(err.offset, 4);
    assert_eq!(err.to_string(), "unexpected '.' (did you mean '..'?) (byte offset 4)");
}

#[test]
fn missing_in_reports_token_found() {
    let err = parse_bind_spec("bind x t").unwrap_err();
    assert_eq!(err.message, "expected In, found Ident(\"t\")");
    assert_eq!(err.offset, 7);
}

#[test]
fn unexpected_character_is_reported() {
    let err = parse_bind_spec("x = y ; z").unwrap_err();
    assert_eq!(err.message, "unexpected character ';'");
    assert_eq!(err.offset, 6);
}

#[test]
fn unclosed_empty_set_and_comprehension() {
    let err = parse_bind_spec("x = { y").unwrap_err();
    assert_eq!(err.message, "expected '}' to close empty set");
    assert_eq!(err.offset, 4);
    let err = parse_bind_spec("x = </ p").unwrap_err();
    assert_eq!(err.message, "unterminated comprehension atom (expected '/>')");
    let err = parse_bind_spec("x = < p").unwrap_err();
    assert_eq!(err.message, "unexpected '<' (did you mean `</ ... />`?)");
}

#[test]
fn clause_must_start_with_bind_or_identifier() {
    let err = parse_bind_spec("= x").unwrap_err();
    assert_eq!(err.message, "unexpected token at start of clause: Eq");
    assert_eq!(err.offset, 0);
}

#[test]
fn offsets_count_bytes_of_multibyte_text() {
    let err = parse_bind_spec("x = é").unwrap_err();
    assert_eq!(err.message, "unexpected character 'é'");
    assert_eq!(err.offset, 4);
    let err = parse_bind_spec("xé").unwrap_err();
    assert_eq!(err.offset, 1);
}

#[test]
fn blank_text_has_no_clauses() {
    assert_eq!(parse_bind_spec("").unwrap().clauses.len(), 0);
    assert_eq!(parse_bind_spec(" \t\r\n  ").unwrap().clauses.len(), 0);
}
