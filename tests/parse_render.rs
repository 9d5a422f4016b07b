use equation_editor::{parse_expression, Expression, Lexer, Op, ParseError, Token};

fn parse(s: &str) -> Expression {
    parse_expression(s).expect("parses")
}

fn text(s: &str) -> String {
    parse(s).render()
}

#[test]
fn equation_with_sum_of_three_terms() {
    let e = parse("s = s_0 + u*t + 0.5*a*t^2");
    match &e {
        Expression::SubNode(n) => {
            assert_eq!(n.operation, Op::Equality);
            assert_eq!(n.values.len(), 2);
            assert!(matches!(&n.values[0].val, Expression::Variable(v) if v == "s"));
            match &n.values[1].val {
                Expression::SubNode(sum) => {
                    assert_eq!(sum.operation, Op::AddSub);
                    assert_eq!(sum.values.len(), 3);
                    assert_eq!(sum.values[0].val.render(), "s_0");
                    assert_eq!(sum.values[1].val.render(), "u*t");
                    assert_eq!(sum.values[2].val.render(), "0.5*a*t^2");
                }
                _ => panic!("second operand is not a sum"),
            }
        }
        _ => panic!("not an equality"),
    }
    assert_eq!(e.render(), "s=s_0+u*t+0.5*a*t^2");
}

#[test]
fn digits_then_letters_is_two_atoms() {
    let mut lx = Lexer::new("1foo").expect("lexes");
    assert!(matches!(lx.cur(), Token::Literal(_)));
    let first = lx.consume().expect("second token");
    assert!(matches!(first, Token::Literal(d) if d.whole == vec![1u8] && d.frac.is_empty()));
    assert!(matches!(lx.cur(), Token::Ident(n) if n.iter().collect::<String>() == "foo"));
    match parse_expression("1foo") {
        Err(ParseError::Unexpected(t)) => assert_eq!(t, "foo"),
        other => panic!("expected Unexpected, got {:?}", other),
    }
}

#[test]
fn subtraction_marks_following_operand() {
    let e = parse("a - b + c");
    match &e {
        Expression::SubNode(n) => {
            assert_eq!(n.operation, Op::AddSub);
            let flags: Vec<bool> = n.values.iter().map(|v| v.inverse).collect();
            assert_eq!(flags, vec![false, true, false]);
        }
        _ => panic!("not a sum"),
    }
    assert_eq!(e.render(), "a-b+c");
}

#[test]
fn division_marks_following_operand() {
    let e = parse("a / b * c");
    match &e {
        Expression::SubNode(n) => {
            assert_eq!(n.operation, Op::MulDiv);
            let flags: Vec<bool> = n.values.iter().map(|v| v.inverse).collect();
            assert_eq!(flags, vec![false, true, false]);
        }
        _ => panic!("not a product"),
    }
}

#[test]
fn parentheses_only_where_needed() {
    assert_eq!(text("(a+b)*c"), "(a+b)*c");
    assert_eq!(text("a+(b*c)"), "a+b*c");
    assert_eq!(text("((x))"), "x");
    assert_eq!(text("(a^b)^c"), "(a^b)^c");
    assert_eq!(text("a-(b-c)"), "a-(b-c)");
    assert_eq!(text("-(a+b)"), "-(a+b)");
    assert_eq!(text("-x*y"), "-x*y");
    assert_eq!(text("-(x^2)"), "-(x^2)");
}

#[test]
fn literals_render_in_canonical_form() {
    assert_eq!(text("1."), "1");
    assert_eq!(text("007.250"), "7.25");
    assert_eq!(text("0.5"), "0.5");
    assert_eq!(text("0"), "0");
    assert!(matches!(parse_expression(".5"), Err(ParseError::BadToken(_))));
}

#[test]
fn whitespace_and_comments_are_skipped() {
    assert_eq!(text("  a\t+\nb  # trailing words"), "a+b");
}

#[test]
fn render_of_parse_is_stable() {
    for s in ["s = s_0 + u*t + 0.5*a_0*t^2 + 1/6*j*t^3", "v = v_0 + a_0*t + 0.5*j*t^2", "-(a-b)/(c+d)^2", "x = y = z", "a'+b_1"] {
        let once = text(s);
        let twice = text(&once);
        assert_eq!(once, twice);
    }
}

#[test]
fn bad_character_is_bad_token() {
    match parse_expression("a + $") {
        Err(ParseError::BadToken(t)) => assert_eq!(t, "$"),
        other => panic!("expected BadToken, got {:?}", other),
    }
    match parse_expression("%") {
        Err(ParseError::BadToken(t)) => assert_eq!(t, "%"),
        other => panic!("expected BadToken, got {:?}", other),
    }
}

#[test]
fn missing_parts_are_unexpected() {
    match parse_expression("(a+b") {
        Err(ParseError::Unexpected(t)) => assert_eq!(t, "end of input"),
        other => panic!("expected Unexpected, got {:?}", other),
    }
    match parse_expression("a*") {
        Err(ParseError::Unexpected(t)) => assert_eq!(t, "end of input"),
        other => panic!("expected Unexpected, got {:?}", other),
    }
    match parse_expression("a)") {
        Err(ParseError::Unexpected(t)) => assert_eq!(t, ")"),
        other => panic!("expected Unexpected, got {:?}", other),
    }
    match parse_expression("(a=b)") {
        Err(ParseError::Unexpected(t)) => assert_eq!(t, "="),
        other => panic!("expected Unexpected, got {:?}", other),
    }
    assert!(matches!(parse_expression(""), Err(ParseError::Unexpected(_))));
}

#[test]
fn needs_parens_follows_precedence() {
    let sum = parse("a+b");
    assert!(sum.needs_parens(Op::AddSub));
    assert!(sum.needs_parens(Op::MulDiv));
    assert!(!sum.needs_parens(Op::Equality));
    let x = parse("x");
    assert!(!x.needs_parens(Op::ExpRoot));
}

#[test]
fn same_as_compares_structure() {
    assert!(parse("a*x").same_as(&parse("a * x")));
    assert!(parse("1.50").same_as(&parse("1.5")));
    assert!(!parse("a*x").same_as(&parse("x*a")));
    assert!(!parse("a-b").same_as(&parse("a+b")));
}

#[test]
fn from_str_parses() {
    let e: Expression = "x = 2*y".parse().expect("parses");
    assert_eq!(e.render(), "x=2*y");
    assert!("x = ".parse::<Expression>().is_err());
}

#[test]
fn negated_power_operand_reads_back() {
    let e = parse("(-a)^2");
    assert_eq!(e.render(), "(-a)^2");
    assert!(parse(&e.render()).same_as(&e));
    let f = parse("a^(-b)");
    assert_eq!(f.render(), "a^(-b)");
    assert!(parse(&f.render()).same_as(&f));
    assert_eq!(text("-a^2"), "-(a^2)");
    assert_eq!(text("a*(-b)"), "a*-b");
}

#[test]
fn parsed_trees_are_well_formed() {
    for s in ["a", "-(a+b)^2", "x = y = 1.5", "a/b/c - d", "((q))"] {
        assert!(parse(s).is_well_formed());
    }
}

#[test]
fn long_numbers_keep_all_digits() {
    assert_eq!(text("12345678901234567890.0012345"), "12345678901234567890.0012345");
}
