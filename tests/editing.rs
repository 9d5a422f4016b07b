use equation_editor::{
    extract_subexpression, factorise_all, factorise_leading, factorise_trailing, normalise,
    parse_expression, replace_subexpression, split_expression, Expression, Line, RenderSink,
    Selection,
};

fn parse(s: &str) -> Expression {
    parse_expression(s).expect("parses")
}

fn sel(path: Vec<usize>, first: usize, last: usize) -> Selection {
    Selection { path, first, last }
}

fn state(s: &Selection) -> (Vec<usize>, usize, usize) {
    (s.path.clone(), s.first, s.last)
}

#[test]
fn extract_range_of_sum() {
    let e = parse("a+b+c");
    let x = extract_subexpression(&e, &sel(vec![], 1, 2));
    assert_eq!(x.render(), "b+c");
    match &x {
        Expression::SubNode(n) => assert_eq!(n.values.len(), 2),
        _ => panic!("range is not a chain"),
    }
}

#[test]
fn extract_single_drops_sign() {
    let e = parse("a-b");
    assert_eq!(extract_subexpression(&e, &sel(vec![], 1, 1)).render(), "b");
    let n = parse("-(x+y)");
    assert_eq!(extract_subexpression(&n, &sel(vec![], 0, 0)).render(), "x+y");
}

#[test]
fn split_highlights_selected_range() {
    let e = parse("s = s_0 + u*t");
    let (b, h, a) = split_expression(&e, &sel(vec![1], 1, 1));
    assert_eq!((b.as_str(), h.as_str(), a.as_str()), ("s=s_0+", "u*t", ""));
    let (b, h, a) = split_expression(&e, &sel(vec![1, 1], 0, 0));
    assert_eq!((b.as_str(), h.as_str(), a.as_str()), ("s=s_0+", "u", "*t"));
    let f = parse("(a+b)*c");
    let (b, h, a) = split_expression(&f, &sel(vec![], 0, 0));
    assert_eq!((b.as_str(), h.as_str(), a.as_str()), ("", "(a+b)", "*c"));
    let g = parse("x-(y+z)");
    let (b, h, a) = split_expression(&g, &sel(vec![1], 0, 1));
    assert_eq!((b.as_str(), h.as_str(), a.as_str()), ("x-(", "y+z", ")"));
}

#[test]
fn split_parts_make_up_render() {
    let e = parse("-(a+b*c)^2 = d/e - f");
    for s in [sel(vec![], 0, 1), sel(vec![0], 0, 0), sel(vec![0, 0], 0, 1), sel(vec![0, 0, 0], 0, 1), sel(vec![1], 1, 1)] {
        let (b, h, a) = split_expression(&e, &s);
        assert!(!h.is_empty());
        assert_eq!(format!("{}{}{}", b, h, a), e.render());
    }
}

#[test]
fn navigation_walks_the_tree() {
    let e = parse("a + b*c");
    let mut s = sel(vec![], 0, 0);
    assert!(!s.move_out(&e));
    assert!(!s.move_in(&e));
    assert!(s.shift_right(&e));
    assert_eq!(state(&s), (vec![], 1, 1));
    assert!(!s.shift_right(&e));
    assert!(s.move_in(&e));
    assert_eq!(state(&s), (vec![1], 0, 0));
    assert!(s.expand_right(&e));
    assert_eq!(state(&s), (vec![1], 0, 1));
    assert!(!s.expand_right(&e));
    assert!(s.shrink_left(&e));
    assert_eq!(state(&s), (vec![1], 1, 1));
    assert!(!s.shrink_left(&e));
    assert!(s.expand_left(&e));
    assert!(s.shrink_right(&e));
    assert_eq!(state(&s), (vec![1], 0, 0));
    assert!(!s.shrink_right(&e));
    assert!(!s.expand_left(&e));
    assert!(!s.shift_left(&e));
    assert!(s.move_out(&e));
    assert_eq!(state(&s), (vec![], 1, 1));
    assert!(s.shift_left(&e));
    assert_eq!(state(&s), (vec![], 0, 0));
}

#[test]
fn shift_collapses_range_even_at_end() {
    let e = parse("a+b+c");
    let mut t = sel(vec![], 1, 2);
    assert!(t.shift_right(&e));
    assert_eq!(state(&t), (vec![], 2, 2));
    let mut u = sel(vec![], 0, 2);
    assert!(!u.shift_left(&e));
    assert_eq!(state(&u), (vec![], 0, 0));
    let mut s = sel(vec![], 0, 2);
    assert!(s.move_in(&e));
    assert_eq!(state(&s), (vec![], 0, 0));
}

#[test]
fn move_in_then_out_restores() {
    let e = parse("x = -(a+b)");
    let mut s = sel(vec![], 1, 1);
    assert!(s.move_in(&e));
    assert_eq!(state(&s), (vec![1], 0, 0));
    assert!(s.move_in(&e));
    assert_eq!(state(&s), (vec![1, 0], 0, 0));
    assert!(s.move_out(&e));
    assert_eq!(state(&s), (vec![1], 0, 0));
    assert!(s.move_out(&e));
    assert_eq!(state(&s), (vec![], 1, 1));
}

#[test]
fn leaf_root_has_no_level() {
    let e = parse("x");
    let mut s = sel(vec![], 0, 0);
    assert!(!s.move_in(&e));
    assert!(!s.shift_right(&e));
    assert!(!s.expand_right(&e));
    assert_eq!(state(&s), (vec![], 0, 0));
}

#[test]
fn replace_single_keeps_sign() {
    let mut e = parse("a-b+c");
    let mut s = sel(vec![], 1, 1);
    replace_subexpression(&mut e, &mut s, parse("x*y"));
    assert_eq!(e.render(), "a-x*y+c");
    assert_eq!(state(&s), (vec![], 1, 1));
    let mut f = parse("a+b");
    let mut t = sel(vec![], 1, 1);
    replace_subexpression(&mut f, &mut t, parse("c+d"));
    assert_eq!(f.render(), "a+(c+d)");
}

#[test]
fn replace_range_splices_same_operator() {
    let mut e = parse("a+b+c");
    let mut s = sel(vec![], 1, 2);
    replace_subexpression(&mut e, &mut s, parse("x+y+z"));
    assert_eq!(e.render(), "a+x+y+z");
    assert_eq!(state(&s), (vec![], 1, 3));
}

#[test]
fn replace_range_by_other_operator() {
    let mut e = parse("a-b-c");
    let mut s = sel(vec![], 1, 2);
    replace_subexpression(&mut e, &mut s, parse("x*y"));
    assert_eq!(e.render(), "a-x*y");
    assert_eq!(state(&s), (vec![], 1, 1));
    let mut n = parse("-(p+q)");
    let mut t = sel(vec![], 0, 0);
    replace_subexpression(&mut n, &mut t, parse("r"));
    assert_eq!(n.render(), "-r");
}

#[test]
fn factor_trailing_common_factor() {
    let r = factorise_trailing(parse("2*x + 3*x")).expect("factors");
    assert_eq!(r.render(), "(2+3)*x");
    assert!(factorise_leading(parse("2*x + 3*x")).is_none());
    let d = factorise_trailing(parse("a/x + b/x")).expect("factors");
    assert_eq!(d.render(), "(a+b)/x");
    let l = factorise_trailing(parse("a*b*x - x")).expect("factors");
    assert_eq!(l.render(), "(a*b-1)*x");
}

#[test]
fn factor_leading_common_factor() {
    let r = factorise_leading(parse("x*a + x*b")).expect("factors");
    assert_eq!(r.render(), "x*(a+b)");
    assert!(factorise_leading(parse("a*x + b*x")).is_none());
    let s = factorise_leading(parse("x + x*y")).expect("factors");
    assert_eq!(s.render(), "x*(1+y)");
    let t = factorise_leading(parse("x/a + x*b*c")).expect("factors");
    assert_eq!(t.render(), "x*(1/a+b*c)");
    assert!(factorise_leading(parse("x*y")).is_none());
    assert!(factorise_leading(parse("x")).is_none());
}

#[test]
fn factor_all_common_factors() {
    let r = factorise_all(parse("a*x*y + x*b*y")).expect("factors");
    assert_eq!(r.render(), "x*y*(a+b)");
    let d = factorise_all(parse("a/z + b/z")).expect("factors");
    assert_eq!(d.render(), "1/z*(a+b)");
    let m = factorise_all(parse("x*x + x*y")).expect("factors");
    assert_eq!(m.render(), "x*(x+y)");
    let w = factorise_all(parse("x + x*y")).expect("factors");
    assert_eq!(w.render(), "x*(1+y)");
    assert!(factorise_all(parse("a + b")).is_none());
    assert!(factorise_all(parse("a*b")).is_none());
}

#[test]
fn normalise_keeps_expression() {
    assert_eq!(normalise(parse("b+a")).render(), "b+a");
}

#[test]
fn line_reads_and_writes_comment() {
    let l = Line::from_str("a + b # the sum").expect("parses");
    assert_eq!(l.comment, " the sum");
    assert_eq!(l.to_text(), "a+b # the sum");
    let again = Line::from_str(&l.to_text()).expect("parses");
    assert_eq!(again.to_text(), l.to_text());
    let plain = Line::from_str("x=1").expect("parses");
    assert_eq!(plain.to_text(), "x=1");
    assert!(Line::from_str("x = # nothing").is_err());
}

#[test]
fn line_navigation_and_edit() {
    let mut l = Line::from_str("v = v_0 + a_0*t").expect("parses");
    assert_eq!(l.render_selection(), "v");
    assert!(l.shift_right());
    assert_eq!(l.render_split(), ("v=".to_string(), "v_0+a_0*t".to_string(), "".to_string()));
    assert!(l.move_in());
    assert!(l.shift_right());
    assert!(l.move_in());
    assert!(l.expand_right());
    assert!(l.shrink_left());
    assert!(!l.shrink_right());
    assert!(l.expand_left());
    assert_eq!(l.extract_selection().render(), "a_0*t");
    l.replace_selection(parse("q"));
    assert_eq!(l.expr.render(), "v=v_0+q");
    assert_eq!(l.render_selection(), "q");
    assert_eq!((l.sel.path.clone(), l.sel.first, l.sel.last), (vec![1], 1, 1));
    assert!(l.move_out());
    assert!(!l.move_out());
    assert!(l.shift_left());
    assert_eq!(l.render_selection(), "v");
    assert!(!l.expand_left());
}

#[test]
fn bare_atom_line_splits_whole() {
    let l = Line::from_expr(parse("42"));
    assert_eq!(l.render_split(), ("42".to_string(), String::new(), String::new()));
    assert_eq!(l.extract_selection().render(), "42");
}

#[test]
fn render_sink_routes_to_buffers() {
    let mut s = RenderSink::new();
    s.put("ab");
    assert!(!s.hilight_active());
    s.start_hilight();
    assert!(s.hilight_active());
    s.put("cd");
    s.end_hilight();
    assert!(!s.hilight_active());
    s.put_char('e');
    assert_eq!(s.before.iter().collect::<String>(), "ab");
    assert_eq!(s.highlighted.iter().collect::<String>(), "cd");
    assert_eq!(s.after.iter().collect::<String>(), "e");
}

#[test]
fn factor_all_hoists_repeated_factor_once_per_match() {
    let r = factorise_all(parse("x*x*a + x*x*b")).expect("factors");
    assert_eq!(r.render(), "x*x*(a+b)");
    let s = factorise_all(parse("x*x*a + x*b")).expect("factors");
    assert_eq!(s.render(), "x*(x*a+b)");
}

#[test]
fn factor_needs_a_sum() {
    assert!(factorise_trailing(parse("a = b")).is_none());
    assert!(factorise_all(parse("-x")).is_none());
}

#[test]
fn selection_stays_valid_through_navigation() {
    let e = parse("s = s_0 + u*t + 0.5*a*t^2");
    let mut s = sel(vec![], 0, 0);
    let moves: [fn(&mut Selection, &Expression) -> bool; 8] = [
        Selection::move_in,
        Selection::shift_right,
        Selection::expand_right,
        Selection::move_in,
        Selection::shift_right,
        Selection::move_in,
        Selection::expand_left,
        Selection::move_out,
    ];
    for (i, m) in moves.iter().cycle().take(40).enumerate() {
        m(&mut s, &e);
        if i % 3 == 0 {
            s.shrink_left(&e);
        }
        assert!(s.first <= s.last);
        let (_, h, _) = split_expression(&e, &s);
        assert!(!h.is_empty());
    }
}

#[test]
fn replace_whole_level_takes_node_place() {
    let mut e = parse("a+b");
    let mut s = sel(vec![], 0, 1);
    replace_subexpression(&mut e, &mut s, parse("x"));
    assert_eq!(e.render(), "x");
    assert!(matches!(e, Expression::Variable(_)));
    assert_eq!(state(&s), (vec![], 0, 0));
    let mut f = parse("y = a*b*c");
    let mut t = sel(vec![1], 0, 2);
    replace_subexpression(&mut f, &mut t, parse("q+r"));
    assert_eq!(f.render(), "y=q+r");
    assert_eq!(state(&t), (vec![], 1, 1));
    assert!(f.is_well_formed());
    let mut g = parse("y = a*b");
    let mut u = sel(vec![1], 0, 1);
    replace_subexpression(&mut g, &mut u, parse("c/d"));
    assert_eq!(g.render(), "y=c/d");
    assert_eq!(state(&u), (vec![1], 0, 1));
}

#[test]
fn extracted_range_goes_back_in() {
    let mut e = parse("a-b+c");
    let mut s = sel(vec![], 1, 2);
    let x = extract_subexpression(&e, &s);
    assert!(x.is_well_formed());
    replace_subexpression(&mut e, &mut s, x);
    assert_eq!(e.render(), "a-b+c");
    assert_eq!(state(&s), (vec![], 1, 2));
}
