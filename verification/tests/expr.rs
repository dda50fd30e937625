use rsv::utils::expr::{compile, parse_expr, tokenize, CompiledExpr, ExprErrorKind, ExprToken, ExprTree, AST};

fn eval(t: &ExprTree, cols: &[f64]) -> f64 {
    match t {
        ExprTree::Col(c) => cols[*c],
        ExprTree::Num(s) => s.parse::<f64>().unwrap(),
        ExprTree::Bin(op, l, r) => {
            let l = eval(l, cols);
            let r = eval(r, cols);
            match op {
                '+' => l + r,
                '-' => l - r,
                '*' => l * r,
                '/' => l / r,
                '%' => (l / r).floor(),
                '^' => l.powi(r as i32),
                _ => panic!("unknown operator"),
            }
        }
    }
}

fn value(src: &str, cols: &[f64]) -> f64 {
    eval(&compile(src).unwrap(), cols)
}

fn num(s: &str) -> Box<ExprTree> {
    Box::new(ExprTree::Num(s.to_string()))
}

#[test]
fn test_expr_parser() {
    let p = tokenize("").unwrap();
    assert_eq!(p.len(), 0);

    let p = tokenize(" ").unwrap();
    assert_eq!(p.len(), 0);

    let p = tokenize("  @1  + ( 1.05 + @2 ^ 2 )").unwrap();
    assert_eq!(p[0], ExprToken::Col(1));
    assert_eq!(p[1], ExprToken::Op('+'));
    assert_eq!(p[2], ExprToken::LParen);
    assert_eq!(p[3], ExprToken::Num("1.05".to_string()));
    assert_eq!(p[4], ExprToken::Op('+'));
    assert_eq!(p[5], ExprToken::Col(2));
    assert_eq!(p[6], ExprToken::Op('^'));
    assert_eq!(p[7], ExprToken::Num("2".to_string()));
    assert_eq!(p[8], ExprToken::RParen);
    assert_eq!(p.len(), 9);
}

#[test]
fn test_ast() {
    let p = AST::parse("4+2").unwrap();
    assert_eq!(eval(&p.tree, &[]), 6.0);

    let p = AST::parse("  @0  + (1.05 + @1 ^ 2 * 2)").unwrap();
    assert_eq!(eval(&p.tree, &vec![1.0, 1.0]), 4.05);
    assert_eq!(eval(&p.tree, &vec![2.0, 2.0]), 11.05);
    assert_eq!(eval(&p.tree, &vec![1.0, 3.0]), 20.05);
    assert_eq!(eval(&p.tree, &vec![2.0, 4.0]), 35.05);

    let p = AST::parse("  @0 + (1.05 + (@1 ^ 2) * 2)").unwrap();
    assert_eq!(eval(&p.tree, &vec![1.0, 1.0]), 4.05);
    assert_eq!(eval(&p.tree, &vec![2.0, 2.0]), 11.05);
    assert_eq!(eval(&p.tree, &vec![1.0, 3.0]), 20.05);
    assert_eq!(eval(&p.tree, &vec![2.0, 4.0]), 35.05);
}

#[test]
fn compiled_expr_new_is_zero() {
    let c = CompiledExpr::new();
    assert_eq!(eval(&c.tree, &[]), 0.0);
    assert_eq!(c.max_column(), 0);
    assert!(!c.contains_column(&0));
    let p = AST::parse("@2*@5").unwrap();
    assert_eq!(p.max_column(), 5);
    assert!(p.contains_column(&2));
    assert!(AST::parse("1+").is_err());
}

#[test]
fn expr_operators_are_left_associative() {
    let t = compile("1-2-3").unwrap();
    let expected = ExprTree::Bin(
        '-',
        Box::new(ExprTree::Bin('-', num("1"), num("2"))),
        num("3"),
    );
    assert_eq!(t, expected);
    assert_eq!(value("8/2/2", &[]), 2.0);
    assert_eq!(value("2^3^2", &[]), 64.0);
}

#[test]
fn expr_precedence() {
    assert_eq!(value("1-2*3-4", &[]), -9.0);
    assert_eq!(value("2*3^2", &[]), 18.0);
    assert_eq!(value("(1+2)*3", &[]), 9.0);
    assert_eq!(value("7%2+1", &[]), 4.0);
    let t = compile("1+2*3").unwrap();
    let expected = ExprTree::Bin('+', num("1"), Box::new(ExprTree::Bin('*', num("2"), num("3"))));
    assert_eq!(t, expected);
}

#[test]
fn expr_readme_examples() {
    assert_eq!(value("@1 + 1", &[0.0, 4.0]), 5.0);
    assert_eq!(value("(@1+1)/(2^2)", &[0.0, 7.0]), 2.0);
    assert_eq!(value("@1-10*(@3+2)", &[0.0, 100.0, 0.0, 3.0]), 50.0);
    assert_eq!(value("c1 * 2", &[0.0, 4.0]), 8.0);
}

#[test]
fn expr_empty_is_zero() {
    assert_eq!(parse_expr(&[]).unwrap(), ExprTree::Num("0".to_string()));
    assert_eq!(value("", &[]), 0.0);
    assert_eq!(value("   ", &[]), 0.0);
}

#[test]
fn expr_token_errors() {
    let e = tokenize("1 + x").unwrap_err();
    assert_eq!(e.kind, ExprErrorKind::Unrecognized);
    assert_eq!(e.text, "x");
    let e = tokenize("1.2.3").unwrap_err();
    assert_eq!(e.kind, ExprErrorKind::BadNumber);
    assert_eq!(e.text, "1.2.3");
    let e = tokenize("@+1").unwrap_err();
    assert_eq!(e.kind, ExprErrorKind::BadColumn);
    assert_eq!(e.text, "");
    let e = tokenize("@1.5").unwrap_err();
    assert_eq!(e.kind, ExprErrorKind::BadColumn);
    assert_eq!(e.text, "1.5");
    let e = tokenize("1+2\t").unwrap_err();
    assert_eq!(e.kind, ExprErrorKind::Unrecognized);
    assert_eq!(e.text, "\t");
    assert_eq!(tokenize("1\t+2").unwrap().len(), 3);
    assert_eq!(tokenize("1e3").unwrap(), vec![ExprToken::Num("1e3".to_string())]);
}

#[test]
fn expr_syntax_errors() {
    for src in ["1+", "+1", "@1 @2", "(1", "1)", "()", "(1)(2)", "*"] {
        let e = compile(src).unwrap_err();
        assert_eq!(e.kind, ExprErrorKind::Syntax, "{}", src);
        assert_eq!(e.text, "");
    }
}

#[test]
fn expr_columns_used() {
    let t = compile("@1-10*(@3+2)").unwrap();
    assert_eq!(t.max_column(), 3);
    assert!(t.contains_column(1));
    assert!(t.contains_column(3));
    assert!(!t.contains_column(2));
    assert_eq!(compile("1+2").unwrap().max_column(), 0);
}

#[test]
fn expr_spaces_are_dropped() {
    assert_eq!(tokenize("1 2").unwrap(), vec![ExprToken::Num("12".to_string())]);
}

#[test]
fn expr_parentheses_keep_the_expression() {
    assert_eq!(compile("(1+2*3)").unwrap(), compile("1+2*3").unwrap());
    assert_eq!(compile("((@1))").unwrap(), compile("@1").unwrap());
    assert_eq!(compile("(2^3^2)").unwrap(), compile("2^3^2").unwrap());
    assert!(compile("()").is_err());
}

#[test]
fn expr_spaces_do_not_matter() {
    assert_eq!(tokenize(" @1 +  2 ").unwrap(), tokenize("@1+2").unwrap());
    assert_eq!(tokenize("1 .5").unwrap(), tokenize("1.5").unwrap());
}
