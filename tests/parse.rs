use expr_parser::parse_expr;
use expr_parser::parse_op;
use expr_parser::Expr::{EAdd, EDiv, EMul, ESub, EVal};
use expr_parser::{Expr, ParseFailure};

fn v(x: f32) -> Expr {
    EVal(x.to_bits())
}

fn b(e: Expr) -> Box<Expr> {
    Box::new(e)
}

#[test]
fn parse_val() {
    let result = parse_expr("5");
    assert_eq!(result, Ok(("", EVal(5f32.to_bits()))));
}

#[test]
fn parse_add() {
    let result = parse_expr("5 + 5.0");
    assert_eq!(result, Ok(("", EAdd(Box::new(EVal(5f32.to_bits())), Box::new(EVal(5f32.to_bits()))))));
}

#[test]
fn parse_nested() {
    let result = parse_expr("5.0 * 5 - 5.0");
    assert_eq!(
        result,
        Ok((
            "",
            ESub(
                Box::new(EMul(Box::new(EVal(5f32.to_bits())), Box::new(EVal(5f32.to_bits())))),
                Box::new(EVal(5f32.to_bits()))
            )
        ))
    );
}

#[test]
fn literal_texts_round_trip() {
    for x in [0.0f32, 1.5, 2.25, 123.0, 0.001, 1e10, 3.5e-5] {
        let s = format!("{}", x);
        assert_eq!(parse_expr(&s), Ok(("", v(x))));
    }
    assert_eq!(parse_expr("1e3"), Ok(("", v(1000.0))));
}

#[test]
fn precedence_mul_inside_add() {
    assert_eq!(parse_expr("2 + 3 * 4"), Ok(("", EAdd(b(v(2.0)), b(EMul(b(v(3.0)), b(v(4.0))))))));
    assert_eq!(parse_expr("2 * 3 + 4"), Ok(("", EAdd(b(EMul(b(v(2.0)), b(v(3.0)))), b(v(4.0))))));
}

#[test]
fn same_level_folds_left() {
    assert_eq!(parse_expr("5 - 3 - 1"), Ok(("", ESub(b(ESub(b(v(5.0)), b(v(3.0)))), b(v(1.0))))));
    assert_eq!(parse_expr("8/4/2"), Ok(("", EDiv(b(EDiv(b(v(8.0)), b(v(4.0)))), b(v(2.0))))));
}

#[test]
fn parentheses_give_inner_tree() {
    let plain = parse_expr("1 + 2 * 3");
    assert_eq!(parse_expr("(1 + 2 * 3)"), plain);
    assert_eq!(parse_expr("  ( \t1 + 2 * 3 )  "), plain);
    assert_eq!(parse_expr("(1 + 2) * 3"), Ok(("", EMul(b(EAdd(b(v(1.0)), b(v(2.0)))), b(v(3.0))))));
}

#[test]
fn blanks_between_tokens_do_not_change_tree() {
    let tight = parse_expr("1+2*3-4/5");
    assert_eq!(parse_expr(" 1 +\t2 *  3\t- 4 / 5 "), tight);
    assert_eq!(parse_expr("\t\t1+2*3-4/5"), tight);
}

#[test]
fn malformed_input_fails() {
    assert_eq!(parse_expr(""), Err(ParseFailure));
    assert_eq!(parse_expr("(5"), Err(ParseFailure));
    assert_eq!(parse_expr(")"), Err(ParseFailure));
    assert_eq!(parse_expr("   "), Err(ParseFailure));
    assert_eq!(parse_expr("(5"), parse_expr("(5"));
}

#[test]
fn unconsumed_rest_is_returned() {
    assert_eq!(parse_expr("5 )"), Ok((")", v(5.0))));
    assert_eq!(parse_expr("1 + x"), Ok(("+ x", v(1.0))));
    assert_eq!(parse_expr("2 * (3"), Ok(("* (3", v(2.0))));
}

#[test]
fn parse_op_builds_each_node() {
    assert_eq!(parse_op('+', v(2.0), v(1.0)), EAdd(b(v(1.0)), b(v(2.0))));
    assert_eq!(parse_op('-', v(2.0), v(1.0)), ESub(b(v(1.0)), b(v(2.0))));
    assert_eq!(parse_op('*', v(2.0), v(1.0)), EMul(b(v(1.0)), b(v(2.0))));
    assert_eq!(parse_op('/', v(2.0), v(1.0)), EDiv(b(v(1.0)), b(v(2.0))));
}
