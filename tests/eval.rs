use expr_parser::eval::{eval, EvalError};
use expr_parser::parser::{expr, LeafVal, Node, NodeVal};

fn value(s: &[u8]) -> Result<i32, EvalError> {
    eval(&expr(s).unwrap())
}

#[test]
fn single_literal_evaluates_to_itself() {
    assert_eq!(value(b"42"), Ok(42));
    assert_eq!(value(b"  0 \n"), Ok(0));
    assert_eq!(value(b"2147483647"), Ok(i32::MAX));
}

#[test]
fn power_is_right_associative() {
    assert_eq!(value(b"2 ^ 3 ^ 2"), Ok(512));
}

#[test]
fn factorial_of_nine() {
    assert_eq!(value(b"9 !"), Ok(362880));
}

#[test]
fn subtraction_is_left_associative() {
    assert_eq!(value(b"1 - 2 - 3"), Ok(-4));
}

#[test]
fn mixed_expression() {
    assert_eq!(value(b"-(2 + 3) * 4 / 3"), Ok(-6));
    assert_eq!(value(b"+5"), Ok(5));
}

#[test]
fn symbol_has_no_value() {
    assert_eq!(value(b"a"), Err(EvalError::Symbol));
    assert_eq!(value(b"1 + a"), Err(EvalError::Symbol));
}

#[test]
fn division_by_zero() {
    assert_eq!(value(b"1/0"), Err(EvalError::DivisionByZero));
}

#[test]
fn division_truncates_toward_zero() {
    assert_eq!(NodeVal::Div.apply(&[-7, 2]), Ok(-3));
    assert_eq!(NodeVal::Div.apply(&[7, -2]), Ok(-3));
    assert_eq!(NodeVal::Div.apply(&[-7, -2]), Ok(3));
    assert_eq!(NodeVal::Div.apply(&[i32::MIN, -1]), Err(EvalError::Overflow));
}

#[test]
fn sum_and_product_take_any_number_of_operands() {
    assert_eq!(NodeVal::Add.apply(&[1, 2, 3, 4]), Ok(10));
    assert_eq!(NodeVal::Add.apply(&[]), Ok(0));
    assert_eq!(NodeVal::Mul.apply(&[2, 3, 4]), Ok(24));
    assert_eq!(NodeVal::Mul.apply(&[]), Ok(1));
    assert_eq!(NodeVal::Add.apply(&[i32::MAX, 1, -1]), Err(EvalError::Overflow));
    assert_eq!(NodeVal::Mul.apply(&[65536, 65536]), Err(EvalError::Overflow));
}

#[test]
fn subtraction_arity() {
    assert_eq!(NodeVal::Sub.apply(&[5]), Ok(-5));
    assert_eq!(NodeVal::Sub.apply(&[5, 7]), Ok(-2));
    assert_eq!(NodeVal::Sub.apply(&[1, 2, 3]), Err(EvalError::Arity));
    assert_eq!(NodeVal::Sub.apply(&[i32::MIN]), Err(EvalError::Overflow));
}

#[test]
fn powers() {
    assert_eq!(NodeVal::Exp.apply(&[0, 0]), Ok(1));
    assert_eq!(NodeVal::Exp.apply(&[-2, 31]), Ok(i32::MIN));
    assert_eq!(NodeVal::Exp.apply(&[2, 31]), Err(EvalError::Overflow));
    assert_eq!(NodeVal::Exp.apply(&[-1, 1000001]), Ok(-1));
    assert_eq!(NodeVal::Exp.apply(&[2, -1]), Err(EvalError::NegativeExponent));
    assert_eq!(NodeVal::Exp.apply(&[2]), Err(EvalError::Arity));
}

#[test]
fn factorials() {
    assert_eq!(NodeVal::Fac.apply(&[0]), Ok(1));
    assert_eq!(NodeVal::Fac.apply(&[1]), Ok(1));
    assert_eq!(NodeVal::Fac.apply(&[12]), Ok(479001600));
    assert_eq!(NodeVal::Fac.apply(&[13]), Err(EvalError::Overflow));
    assert_eq!(NodeVal::Fac.apply(&[-1]), Err(EvalError::NegativeFactorial));
    assert_eq!(NodeVal::Fac.apply(&[1, 2]), Err(EvalError::Arity));
    assert_eq!(value(b"-3!"), Ok(-6));
    assert_eq!(value(b"(-3)!"), Err(EvalError::NegativeFactorial));
}

#[test]
fn first_failing_operand_decides() {
    let n = Node::binary(
        NodeVal::Add,
        Node::Leaf(LeafVal::Sym("x".to_string())),
        Node::binary(NodeVal::Div, Node::Leaf(LeafVal::Int(1)), Node::Leaf(LeafVal::Int(0))),
    );
    assert_eq!(eval(&n), Err(EvalError::Symbol));
}
