use expr_parser::lexer::LexError;
use expr_parser::parser::{expr, Node, NodeVal, ParseError};

fn render(s: &[u8]) -> String {
    expr(s).unwrap().to_string()
}

#[test]
fn tests() {
    let s = expr(b"1").unwrap();
    assert_eq!(s.to_string(), "1");

    let s = expr(b"1 + 2 * 3").unwrap();
    assert_eq!(s.to_string(), "(+ 1 (* 2 3))");

    let s = expr(b"a + b * c * d + e").unwrap();
    assert_eq!(s.to_string(), "(+ (+ a (* (* b c) d)) e)");

    let s = expr(b"f ^ g ^ h").unwrap();
    assert_eq!(s.to_string(), "(^ f (^ g h))");

    let s = expr(b" 1 + 2 + f ^ g ^ h * 3 * 4").unwrap();
    assert_eq!(s.to_string(), "(+ (+ 1 2) (* (* (^ f (^ g h)) 3) 4))");

    let s = expr(b"--1 * 2").unwrap();
    assert_eq!(s.to_string(), "(* (- (- 1)) 2)");

    let s = expr(b"--f ^ g").unwrap();
    assert_eq!(s.to_string(), "(- (- (^ f g)))");

    let s = expr(b"-9!").unwrap();
    assert_eq!(s.to_string(), "(- (! 9))");

    let s = expr(b"f ^ g !").unwrap();
    assert_eq!(s.to_string(), "(! (^ f g))");

    let s = expr(b"(((0)))").unwrap();
    assert_eq!(s.to_string(), "0");
}

#[test]
fn subtraction_chains_to_the_left() {
    assert_eq!(render(b"a - b - c"), "(- (- a b) c)");
    assert_eq!(render(b"8 / 4 / 2"), "(/ (/ 8 4) 2)");
}

#[test]
fn power_chains_to_the_right() {
    assert_eq!(render(b"f ^ g ^ h"), "(^ f (^ g h))");
}

#[test]
fn product_binds_tighter_than_sum() {
    assert_eq!(render(b"1 + 2 * 3"), "(+ 1 (* 2 3))");
    assert_eq!(render(b"1 * 2 + 3"), "(+ (* 1 2) 3)");
}

#[test]
fn prefix_minus_chains() {
    assert_eq!(render(b"--1 * 2"), "(* (- (- 1)) 2)");
    assert_eq!(render(b"+x"), "(+ x)");
}

#[test]
fn factorial_after_power() {
    assert_eq!(render(b"f ^ g !"), "(! (^ f g))");
    assert_eq!(render(b"2 * 3 !"), "(* 2 (! 3))");
    assert_eq!(render(b"3 ! !"), "(! (! 3))");
}

#[test]
fn parentheses_are_stripped() {
    assert_eq!(render(b"(((0)))"), "0");
    assert_eq!(render(b"(1 + 2) * 3"), "(* (+ 1 2) 3)");
}

#[test]
fn symbols_keep_their_text() {
    assert_eq!(render(b"abc1 + Z9z"), "(+ abc1 Z9z)");
}

#[test]
fn literal_after_literal_is_an_error() {
    assert_eq!(expr(b"1 2").unwrap_err(), ParseError::ExpectedOperator { at: 2 });
    assert_eq!(expr(b"1 a").unwrap_err(), ParseError::ExpectedOperator { at: 2 });
    assert_eq!(expr(b"1 (2)").unwrap_err(), ParseError::ExpectedOperator { at: 2 });
}

#[test]
fn unclosed_group_is_an_error() {
    assert_eq!(expr(b"(1").unwrap_err(), ParseError::MissingRParen { at: 2 });
    assert_eq!(expr(b"((1) ").unwrap_err(), ParseError::MissingRParen { at: 5 });
}

#[test]
fn missing_operand_is_an_error() {
    assert_eq!(expr(b"").unwrap_err(), ParseError::ExpectedLiteral { at: 0 });
    assert_eq!(expr(b"  * 1").unwrap_err(), ParseError::ExpectedLiteral { at: 2 });
    assert_eq!(expr(b"1 +").unwrap_err(), ParseError::ExpectedLiteral { at: 3 });
    assert_eq!(expr(b")").unwrap_err(), ParseError::ExpectedLiteral { at: 0 });
}

#[test]
fn lexical_errors_reach_the_caller() {
    assert_eq!(
        expr(b"1 + $").unwrap_err(),
        ParseError::Lex(LexError::UnexpectedByte { at: 4 })
    );
    assert_eq!(
        expr(b"2147483648").unwrap_err(),
        ParseError::Lex(LexError::NumberOverflow { at: 0 })
    );
    assert_eq!(render(b"2147483647"), "2147483647");
}

#[test]
fn input_after_a_closing_paren_is_left_unread() {
    assert_eq!(render(b"1 ) $"), "1");
}

#[test]
fn binding_powers() {
    assert_eq!(NodeVal::Add.infix_prec(), (1, 2));
    assert_eq!(NodeVal::Sub.infix_prec(), (1, 2));
    assert_eq!(NodeVal::Mul.infix_prec(), (3, 4));
    assert_eq!(NodeVal::Div.infix_prec(), (3, 4));
    assert_eq!(NodeVal::Exp.infix_prec(), (8, 7));
    assert_eq!(NodeVal::Sub.prefix_prec(), 5);
    assert_eq!(NodeVal::Add.prefix_prec(), 5);
    assert_eq!(NodeVal::Fac.postfix_prec(), Some(6));
    assert_eq!(NodeVal::Mul.postfix_prec(), None);
}

#[test]
fn nodes_render_as_s_expressions() {
    let n = Node::binary(
        NodeVal::Div,
        Node::unary(NodeVal::Sub, Node::Leaf(expr_parser::parser::LeafVal::Int(-5))),
        Node::Leaf(expr_parser::parser::LeafVal::Int(i32::MIN)),
    );
    assert_eq!(n.to_string(), "(/ (- -5) -2147483648)");
    assert_eq!(NodeVal::Exp.to_string(), "^");
}
