use big_num::ast::{eval, try_eval};
use big_num::{AstNode, BigNum};

fn lit(n: i64) -> Box<AstNode> {
    Box::new(AstNode::Literal(BigNum::from(n)))
}

#[test]
fn value_of_an_expression() {
    // 2^10 + 3
    let tree = AstNode::Add(Box::new(AstNode::Pow(lit(2), lit(10))), lit(3));
    assert_eq!(eval(&tree), BigNum::from(1027));
    // (7 - 10) * 4
    let tree = AstNode::Mul(Box::new(AstNode::Sub(lit(7), lit(10))), lit(4));
    assert_eq!(eval(&tree), BigNum::from(-12));
    // 17 % 5
    let tree = AstNode::Mod(lit(17), lit(5));
    assert_eq!(eval(&tree), BigNum::from(2));
    // 1 / 4
    let tree = AstNode::Div(lit(1), lit(4));
    assert_eq!(eval(&tree) * BigNum::from(4), BigNum::from(1));
    let tree = AstNode::Literal(BigNum::from(9));
    assert_eq!(eval(&tree), BigNum::from(9));
}

#[test]
fn expressions_without_a_value() {
    assert!(try_eval(&AstNode::Div(lit(1), lit(0))).is_none());
    assert!(try_eval(&AstNode::Mod(lit(5), lit(0))).is_none());
    assert!(try_eval(&AstNode::Mod(lit(5), lit(-3))).is_none());
    assert!(try_eval(&AstNode::Pow(lit(0), lit(-1))).is_none());
    assert!(try_eval(&AstNode::Add(Box::new(AstNode::Div(lit(1), lit(0))), lit(1))).is_none());
    // the number is less than the divisor: nothing is taken off
    assert_eq!(try_eval(&AstNode::Mod(lit(-5), lit(-3))), Some(BigNum::from(-5)));
    assert!(try_eval(&AstNode::Mod(lit(-5), lit(3))).is_some());
}

#[test]
fn a_copy_of_an_expression_is_the_expression() {
    let tree = AstNode::Add(Box::new(AstNode::Pow(lit(2), lit(10))), lit(3));
    let copy = tree.clone();
    assert_eq!(copy, tree);
    assert_eq!(eval(&copy), BigNum::from(1027));
}
