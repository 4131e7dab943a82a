use minilang::lexer::{lex, DataType, LitValue, Token};
use minilang::parser::{parse, Expr, Node, ParseError, VarName};

fn parse_src(src: &str) -> Result<Vec<Node>, ParseError> {
    parse(lex(src.to_string()).unwrap())
}

fn int_lit(n: i64) -> Expr {
    Expr::Literal(LitValue::Int(n))
}

fn var(s: &str) -> Expr {
    Expr::Var(VarName(s.to_string()))
}

fn bin(l: Expr, op: &str, r: Expr) -> Expr {
    Expr::BinaryOp(Box::new(l), Token::Op(op.to_string()), Box::new(r))
}

#[test]
fn nested_if_closes_innermost_first() {
    assert_eq!(
        parse_src("if 1 if 2 out 3 fi out 4 fi"),
        Ok(vec![Node::IfStatement(
            int_lit(1),
            vec![Node::IfStatement(int_lit(2), vec![Node::Out(int_lit(3))]), Node::Out(int_lit(4))]
        )])
    );
}

#[test]
fn declaration_round_trip() {
    assert_eq!(
        parse_src("int x = 5"),
        Ok(vec![Node::VarDec(DataType::Integer, VarName("x".to_string()), int_lit(5))])
    );
}

#[test]
fn declaration_without_assignment_fails() {
    assert_eq!(
        parse_src("int x 5"),
        Err(ParseError::UnexpectedToken(Token::Literal(LitValue::Int(5))))
    );
}

#[test]
fn declaration_without_name_fails() {
    assert_eq!(parse_src("int 5 = 5"), Err(ParseError::UnexpectedToken(Token::Literal(LitValue::Int(5)))));
    assert_eq!(parse_src("bool"), Err(ParseError::UnexpectedEndOfInput));
}

#[test]
fn unclosed_if_is_unexpected_end() {
    assert_eq!(parse_src("if 1 out 2"), Err(ParseError::UnexpectedEndOfInput));
}

#[test]
fn expression_statements_are_kept() {
    assert_eq!(parse_src("x = 1"), Ok(vec![Node::Expr(bin(var("x"), "=", int_lit(1)))]));
    assert_eq!(
        parse_src("if b x = 2 fi"),
        Ok(vec![Node::IfStatement(var("b"), vec![Node::Expr(bin(var("x"), "=", int_lit(2)))])])
    );
}

#[test]
fn binary_operators_fold_to_the_left() {
    assert_eq!(
        parse_src("out 1 + 2 * y"),
        Ok(vec![Node::Out(bin(bin(int_lit(1), "+", int_lit(2)), "*", var("y")))])
    );
}

#[test]
fn comparison_and_logic_operators_are_binary() {
    assert_eq!(
        parse_src("out a == b || c && d"),
        Ok(vec![Node::Out(bin(bin(bin(var("a"), "==", var("b")), "||", var("c")), "&&", var("d")))])
    );
}

#[test]
fn read_and_out_statements() {
    assert_eq!(
        parse_src("read x\nout \"s\""),
        Ok(vec![Node::Read(var("x")), Node::Out(Expr::Literal(LitValue::String("s".to_string())))])
    );
}

#[test]
fn boolean_declaration() {
    assert_eq!(
        parse_src("bool ok = true"),
        Ok(vec![Node::VarDec(DataType::Boolean, VarName("ok".to_string()), Expr::Literal(LitValue::Bool(true)))])
    );
}

#[test]
fn line_breaks_separate_statements() {
    assert_eq!(
        parse_src("\nout 1\n\nif x\nout 2\nfi\n"),
        Ok(vec![Node::Out(int_lit(1)), Node::IfStatement(var("x"), vec![Node::Out(int_lit(2))])])
    );
}

#[test]
fn empty_program() {
    assert_eq!(parse(vec![]), Ok(vec![]));
}

#[test]
fn stray_terminator_is_a_statement() {
    assert_eq!(parse_src("fi"), Ok(vec![Node::Fi]));
}

#[test]
fn keyword_where_expression_expected_fails() {
    assert_eq!(parse_src("out if"), Err(ParseError::UnexpectedToken(Token::Keyword("if".to_string()))));
    assert_eq!(parse_src("elif 1"), Err(ParseError::UnexpectedToken(Token::Keyword("elif".to_string()))));
}

#[test]
fn dangling_operator_fails() {
    assert_eq!(parse_src("out 1 +"), Err(ParseError::UnexpectedEndOfInput));
    assert_eq!(parse_src("out 1 + !"), Err(ParseError::UnexpectedToken(Token::Op("!".to_string()))));
}

#[test]
fn negation_ends_an_expression() {
    assert_eq!(parse_src("out x !"), Err(ParseError::UnexpectedToken(Token::Op("!".to_string()))));
}
