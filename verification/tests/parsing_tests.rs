use rune::lexer::{tokenize, Token, TokenType, TokenizeError};
use rune::parser::{
    parse_module, parse_single_decl, parse_single_expr, Expression, Operator, ParseError,
};

fn toks(src: &str) -> Vec<Token> {
    tokenize(src).expect("tokenize failed")
}

#[test]
fn tokenize_punctuation_and_operators() {
    let ts = toks("{ } ( ) = + - * / % ; ->");
    let kinds: Vec<TokenType> = ts.iter().map(|t| t.variant).collect();
    assert_eq!(
        kinds,
        vec![
            TokenType::OpenBrace,
            TokenType::CloseBrace,
            TokenType::OpenParen,
            TokenType::CloseParen,
            TokenType::OpAssign,
            TokenType::OpPlus,
            TokenType::OpMinus,
            TokenType::OpMultiply,
            TokenType::OpDivide,
            TokenType::OpModulo,
            TokenType::Semicolon,
            TokenType::OpFunction,
        ]
    );
}

#[test]
fn tokenize_keyword_identifier_number_string() {
    let ts = toks("let lettuce _x9 042 \"hi\"");
    assert_eq!(ts.len(), 5);
    assert_eq!(ts[0].variant, TokenType::LetKeyword);
    assert_eq!(ts[0].value, "let");
    assert_eq!(ts[1].variant, TokenType::Identifier);
    assert_eq!(ts[1].value, "lettuce");
    assert_eq!(ts[2].variant, TokenType::Identifier);
    assert_eq!(ts[2].value, "_x9");
    assert_eq!(ts[3].variant, TokenType::NumberLiteral);
    assert_eq!(ts[3].value, "042");
    assert_eq!(ts[4].variant, TokenType::StringLiteral);
    assert_eq!(ts[4].value, "\"hi\"");
}

#[test]
fn tokenize_arrow_binds_to_minus() {
    let ts = toks("a->b - c");
    let kinds: Vec<TokenType> = ts.iter().map(|t| t.variant).collect();
    assert_eq!(
        kinds,
        vec![
            TokenType::Identifier,
            TokenType::OpFunction,
            TokenType::Identifier,
            TokenType::OpMinus,
            TokenType::Identifier,
        ]
    );
}

#[test]
fn tokenize_unexpected_character() {
    match tokenize("let x = $") {
        Err(TokenizeError::UnexpectedCharacter(c)) => assert_eq!(c, '$'),
        other => panic!("expected an unexpected-character error, got {:?}", other),
    }
}

#[test]
fn tokenize_unterminated_string_drops_rest() {
    let ts = toks("x \"abc");
    assert_eq!(ts.len(), 1);
    assert_eq!(ts[0].variant, TokenType::Identifier);
}

#[test]
fn precedence_multiplication_over_addition() {
    let ts = toks("let x = 1 + 2 * 3");
    let m = parse_module(&ts).expect("parse failed");
    assert_eq!(m.declarations.len(), 1);
    assert_eq!(m.declarations[0].identifier, "x");
    match &m.declarations[0].initializer {
        Expression::BinaryExpression(Operator::Add, l, r) => {
            match &**l {
                Expression::NumberExpression(n) => assert_eq!(n, "1"),
                other => panic!("left operand is {:?}", other),
            }
            match &**r {
                Expression::BinaryExpression(Operator::Multiply, rl, rr) => {
                    match &**rl {
                        Expression::NumberExpression(n) => assert_eq!(n, "2"),
                        other => panic!("inner left operand is {:?}", other),
                    }
                    match &**rr {
                        Expression::NumberExpression(n) => assert_eq!(n, "3"),
                        other => panic!("inner right operand is {:?}", other),
                    }
                },
                other => panic!("right operand is {:?}", other),
            }
        },
        other => panic!("initializer is {:?}", other),
    }
}

#[test]
fn unary_minus_chains_right_associatively() {
    let ts = toks("- - 3");
    let e = parse_single_expr(&ts).expect("parse failed");
    match &e {
        Expression::UnaryExpression(Operator::UnaryMinus, inner) => match &**inner {
            Expression::UnaryExpression(Operator::UnaryMinus, innermost) => match &**innermost {
                Expression::NumberExpression(n) => assert_eq!(n, "3"),
                other => panic!("innermost is {:?}", other),
            },
            other => panic!("inner is {:?}", other),
        },
        other => panic!("expression is {:?}", other),
    }
}

#[test]
fn implicit_application_folds_left() {
    let ts = toks("f 1 2");
    let e = parse_single_expr(&ts).expect("parse failed");
    match &e {
        Expression::CallExpression(callee, arg) => {
            match &**callee {
                Expression::CallExpression(inner_callee, inner_arg) => {
                    assert!(matches!(&**inner_callee, Expression::IdentifierExpression(id) if id == "f"));
                    assert!(matches!(&**inner_arg, Expression::NumberExpression(n) if n == "1"));
                },
                other => panic!("callee is {:?}", other),
            }
            assert!(matches!(&**arg, Expression::NumberExpression(n) if n == "2"));
        },
        other => panic!("expression is {:?}", other),
    }
}

#[test]
fn application_binds_tighter_than_operators() {
    let ts = toks("f 1 + 2");
    let e = parse_single_expr(&ts).expect("parse failed");
    match &e {
        Expression::BinaryExpression(Operator::Add, l, _) => {
            assert!(matches!(&**l, Expression::CallExpression(_, _)));
        },
        other => panic!("expression is {:?}", other),
    }
}

#[test]
fn parentheses_reset_precedence() {
    let ts = toks("(1 + 2) * 3");
    let e = parse_single_expr(&ts).expect("parse failed");
    match &e {
        Expression::BinaryExpression(Operator::Multiply, l, _) => {
            assert!(matches!(&**l, Expression::BinaryExpression(Operator::Add, _, _)));
        },
        other => panic!("expression is {:?}", other),
    }
}

#[test]
fn lambda_body_extends_to_the_right() {
    let ts = toks("x -> x + 1");
    let e = parse_single_expr(&ts).expect("parse failed");
    match &e {
        Expression::FunctionExpression(param, body) => {
            assert_eq!(param, "x");
            assert!(matches!(&**body, Expression::BinaryExpression(Operator::Add, _, _)));
        },
        other => panic!("expression is {:?}", other),
    }
}

#[test]
fn reparsing_gives_identical_tree() {
    let src = "let f = x -> y -> x + y * 2 let z = f 1 (2 - 3)";
    let m1 = parse_module(&toks(src)).expect("first parse failed");
    let m2 = parse_module(&toks(src)).expect("second parse failed");
    assert_eq!(format!("{:?}", m1), format!("{:?}", m2));
}

#[test]
fn module_of_two_declarations() {
    let ts = toks("let x = 1 let y = 2");
    let m = parse_module(&ts).expect("parse failed");
    assert_eq!(m.declarations.len(), 2);
    assert_eq!(m.declarations[0].identifier, "x");
    assert_eq!(m.declarations[1].identifier, "y");
}

#[test]
fn empty_module_parses() {
    let m = parse_module(&[]).expect("parse failed");
    assert_eq!(m.declarations.len(), 0);
}

#[test]
fn trailing_token_in_module_is_reported() {
    let ts = toks("let x = 1;");
    match parse_module(&ts) {
        Err(ParseError::ExpectingOther(tok, what)) => {
            assert_eq!(tok.variant, TokenType::Semicolon);
            assert_eq!(what, "declaration or end of file");
        },
        other => panic!("expected a trailing-token error, got {:?}", other),
    }
}

#[test]
fn missing_assignment_is_unexpected_token() {
    let ts = toks("let x 1");
    match parse_module(&ts) {
        Err(ParseError::UnexpectedToken(tok, expected)) => {
            assert_eq!(tok.variant, TokenType::NumberLiteral);
            assert_eq!(expected, TokenType::OpAssign);
        },
        other => panic!("expected an unexpected-token error, got {:?}", other),
    }
}

#[test]
fn truncated_declaration_is_unexpected_end() {
    let ts = toks("let");
    match parse_module(&ts) {
        Err(ParseError::UnexpectedEndOfFile) => {},
        other => panic!("expected an end-of-input error, got {:?}", other),
    }
}

#[test]
fn empty_expression_is_unexpected_end() {
    match parse_single_expr(&[]) {
        Err(ParseError::UnexpectedEndOfFile) => {},
        other => panic!("expected an end-of-input error, got {:?}", other),
    }
}

#[test]
fn non_declaration_is_a_backtrackable_non_match() {
    let ts = toks("x");
    match parse_single_decl(&ts) {
        Err(ParseError::NoMatch) => {},
        other => panic!("expected the non-match signal, got {:?}", other),
    }
}

#[test]
fn trailing_tokens_after_single_parses() {
    let ts = toks("let x = 1 let y = 2");
    match parse_single_decl(&ts) {
        Err(ParseError::ExpectingEndOfFile) => {},
        other => panic!("expected an expecting-end error, got {:?}", other),
    }
    let ts2 = toks("1 let");
    match parse_single_expr(&ts2) {
        Err(ParseError::ExpectingEndOfFile) => {},
        other => panic!("expected an expecting-end error, got {:?}", other),
    }
}

#[test]
fn primary_position_rejects_operator_token() {
    let ts = toks("let x = *");
    match parse_module(&ts) {
        Err(ParseError::UnexpectedTokenMultiple(tok, expected)) => {
            assert_eq!(tok.variant, TokenType::OpMultiply);
            assert_eq!(
                expected,
                vec![TokenType::Identifier, TokenType::NumberLiteral, TokenType::StringLiteral]
            );
        },
        other => panic!("expected a multiple-expectation error, got {:?}", other),
    }
}

#[test]
fn unclosed_parenthesis_is_reported() {
    let ts = toks("(1 + 2");
    match parse_single_expr(&ts) {
        Err(ParseError::UnexpectedEndOfFile) => {},
        other => panic!("expected an end-of-input error, got {:?}", other),
    }
}

#[test]
fn operator_classification() {
    assert_eq!(Operator::unary(&TokenType::OpPlus), Some(Operator::UnaryPlus));
    assert_eq!(Operator::unary(&TokenType::OpMinus), Some(Operator::UnaryMinus));
    assert_eq!(Operator::unary(&TokenType::OpMultiply), None);
    assert_eq!(Operator::binary(&TokenType::OpPlus), Some(Operator::Add));
    assert_eq!(Operator::binary(&TokenType::OpMinus), Some(Operator::Subtract));
    assert_eq!(Operator::binary(&TokenType::OpMultiply), Some(Operator::Multiply));
    assert_eq!(Operator::binary(&TokenType::OpDivide), Some(Operator::Divide));
    assert_eq!(Operator::binary(&TokenType::OpModulo), Some(Operator::Modulo));
    assert_eq!(Operator::binary(&TokenType::OpFunction), None);
    assert!(Operator::Add.precedence() < Operator::Multiply.precedence());
    assert!(Operator::Multiply.precedence() < Operator::UnaryMinus.precedence());
}
