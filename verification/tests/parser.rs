use graphcalc::parser::{
    associativity, evaluate_postfix, evaluate_with_var, infix_to_postfix, parse, prec,
    substitute_var, Associativity, EvalError, Token,
};
use graphcalc::MyApp;

#[test]
fn test_parser() {
    let expr = "2^2*2";
    println!("{:?}", evaluate_with_var(expr, 10));
    assert_eq!(evaluate_with_var(expr, 10), Ok(8));
}

#[test]
fn tokenize_simple_sum() {
    assert_eq!(
        parse("2+3"),
        Ok(vec![Token::Int(2), Token::Plus, Token::Int(3)])
    );
}

#[test]
fn tokenize_skips_whitespace() {
    assert_eq!(
        parse(" 2\t+\n3 "),
        Ok(vec![Token::Int(2), Token::Plus, Token::Int(3)])
    );
}

#[test]
fn tokenize_function_call_marker() {
    assert_eq!(
        parse("sin(2)"),
        Ok(vec![
            Token::FuncCall(String::from("sin(")),
            Token::Int(2),
            Token::RightParen,
        ])
    );
}

#[test]
fn tokenize_x_before_paren_is_function() {
    assert_eq!(
        parse("x(2)"),
        Ok(vec![
            Token::FuncCall(String::from("x(")),
            Token::Int(2),
            Token::RightParen,
        ])
    );
    assert_eq!(parse("x"), Ok(vec![Token::VarX]));
}

#[test]
fn tokenize_unknown_char_fails() {
    assert_eq!(
        parse("2 + $"),
        Err(EvalError::LexError {
            substring: String::from("$"),
            position: 4,
        })
    );
}

#[test]
fn tokenize_plain_identifier_fails() {
    assert_eq!(
        parse("abc"),
        Err(EvalError::LexError {
            substring: String::from("a"),
            position: 0,
        })
    );
}

#[test]
fn tokenize_literal_overflow_fails() {
    assert_eq!(
        parse("99999999999999999999"),
        Err(EvalError::LexError {
            substring: String::from("99999999999999999999"),
            position: 0,
        })
    );
    assert_eq!(
        parse("9223372036854775807"),
        Ok(vec![Token::Int(i64::MAX)])
    );
}

#[test]
fn postfix_precedence() {
    let tokens = parse("2+3*4").unwrap();
    let postfix = infix_to_postfix(tokens);
    assert_eq!(
        postfix,
        vec![
            Token::Int(2),
            Token::Int(3),
            Token::Int(4),
            Token::Star,
            Token::Plus,
        ]
    );
    assert_eq!(evaluate_postfix(postfix), Ok(14));
}

#[test]
fn power_is_right_associative() {
    assert_eq!(evaluate_with_var("2^3^2", 0), Ok(512));
}

#[test]
fn parentheses_change_precedence() {
    assert_eq!(evaluate_with_var("(2+3)*4", 0), Ok(20));
    assert_eq!(evaluate_with_var("2+3*4", 0), Ok(14));
}

#[test]
fn variable_substitution() {
    assert_eq!(evaluate_with_var("x*x", 5), Ok(25));
    assert_eq!(evaluate_with_var("x*x", -3), Ok(9));
}

#[test]
fn substitute_leaves_other_tokens() {
    let tokens = vec![Token::VarX, Token::Plus, Token::Int(1)];
    assert_eq!(
        substitute_var(&tokens, 7),
        vec![Token::Int(7), Token::Plus, Token::Int(1)]
    );
}

#[test]
fn divide_by_zero_fails() {
    assert_eq!(evaluate_with_var("1/0", 0), Err(EvalError::DivideByZero));
    assert_eq!(evaluate_with_var("1%0", 0), Err(EvalError::DivideByZero));
}

#[test]
fn unsupported_function_fails() {
    assert_eq!(
        evaluate_with_var("sin(2)", 0),
        Err(EvalError::UnsupportedFunction {
            name: String::from("sin"),
        })
    );
}

#[test]
fn negative_exponent_fails() {
    assert_eq!(
        evaluate_with_var("2^(0-1)", 0),
        Err(EvalError::ExponentOutOfRange)
    );
}

#[test]
fn lone_operator_underflows() {
    assert_eq!(evaluate_with_var("+", 0), Err(EvalError::StackUnderflow));
}

#[test]
fn leftover_operands_are_malformed() {
    assert_eq!(
        evaluate_with_var("2 3", 0),
        Err(EvalError::MalformedExpression)
    );
    assert_eq!(
        evaluate_with_var("(", 0),
        Err(EvalError::MalformedExpression)
    );
}

#[test]
fn division_truncates_toward_zero() {
    assert_eq!(evaluate_with_var("7/2", 0), Ok(3));
    assert_eq!(evaluate_with_var("0-7/2", 0), Ok(-3));
    assert_eq!(evaluate_with_var("7%3", 0), Ok(1));
}

#[test]
fn addition_wraps() {
    assert_eq!(
        evaluate_with_var("9223372036854775807+1", 0),
        Ok(i64::MIN)
    );
}

#[test]
fn precedence_table() {
    assert_eq!(prec(&Token::Plus), 1);
    assert_eq!(prec(&Token::Minus), 1);
    assert_eq!(prec(&Token::Star), 2);
    assert_eq!(prec(&Token::Slash), 2);
    assert_eq!(prec(&Token::Modulus), 2);
    assert_eq!(prec(&Token::Caret), 3);
    assert_eq!(prec(&Token::LeftParen), -1);
    assert_eq!(prec(&Token::Comma), -1);
}

#[test]
fn associativity_table() {
    assert_eq!(associativity(&Token::Caret), Associativity::Right);
    assert_eq!(associativity(&Token::Plus), Associativity::Left);
    assert_eq!(associativity(&Token::Star), Associativity::Left);
}

#[test]
fn operator_classification() {
    assert!(Token::Plus.is_operator());
    assert!(Token::Caret.is_operator());
    assert!(!Token::LeftParen.is_operator());
    assert!(!Token::Int(3).is_operator());
    assert!(!Token::VarX.is_operator());
}

#[test]
fn app_samples_its_expression() {
    let app = MyApp {
        line_text: String::from("x*x+1"),
    };
    assert_eq!(app.sample(4), Ok(17));
    let blank = MyApp::default();
    assert_eq!(blank.sample(0), Err(EvalError::MalformedExpression));
}
