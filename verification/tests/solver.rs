use exprsolve::solver::{compile, solve, EvalError, Expected, Instr, Operator};
use exprsolve::tokenizer::Tokenizer;

/// Fold a compiled instruction list over IEEE-754 doubles: push each
/// literal's parsed value, apply each operator to the two most recent values.
/// The solver only emits lists that leave exactly one value.
fn run(prog: &[Instr]) -> f64 {
    let mut stack: Vec<f64> = Vec::new();
    for ins in prog {
        match ins {
            Instr::Push { raw, .. } => {
                let v: f64 = std::str::from_utf8(raw).unwrap().parse().unwrap();
                stack.push(v);
            }
            Instr::Apply { op } => {
                let b = stack.pop().unwrap();
                let a = stack.pop().unwrap();
                stack.push(match op {
                    Operator::Add => a + b,
                    Operator::Sub => a - b,
                    Operator::Mul => a * b,
                    Operator::Div => a / b,
                });
            }
        }
    }
    assert_eq!(stack.len(), 1);
    stack[0]
}

fn evaluate(src: &str) -> Result<f64, EvalError> {
    compile(src.as_bytes().to_vec()).map(|prog| run(&prog))
}

#[test]
fn addition() {
    assert_eq!(evaluate("2+3").unwrap(), 5.0);
}

#[test]
fn precedence_of_multiplication() {
    assert_eq!(evaluate("2+3*4").unwrap(), 14.0);
}

#[test]
fn parenthesization_overrides_precedence() {
    assert_eq!(evaluate("(2+3)*4").unwrap(), 20.0);
}

#[test]
fn subtraction_is_left_associative() {
    assert_eq!(evaluate("10-2-3").unwrap(), 5.0);
}

#[test]
fn division_is_left_associative() {
    assert_eq!(evaluate("8/2/2").unwrap(), 2.0);
}

#[test]
fn division_by_zero_is_positive_infinity() {
    let v = evaluate("1/0").unwrap();
    assert!(v.is_infinite() && v > 0.0);
}

#[test]
fn decimal_literal_value() {
    assert_eq!(evaluate("12.50").unwrap(), 12.5);
}

#[test]
fn whitespace_is_ignored_between_tokens() {
    assert_eq!(evaluate(" 1 \t+  2 ").unwrap(), 3.0);
}

#[test]
fn nested_groups() {
    assert_eq!(evaluate("((2))").unwrap(), 2.0);
    assert_eq!(evaluate("2*(3+4*(5-1))/2").unwrap(), 19.0);
}

#[test]
fn compiled_order_keeps_left_associativity() {
    // `10-2-3` must fold as `(10-2)-3`: second subtraction applies last.
    let prog = compile(b"10-2-3".to_vec()).unwrap();
    let shape: Vec<String> = prog
        .iter()
        .map(|ins| match ins {
            Instr::Push { raw, .. } => String::from_utf8(raw.clone()).unwrap(),
            Instr::Apply { op } => format!("{:?}", op),
        })
        .collect();
    assert_eq!(shape, vec!["10", "2", "Sub", "3", "Sub"]);
}

#[test]
fn compiled_order_keeps_precedence() {
    // `2+3*4`: the product is built before the sum.
    let prog = compile(b"2+3*4".to_vec()).unwrap();
    let shape: Vec<String> = prog
        .iter()
        .map(|ins| match ins {
            Instr::Push { raw, .. } => String::from_utf8(raw.clone()).unwrap(),
            Instr::Apply { op } => format!("{:?}", op),
        })
        .collect();
    assert_eq!(shape, vec!["2", "3", "4", "Mul", "Add"]);
}

#[test]
fn truncated_expression_is_unexpected_end_of_input() {
    match evaluate("2+") {
        Err(EvalError::UnexpectedEndOfInput { .. }) => {}
        other => panic!("expected end-of-input error, got {:?}", other),
    }
}

#[test]
fn empty_expression_is_unexpected_end_of_input() {
    assert!(matches!(
        evaluate(""),
        Err(EvalError::UnexpectedEndOfInput { .. })
    ));
}

#[test]
fn operator_in_factor_position_is_unexpected_token() {
    match evaluate("2+*3") {
        Err(EvalError::UnexpectedToken { position, raw, .. }) => {
            assert_eq!(position, 2);
            assert_eq!(raw, b"*");
        }
        other => panic!("expected an unexpected-token error, got {:?}", other),
    }
}

#[test]
fn leading_minus_is_rejected() {
    // Unary minus is outside the grammar.
    assert!(matches!(
        evaluate("-5"),
        Err(EvalError::UnexpectedToken { position: 0, .. })
    ));
}

#[test]
fn unclosed_group_reports_the_open_parenthesis() {
    match evaluate("(1+1") {
        Err(EvalError::UnmatchedParenthesis { position }) => assert_eq!(position, 0),
        other => panic!("expected an unmatched-parenthesis error, got {:?}", other),
    }
}

#[test]
fn group_interrupted_by_number_expects_close_parenthesis() {
    match evaluate("(1 2") {
        Err(EvalError::UnexpectedToken { position, expected, .. }) => {
            assert_eq!(position, 3);
            assert_eq!(expected, Expected::CloseParenthesis);
        }
        other => panic!("expected an unexpected-token error, got {:?}", other),
    }
}

#[test]
fn trailing_token_after_expression_is_an_error() {
    match evaluate("2)") {
        Err(EvalError::UnexpectedToken { position, raw, expected }) => {
            assert_eq!(position, 1);
            assert_eq!(raw, b")");
            assert_eq!(expected, Expected::Operator);
        }
        other => panic!("expected an unexpected-token error, got {:?}", other),
    }
}

#[test]
fn unrecognized_byte_is_a_lexical_error_with_context() {
    match evaluate("2 $ 3") {
        Err(EvalError::LexicalError { position, context }) => {
            assert_eq!(position, 2);
            assert!(context.contains(&b'$'));
        }
        other => panic!("expected a lexical error, got {:?}", other),
    }
}

#[test]
fn solve_drives_its_own_tokenizer() {
    let mut t = Tokenizer::new(b"6*7".to_vec());
    let prog = solve(&mut t).unwrap();
    assert_eq!(run(&prog), 42.0);
}
