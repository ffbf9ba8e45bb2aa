use crazy_representation::rational::Rat;
use crazy_representation::rpn_evaluator::{
    evaluate, to_infix, tokenizer, u64_to_string, EvalError, OperationElt, Operator,
};

fn num(v: u64) -> OperationElt {
    OperationElt::Operand(v)
}

fn op(o: Operator) -> OperationElt {
    OperationElt::Operator(o)
}

#[test]
fn addition_round_trip() {
    // "1 2 +" evaluates to 3
    let r = evaluate(&vec![num(1), num(2), op(Operator::Addition)]);
    assert_eq!(r, Ok(Rat { num: 3, den: 1 }));
}

#[test]
fn concatenation_round_trip() {
    // "3 4 _" evaluates to 34
    let r = evaluate(&vec![num(3), num(4), op(Operator::Concatenation)]);
    assert_eq!(r, Ok(Rat { num: 34, den: 1 }));
}

#[test]
fn power_round_trip() {
    // "2 3 ^" evaluates to 8, within bounds
    let r = evaluate(&vec![num(2), num(3), op(Operator::Power)]);
    assert_eq!(r, Ok(Rat { num: 8, den: 1 }));
}

#[test]
fn division_below_lower_bound() {
    // "1 1000000000 /" is below the lower bound 1/1000
    let r = evaluate(&vec![num(1), num(1000000000), op(Operator::Division)]);
    assert_eq!(r, Err(EvalError::ArithmeticOutOfRange));
}

#[test]
fn division_is_exact() {
    // "1 2 /" is the exact fraction one half
    let r = evaluate(&vec![num(1), num(2), op(Operator::Division)]);
    assert_eq!(r, Ok(Rat { num: 1, den: 2 }));
}

#[test]
fn subtraction_can_go_negative() {
    let r = evaluate(&vec![num(3), num(4), op(Operator::Substraction)]);
    assert_eq!(r, Ok(Rat { num: -1, den: 1 }));
}

#[test]
fn negative_exponent_gives_reciprocal() {
    // "2 1 2 - ^" is 2^(1-2) = 1/2
    let r = evaluate(&vec![
        num(2),
        num(1),
        num(2),
        op(Operator::Substraction),
        op(Operator::Power),
    ]);
    assert_eq!(r, Ok(Rat { num: 1, den: 2 }));
}

#[test]
fn fractional_exponent_is_out_of_range() {
    // "4 1 2 / ^" has the non-integer exponent 1/2
    let r = evaluate(&vec![
        num(4),
        num(1),
        num(2),
        op(Operator::Division),
        op(Operator::Power),
    ]);
    assert_eq!(r, Err(EvalError::ArithmeticOutOfRange));
}

#[test]
fn power_at_upper_bound_rejected() {
    // "2 30 ^" is exactly 2^30, rejected since the power check is strict
    let r = evaluate(&vec![num(2), num(30), op(Operator::Power)]);
    assert_eq!(r, Err(EvalError::ArithmeticOutOfRange));
    // "2 29 ^" stays below the bound
    let r2 = evaluate(&vec![num(2), num(29), op(Operator::Power)]);
    assert_eq!(r2, Ok(Rat { num: 0x2000_0000, den: 1 }));
}

#[test]
fn division_above_upper_bound_allows_equality() {
    // "2 30 ^" fails, but the same value through division is allowed:
    // the division check rejects only strictly above 2^30.
    let r = evaluate(&vec![num(1073741824), num(1), op(Operator::Division)]);
    assert_eq!(r, Ok(Rat { num: 1073741824, den: 1 }));
    let r2 = evaluate(&vec![num(1073741825), num(1), op(Operator::Division)]);
    assert_eq!(r2, Err(EvalError::ArithmeticOutOfRange));
}

#[test]
fn concatenation_of_negative_right_operand_fails() {
    // "3 1 2 - _" concatenates onto the negative value -1
    let r = evaluate(&vec![
        num(3),
        num(1),
        num(2),
        op(Operator::Substraction),
        op(Operator::Concatenation),
    ]);
    assert_eq!(r, Err(EvalError::ConcatenationInvalid));
}

#[test]
fn concatenation_of_fraction_fails() {
    // "1 2 / 3 _" concatenates a non-integer
    let r = evaluate(&vec![
        num(1),
        num(2),
        op(Operator::Division),
        num(3),
        op(Operator::Concatenation),
    ]);
    assert_eq!(r, Err(EvalError::ConcatenationInvalid));
}

#[test]
fn concatenation_onto_negative_left_keeps_sign() {
    // "1 2 - 3 _" is the text "-1" followed by "3": -13
    let r = evaluate(&vec![
        num(1),
        num(2),
        op(Operator::Substraction),
        num(3),
        op(Operator::Concatenation),
    ]);
    assert_eq!(r, Ok(Rat { num: -13, den: 1 }));
}

#[test]
fn operator_without_operands_underflows() {
    let r = evaluate(&vec![op(Operator::Addition)]);
    assert_eq!(r, Err(EvalError::InsufficientOperands));
}

#[test]
fn leftover_operands_mean_missing_operator() {
    let r = evaluate(&vec![num(1), num(2)]);
    assert_eq!(r, Err(EvalError::MissingOperator));
}

#[test]
fn unrepresentable_literal_is_a_parse_error() {
    let r = evaluate(&vec![num(u64::MAX), num(1), op(Operator::Addition)]);
    assert_eq!(r, Err(EvalError::ParseError));
}

#[test]
fn division_by_zero_is_out_of_range() {
    let r = evaluate(&vec![
        num(1),
        num(2),
        num(2),
        op(Operator::Substraction),
        op(Operator::Division),
    ]);
    assert_eq!(r, Err(EvalError::ArithmeticOutOfRange));
}

#[test]
fn fractions_reduce_to_lowest_terms() {
    // "2 3 / 3 *" is 6/3 = 2 in lowest terms
    let r = evaluate(&vec![
        num(2),
        num(3),
        op(Operator::Division),
        num(3),
        op(Operator::Multiplication),
    ]);
    assert_eq!(r, Ok(Rat { num: 2, den: 1 }));
}

#[test]
fn decimal_rendering() {
    assert_eq!(u64_to_string(0), "0");
    assert_eq!(u64_to_string(7), "7");
    assert_eq!(u64_to_string(120), "120");
    assert_eq!(u64_to_string(1073741824), "1073741824");
}

#[test]
fn infix_simple_sum() {
    let r = to_infix(&vec![num(1), num(2), op(Operator::Addition)]);
    assert_eq!(r, Ok(String::from("1 + 2")));
}

#[test]
fn infix_wraps_looser_operand() {
    // "1 2 + 3 *" renders as "(1 + 2) * 3"
    let r = to_infix(&vec![
        num(1),
        num(2),
        op(Operator::Addition),
        num(3),
        op(Operator::Multiplication),
    ]);
    assert_eq!(r, Ok(String::from("(1 + 2) * 3")));
}

#[test]
fn infix_wraps_subtrahend() {
    // "1 2 3 - -" renders as "1 - (2 - 3)"
    let r = to_infix(&vec![
        num(1),
        num(2),
        num(3),
        op(Operator::Substraction),
        op(Operator::Substraction),
    ]);
    assert_eq!(r, Ok(String::from("1 - (2 - 3)")));
}

#[test]
fn infix_concatenation_joins_digits() {
    let r = to_infix(&vec![num(3), num(4), op(Operator::Concatenation)]);
    assert_eq!(r, Ok(String::from("34")));
}

#[test]
fn infix_of_invalid_expression_reports_the_failure() {
    let r = to_infix(&vec![num(1), num(2)]);
    assert_eq!(r, Err(EvalError::MissingOperator));
}

#[test]
fn tokenizer_splits_on_whitespace() {
    let r = tokenizer("1 2 +".as_bytes());
    assert_eq!(
        r,
        Ok(vec![num(1), num(2), op(Operator::Addition)])
    );
}

#[test]
fn tokenizer_reads_all_operators_and_long_literals() {
    let r = tokenizer("1000000000 12 + - * / _ ^".as_bytes());
    assert_eq!(
        r,
        Ok(vec![
            num(1000000000),
            num(12),
            op(Operator::Addition),
            op(Operator::Substraction),
            op(Operator::Multiplication),
            op(Operator::Division),
            op(Operator::Concatenation),
            op(Operator::Power),
        ])
    );
}

#[test]
fn tokenizer_rejects_malformed_words() {
    assert_eq!(tokenizer("1 x +".as_bytes()), Err(EvalError::ParseError));
    assert_eq!(tokenizer("1.5 2 +".as_bytes()), Err(EvalError::ParseError));
    assert_eq!(
        tokenizer("99999999999999999999 1 +".as_bytes()),
        Err(EvalError::ParseError)
    );
}

#[test]
fn text_round_trips() {
    // "1 2 +" -> 3, "3 4 _" -> 34, "2 3 ^" -> 8, and the division below
    // the lower bound is rejected.
    let cases: Vec<(&str, Result<Rat, EvalError>)> = vec![
        ("1 2 +", Ok(Rat { num: 3, den: 1 })),
        ("3 4 _", Ok(Rat { num: 34, den: 1 })),
        ("2 3 ^", Ok(Rat { num: 8, den: 1 })),
        ("1 1000000000 /", Err(EvalError::ArithmeticOutOfRange)),
    ];
    for (text, expected) in cases {
        let tokens = tokenizer(text.as_bytes()).unwrap();
        assert_eq!(evaluate(&tokens), expected);
    }
}

#[test]
fn equal_values_share_one_representation() {
    // 2/4 and 1/2 are the same rational and come out as the same fraction,
    // so they would form the same uniqueness-memo key.
    let a = evaluate(&vec![num(2), num(4), op(Operator::Division)]).unwrap();
    let b = evaluate(&vec![num(1), num(2), op(Operator::Division)]).unwrap();
    assert_eq!(a, b);
    assert_eq!(a, Rat { num: 1, den: 2 });
}
