use crazy_representation::configs_lib::{Config, Operands, Operations};
use crazy_representation::generator::{
    check_and_evaluate, check_uniqueness, generate_operations, generate_threads, SearchOutcome,
    UniquenessMemo, UnitOutcome,
};
use crazy_representation::rational::Rat;
use crazy_representation::rpn_evaluator::{evaluate, OperationElt, Operator};
use crazy_representation::schemes_lib::{generate_schemes, Schema};

fn num(v: u64) -> OperationElt {
    OperationElt::Operand(v)
}

fn operand_tokens(vs: &[u64]) -> Vec<OperationElt> {
    vs.iter().map(|v| num(*v)).collect()
}

#[test]
fn shape_generator_is_nonempty_and_duplicate_free() {
    for n in 1..7u64 {
        let operands: Vec<u64> = (1..=n).collect();
        let schemes = generate_schemes(operands);
        assert!(schemes.len() >= 1);
        for i in 0..schemes.len() {
            for j in (i + 1)..schemes.len() {
                assert_ne!(schemes[i].positions, schemes[j].positions);
            }
        }
        for s in schemes.iter() {
            assert_eq!(s.positions.len(), (n - 1) as usize);
            assert_eq!(s.remaining, (n - 1) as usize);
            assert_eq!(s.result_vec.len(), n as usize);
        }
    }
}

#[test]
fn shape_generator_is_idempotent() {
    for n in 1..7u64 {
        let operands: Vec<u64> = (1..=n).collect();
        let first = generate_schemes(operands.clone());
        let second = generate_schemes(operands);
        let mut a: Vec<Vec<usize>> = first.iter().map(|s| s.positions.clone()).collect();
        let mut b: Vec<Vec<usize>> = second.iter().map(|s| s.positions.clone()).collect();
        a.sort();
        b.sort();
        assert_eq!(a, b);
    }
}

#[test]
fn labeling_yields_operand_and_operator_counts() {
    // Every skeleton for 4 operands, labeled with additions throughout,
    // holds 4 operand tokens and 3 operator tokens.
    let schemes = generate_schemes(vec![1, 2, 3, 4]);
    for s in schemes.iter() {
        let mut labeled = Schema::from_schema(s);
        let mut inserted: u32 = 0;
        while labeled.insert_operator(Operator::Addition) {
            inserted += 1;
        }
        assert_eq!(inserted, 3);
        let operands = labeled
            .result_vec
            .iter()
            .filter(|t| matches!(t, OperationElt::Operand(_)))
            .count();
        let operators = labeled
            .result_vec
            .iter()
            .filter(|t| matches!(t, OperationElt::Operator(_)))
            .count();
        assert_eq!(operands, 4);
        assert_eq!(operators, 3);
    }
}

#[test]
fn adjacency_rule_rejects_close_concatenation() {
    // Two operator slots only 2 apart: the second refuses `_` but takes `+`.
    let mut schema = Schema::from_positions(vec![4, 2]);
    schema.set_result_vec(operand_tokens(&[1, 2, 3]));
    assert!(schema.insert_operator(Operator::Addition));
    // The next open position (4) is exactly 2 past the `+` at position 2.
    assert!(!schema.insert_operator(Operator::Concatenation));
    assert!(schema.insert_operator(Operator::Addition));
    assert_eq!(schema.get_number_of_remain_positions(), 0);
}

#[test]
fn adjacency_rule_allows_distant_concatenation() {
    let mut schema = Schema::from_positions(vec![2]);
    schema.set_result_vec(operand_tokens(&[1, 2]));
    // No non-concatenation operator was placed yet (position -1), and
    // 2 - (-1) = 3 > 2, so `_` is allowed.
    assert!(schema.insert_operator(Operator::Concatenation));
    assert_eq!(evaluate(&schema.result_vec), Ok(Rat { num: 12, den: 1 }));
}

#[test]
fn memo_reports_repeats_by_value_and_consumed_count() {
    let mut memo = UniquenessMemo::new();
    assert!(memo.test_and_insert(3, 1, 1));
    assert!(!memo.test_and_insert(3, 1, 1));
    // Same value at a different operators-consumed count is a new key.
    assert!(memo.test_and_insert(3, 1, 2));
    // A different value at the first count is a new key too.
    assert!(memo.test_and_insert(4, 1, 1));
}

#[test]
fn uniqueness_checkpoint_prunes_equivalent_partial_results() {
    let mut memo = UniquenessMemo::new();

    // "1 2 +" reduces to 3 with one operator consumed.
    let mut first = Schema::from_positions(vec![2]);
    first.set_result_vec(operand_tokens(&[1, 2]));
    assert!(first.insert_operator(Operator::Addition));
    assert!(check_uniqueness(&first, &mut memo));

    // "2 1 +" reduces to the same value with the same count: pruned.
    let mut second = Schema::from_positions(vec![2]);
    second.set_result_vec(operand_tokens(&[2, 1]));
    assert!(second.insert_operator(Operator::Addition));
    assert!(!check_uniqueness(&second, &mut memo));

    // A schema with no consumed position is never pruned.
    let untouched = Schema::from_positions(vec![2]);
    assert!(check_uniqueness(&untouched, &mut memo));
}

#[test]
fn unit_processing_finds_a_match() {
    let mut memo = UniquenessMemo::new();
    let mut schema = Schema::from_positions(vec![2]);
    schema.set_result_vec(operand_tokens(&[1, 2]));
    let (outcome, consumed) =
        check_and_evaluate(schema, &vec![Operator::Addition], &mut memo, 3);
    assert_eq!(outcome, UnitOutcome::Match);
    assert_eq!(evaluate(&consumed.result_vec), Ok(Rat { num: 3, den: 1 }));
}

#[test]
fn unit_processing_reports_no_match() {
    let mut memo = UniquenessMemo::new();
    let mut schema = Schema::from_positions(vec![2]);
    schema.set_result_vec(operand_tokens(&[1, 2]));
    let (outcome, _) = check_and_evaluate(schema, &vec![Operator::Addition], &mut memo, 5);
    assert_eq!(outcome, UnitOutcome::NoMatch);
}

#[test]
fn assignment_generator_enumerates_cartesian_product() {
    let vocab = vec![Operator::Addition, Operator::Multiplication];
    let sets = generate_operations(&vocab, 2);
    assert_eq!(sets.len(), 4);
    for set in sets.iter() {
        assert_eq!(set.len(), 2);
        for o in set.iter() {
            assert!(vocab.contains(o));
        }
    }
    for i in 0..sets.len() {
        for j in (i + 1)..sets.len() {
            assert_ne!(sets[i], sets[j]);
        }
    }
}

#[test]
fn end_to_end_finds_six_from_one_two_three() {
    let schemes = generate_schemes(vec![1, 2, 3]);
    let vocabulary = vec![
        Operator::Addition,
        Operator::Multiplication,
        Operator::Concatenation,
    ];
    match generate_threads(schemes, vocabulary, 6) {
        SearchOutcome::Found(expr) => {
            assert_eq!(evaluate(&expr), Ok(Rat { num: 6, den: 1 }));
        }
        other => panic!("expected a witness, got {:?}", outcome_name(&other)),
    }
}

#[test]
fn end_to_end_reports_unreachable_target() {
    let schemes = generate_schemes(vec![1, 2]);
    match generate_threads(schemes, vec![Operator::Addition], 5) {
        SearchOutcome::Unreachable => {}
        other => panic!("expected exhaustion, got {:?}", outcome_name(&other)),
    }
}

#[test]
fn end_to_end_finds_concatenation_witness() {
    // 1 and 2 can only reach 12 through concatenation.
    let schemes = generate_schemes(vec![1, 2]);
    let vocabulary = vec![Operator::Addition, Operator::Concatenation];
    match generate_threads(schemes, vocabulary, 12) {
        SearchOutcome::Found(expr) => {
            assert_eq!(evaluate(&expr), Ok(Rat { num: 12, den: 1 }));
        }
        other => panic!("expected a witness, got {:?}", outcome_name(&other)),
    }
}

fn outcome_name(o: &SearchOutcome) -> &'static str {
    match o {
        SearchOutcome::Found(_) => "Found",
        SearchOutcome::Unreachable => "Unreachable",
        SearchOutcome::Aborted(_) => "Aborted",
    }
}

#[test]
fn config_exposes_vocabulary_and_number() {
    let basic = Config::new(42, Operations::Basic);
    assert_eq!(basic.get_number(), 42);
    assert_eq!(
        basic.get_operations(),
        vec![
            Operator::Concatenation,
            Operator::Addition,
            Operator::Multiplication,
            Operator::Substraction,
        ]
    );
    let all = Config::new(7, Operations::All);
    assert_eq!(
        all.get_operations(),
        vec![
            Operator::Concatenation,
            Operator::Addition,
            Operator::Multiplication,
            Operator::Substraction,
            Operator::Power,
            Operator::Division,
        ]
    );
}

#[test]
fn operand_sequences_are_as_named() {
    assert_eq!(
        Config::generate_operands(Operands::_DigitsAscending),
        vec![1, 2, 3, 4, 5, 6, 7, 8, 9]
    );
    assert_eq!(
        Config::generate_operands(Operands::_DigitsDescending),
        vec![9, 8, 7, 6, 5, 4, 3, 2, 1]
    );
    assert_eq!(Config::generate_operands(Operands::_OneToThree), vec![1, 2, 3]);
    assert_eq!(Config::generate_operands(Operands::_OneToTwo), vec![1, 2]);
    assert_eq!(
        Config::generate_operands(Operands::_OneToSix),
        vec![1, 2, 3, 4, 5, 6]
    );
}

#[test]
fn string_result_renders_tokens_with_spaces() {
    let mut schema = Schema::from_positions(vec![2]);
    schema.set_result_vec(operand_tokens(&[1, 2]));
    assert!(schema.insert_operator(Operator::Addition));
    assert_eq!(schema.get_string_result(), "1 2 + ");
}
