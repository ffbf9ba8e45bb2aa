//! Run configuration: the target number, the operator vocabulary in scope,
//! and the fixed operand sequences a search can run over.
use vstd::prelude::*;
use crate::rpn_evaluator::Operator;

verus! {

/// The built-in operand sequences.
#[derive(Clone, Copy, Debug)]
pub enum Operands {
    _DigitsAscending,
    _DigitsDescending,
    _OneToThree,
    _OneToTwo,
    _OneToSix,
}

/// Which operator vocabulary is in scope: the basic set, or the basic set
/// extended with power and division.
#[derive(Clone, Copy, Debug)]
pub enum Operations {
    All,
    Basic,
}

/// A validated run configuration.
#[derive(Clone, Copy, Debug)]
pub struct Config {
    number: u64,
    bin_operations: Operations,
}

/// The operator vocabulary of a configuration.
pub open spec fn operations_for(kind: Operations) -> Seq<Operator> {
    match kind {
        Operations::Basic => seq![
            Operator::Concatenation,
            Operator::Addition,
            Operator::Multiplication,
            Operator::Substraction,
        ],
        Operations::All => seq![
            Operator::Concatenation,
            Operator::Addition,
            Operator::Multiplication,
            Operator::Substraction,
            Operator::Power,
            Operator::Division,
        ],
    }
}

/// The operand sequence of each built-in choice.
pub open spec fn operands_for(kind: Operands) -> Seq<u64> {
    match kind {
        Operands::_DigitsAscending => Seq::new(9, |i: int| (i + 1) as u64),
        Operands::_DigitsDescending => Seq::new(9, |i: int| (9 - i) as u64),
        Operands::_OneToThree => Seq::new(3, |i: int| (i + 1) as u64),
        Operands::_OneToTwo => Seq::new(2, |i: int| (i + 1) as u64),
        Operands::_OneToSix => Seq::new(6, |i: int| (i + 1) as u64),
    }
}

impl Config {
    /// The configured target number.
    pub closed spec fn spec_number(self) -> u64 {
        self.number
    }

    /// The configured vocabulary choice.
    pub closed spec fn spec_operations(self) -> Operations {
        self.bin_operations
    }

    /// A configuration from already-validated values.
    pub fn new(number: u64, bin_operations: Operations) -> (c: Config)
        ensures
            c.spec_number() == number,
            c.spec_operations() == bin_operations,
    {
        Config { number, bin_operations }
    }

    /// The operator vocabulary in scope for this run.
    pub fn get_operations(&self) -> (r: Vec<Operator>)
        ensures
            r@ == operations_for(self.spec_operations()),
    {
        let mut ops: Vec<Operator> = Vec::new();
        ops.push(Operator::Concatenation);
        ops.push(Operator::Addition);
        ops.push(Operator::Multiplication);
        ops.push(Operator::Substraction);
        match self.bin_operations {
            Operations::All => {
                ops.push(Operator::Power);
                ops.push(Operator::Division);
            },
            Operations::Basic => {},
        }
        proof {
            assert(ops@ =~= operations_for(self.spec_operations()));
        }
        ops
    }

    /// The target number.
    pub fn get_number(&self) -> (r: u64)
        ensures
            r == self.spec_number(),
    {
        self.number
    }

    /// One of the built-in operand sequences.
    pub fn generate_operands(kind: Operands) -> (r: Vec<u64>)
        ensures
            r@ == operands_for(kind),
    {
        let count: u64 = match kind {
            Operands::_DigitsAscending => 9,
            Operands::_DigitsDescending => 9,
            Operands::_OneToThree => 3,
            Operands::_OneToTwo => 2,
            Operands::_OneToSix => 6,
        };
        let descending = match kind {
            Operands::_DigitsDescending => true,
            _ => false,
        };
        let mut r: Vec<u64> = Vec::new();
        let mut i: u64 = 0;
        while i < count
            invariant
                i <= count,
                count <= 9,
                r@.len() == i,
                forall|j: int|
                    0 <= j < i ==> #[trigger] r@[j] == (if descending {
                        (count - j) as u64
                    } else {
                        (j + 1) as u64
                    }),
            decreases count - i,
        {
            if descending {
                r.push(count - i);
            } else {
                r.push(i + 1);
            }
            i = i + 1;
        }
        proof {
            assert(r@ =~= operands_for(kind));
        }
        r
    }
}

} // verus!
