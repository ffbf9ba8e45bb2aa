//! Tokens of a postfix expression and the stack-machine evaluator.
use vstd::prelude::*;
use crate::rational::{apply_operator, apply_operator_spec, Rat};

verus! {

/// A binary operator of the expression language.
#[derive(Clone, Copy, PartialEq, Eq, Structural, Debug)]
pub enum Operator {
    Addition,
    Substraction,
    Multiplication,
    Division,
    Concatenation,
    Power,
}

/// One token of a postfix expression: a numeric literal or an operator.
#[derive(Clone, Copy, PartialEq, Eq, Structural, Debug)]
pub enum OperationElt {
    Operator(Operator),
    Operand(u64),
}

/// Classified failure of evaluating one candidate expression.  None of
/// these is fatal to a search: each merely marks one branch as invalid.
#[derive(Clone, Copy, PartialEq, Eq, Structural, Debug)]
pub enum EvalError {
    /// A literal token does not denote a representable non-negative integer.
    ParseError,
    /// An operator arrived while fewer than two values were on the stack.
    InsufficientOperands,
    /// More than one value remained after all tokens were consumed.
    MissingOperator,
    /// A quotient or power fell outside the configured bounds, or a result
    /// fell outside the representable range.
    ArithmeticOutOfRange,
    /// Concatenation was applied to values without joinable decimal forms.
    ConcatenationInvalid,
}

/// Effect of one token on the evaluation stack.
pub open spec fn eval_step_spec(stack: Seq<Rat>, t: OperationElt) -> Result<Seq<Rat>, EvalError> {
    match t {
        OperationElt::Operand(v) => if v <= i64::MAX {
            Ok(stack.push(Rat { num: v as i64, den: 1 }))
        } else {
            Err(EvalError::ParseError)
        },
        OperationElt::Operator(op) => if stack.len() < 2 {
            Err(EvalError::InsufficientOperands)
        } else {
            match apply_operator_spec(op, stack[stack.len() - 2], stack[stack.len() - 1]) {
                Ok(r) => Ok(stack.drop_last().drop_last().push(r)),
                Err(e) => Err(e),
            }
        },
    }
}

/// Effect of a token sequence on the evaluation stack, left to right.
pub open spec fn eval_seq_spec(stack: Seq<Rat>, tokens: Seq<OperationElt>) -> Result<
    Seq<Rat>,
    EvalError,
>
    decreases tokens.len(),
{
    if tokens.len() == 0 {
        Ok(stack)
    } else {
        match eval_step_spec(stack, tokens[0]) {
            Ok(s2) => eval_seq_spec(s2, tokens.subrange(1, tokens.len() as int)),
            Err(e) => Err(e),
        }
    }
}

/// The exact value of a postfix expression: run every token against an
/// empty stack; exactly one value must remain.
pub open spec fn eval_spec(tokens: Seq<OperationElt>) -> Result<Rat, EvalError> {
    match eval_seq_spec(Seq::empty(), tokens) {
        Ok(s) => if s.len() == 1 {
            Ok(s[0])
        } else {
            Err(EvalError::MissingOperator)
        },
        Err(e) => Err(e),
    }
}

/// Running one more token equals running the prefix, then that token.
proof fn lemma_eval_seq_snoc(stack: Seq<Rat>, tokens: Seq<OperationElt>, t: OperationElt)
    ensures
        eval_seq_spec(stack, tokens.push(t)) == (match eval_seq_spec(stack, tokens) {
            Ok(s) => eval_step_spec(s, t),
            Err(e) => Err(e),
        }),
    decreases tokens.len(),
{
    if tokens.len() == 0 {
        assert(tokens.push(t)[0] == t);
        assert(tokens.push(t).subrange(1, 1) =~= Seq::<OperationElt>::empty());
        assert(eval_seq_spec(stack, tokens) == Ok::<Seq<Rat>, EvalError>(stack));
        match eval_step_spec(stack, t) {
            Ok(s2) => {
                assert(eval_seq_spec(s2, tokens.push(t).subrange(1, 1)) == Ok::<
                    Seq<Rat>,
                    EvalError,
                >(s2));
            },
            Err(e) => {},
        }
    } else {
        assert(tokens.push(t)[0] == tokens[0]);
        assert(tokens.push(t).subrange(1, tokens.len() as int + 1) =~= tokens.subrange(
            1,
            tokens.len() as int,
        ).push(t));
        match eval_step_spec(stack, tokens[0]) {
            Ok(s2) => {
                lemma_eval_seq_snoc(s2, tokens.subrange(1, tokens.len() as int), t);
            },
            Err(e) => {},
        }
    }
}

/// A failure on a prefix is the failure of the whole sequence.
proof fn lemma_eval_prefix_err(tokens: Seq<OperationElt>, i: int)
    requires
        0 <= i <= tokens.len(),
        eval_seq_spec(Seq::empty(), tokens.subrange(0, i)).is_err(),
    ensures
        eval_seq_spec(Seq::empty(), tokens) == eval_seq_spec(Seq::empty(), tokens.subrange(0, i)),
    decreases tokens.len() - i,
{
    if i == tokens.len() {
        assert(tokens.subrange(0, i) =~= tokens);
    } else {
        lemma_eval_seq_snoc(Seq::empty(), tokens.subrange(0, i), tokens[i]);
        assert(tokens.subrange(0, i).push(tokens[i]) =~= tokens.subrange(0, i + 1));
        lemma_eval_prefix_err(tokens, i + 1);
    }
}

/// Evaluate a postfix expression with a left-to-right stack machine,
/// returning its exact value or the classified failure.
pub fn evaluate(tokens: &Vec<OperationElt>) -> (r: Result<Rat, EvalError>)
    ensures
        r == eval_spec(tokens@),
{
    let ghost tseq = tokens@;
    let mut stack: Vec<Rat> = Vec::new();
    let mut idx: usize = 0;
    proof {
        assert(tseq.subrange(0, 0) =~= Seq::<OperationElt>::empty());
    }
    while idx < tokens.len()
        invariant
            idx <= tokens.len(),
            tseq == tokens@,
            eval_seq_spec(Seq::empty(), tseq.subrange(0, idx as int)) == Ok::<
                Seq<Rat>,
                EvalError,
            >(stack@),
            forall|i: int| 0 <= i < stack@.len() ==> #[trigger] stack@[i].den >= 1,
        decreases tokens.len() - idx,
    {
        let t = tokens[idx];
        proof {
            lemma_eval_seq_snoc(Seq::empty(), tseq.subrange(0, idx as int), t);
            assert(tseq.subrange(0, idx as int).push(t) =~= tseq.subrange(0, idx as int + 1));
        }
        match t {
            OperationElt::Operand(v) => {
                if v > i64::MAX as u64 {
                    proof {
                        lemma_eval_prefix_err(tseq, idx as int + 1);
                    }
                    return Err(EvalError::ParseError);
                }
                stack.push(Rat::from_int(v as i64));
            },
            OperationElt::Operator(op) => {
                if stack.len() < 2 {
                    proof {
                        lemma_eval_prefix_err(tseq, idx as int + 1);
                    }
                    return Err(EvalError::InsufficientOperands);
                }
                let b = stack.pop().unwrap();
                let a = stack.pop().unwrap();
                match apply_operator(op, a, b) {
                    Ok(res) => {
                        proof {
                            crate::rational::lemma_apply_den_pos(op, a, b);
                        }
                        stack.push(res);
                    },
                    Err(e) => {
                        proof {
                            lemma_eval_prefix_err(tseq, idx as int + 1);
                        }
                        return Err(e);
                    },
                }
            },
        }
        idx = idx + 1;
    }
    proof {
        assert(tseq.subrange(0, tokens.len() as int) =~= tseq);
    }
    if stack.len() == 1 {
        let v = stack.pop().unwrap();
        Ok(v)
    } else {
        Err(EvalError::MissingOperator)
    }
}

/// The character of a decimal digit.
pub open spec fn digit_char(d: nat) -> char {
    if d == 0 {
        '0'
    } else if d == 1 {
        '1'
    } else if d == 2 {
        '2'
    } else if d == 3 {
        '3'
    } else if d == 4 {
        '4'
    } else if d == 5 {
        '5'
    } else if d == 6 {
        '6'
    } else if d == 7 {
        '7'
    } else if d == 8 {
        '8'
    } else {
        '9'
    }
}

/// The decimal form of a number, most significant digit first.
pub open spec fn dec_digits(n: nat) -> Seq<char>
    decreases n,
{
    if n < 10 {
        seq![digit_char(n)]
    } else {
        dec_digits(n / 10).push(digit_char(n % 10))
    }
}

/// The symbol of an operator.
pub open spec fn op_char(op: Operator) -> char {
    match op {
        Operator::Addition => '+',
        Operator::Substraction => '-',
        Operator::Multiplication => '*',
        Operator::Division => '/',
        Operator::Concatenation => '_',
        Operator::Power => '^',
    }
}

/// The text of one token.
pub open spec fn token_chars(t: OperationElt) -> Seq<char> {
    match t {
        OperationElt::Operand(v) => dec_digits(v as nat),
        OperationElt::Operator(op) => seq![op_char(op)],
    }
}

/// The text of a token sequence: each token followed by one space.
pub open spec fn render_tokens(s: Seq<OperationElt>) -> Seq<char>
    decreases s.len(),
{
    if s.len() == 0 {
        Seq::empty()
    } else {
        token_chars(s[0]) + seq![' '] + render_tokens(s.drop_first())
    }
}

/// Rendering one more token appends its text and a space.
proof fn lemma_render_snoc(s: Seq<OperationElt>, t: OperationElt)
    ensures
        render_tokens(s.push(t)) == render_tokens(s) + token_chars(t) + seq![' '],
    decreases s.len(),
{
    if s.len() == 0 {
        assert(s.push(t)[0] == t);
        assert(s.push(t).drop_first() =~= Seq::<OperationElt>::empty());
        assert(render_tokens(Seq::<OperationElt>::empty()) == Seq::<char>::empty());
        assert(render_tokens(s.push(t)) == token_chars(t) + seq![' '] + render_tokens(
            s.push(t).drop_first(),
        ));
        assert(render_tokens(s.push(t)) =~= render_tokens(s) + token_chars(t) + seq![' ']);
    } else {
        assert(s.push(t)[0] == s[0]);
        assert(s.push(t).drop_first() =~= s.drop_first().push(t));
        lemma_render_snoc(s.drop_first(), t);
        assert(render_tokens(s.push(t)) == token_chars(s[0]) + seq![' '] + render_tokens(
            s.drop_first().push(t),
        ));
        assert(render_tokens(s.push(t)) =~= render_tokens(s) + token_chars(t) + seq![' ']);
    }
}

/// The text of one decimal digit.
fn digit_str(d: u64) -> (s: &'static str)
    requires
        d < 10,
    ensures
        s@ == seq![digit_char(d as nat)],
{
    proof {
        reveal_strlit("0");
        reveal_strlit("1");
        reveal_strlit("2");
        reveal_strlit("3");
        reveal_strlit("4");
        reveal_strlit("5");
        reveal_strlit("6");
        reveal_strlit("7");
        reveal_strlit("8");
        reveal_strlit("9");
    }
    let s = match d {
        0 => "0",
        1 => "1",
        2 => "2",
        3 => "3",
        4 => "4",
        5 => "5",
        6 => "6",
        7 => "7",
        8 => "8",
        _ => "9",
    };
    proof {
        assert(s@ =~= seq![digit_char(d as nat)]);
    }
    s
}

/// The decimal text of a number.
pub fn u64_to_string(v: u64) -> (s: String)
    ensures
        s@ == dec_digits(v as nat),
    decreases v,
{
    if v < 10 {
        let mut s = String::new();
        s.append(digit_str(v));
        proof {
            assert(s@ =~= dec_digits(v as nat));
        }
        s
    } else {
        let mut s = u64_to_string(v / 10);
        s.append(digit_str(v % 10));
        proof {
            assert(s@ =~= dec_digits(v as nat));
        }
        s
    }
}

/// The symbol of an operator, as text.
fn operator_str(op: Operator) -> (s: &'static str)
    ensures
        s@ == seq![op_char(op)],
{
    proof {
        reveal_strlit("+");
        reveal_strlit("-");
        reveal_strlit("*");
        reveal_strlit("/");
        reveal_strlit("_");
        reveal_strlit("^");
    }
    let s = match op {
        Operator::Addition => "+",
        Operator::Substraction => "-",
        Operator::Multiplication => "*",
        Operator::Division => "/",
        Operator::Concatenation => "_",
        Operator::Power => "^",
    };
    proof {
        assert(s@ =~= seq![op_char(op)]);
    }
    s
}

/// Render a token sequence as text, each token followed by one space.
pub fn render_expression(tokens: &Vec<OperationElt>) -> (s: String)
    ensures
        s@ == render_tokens(tokens@),
{
    proof {
        reveal_strlit(" ");
    }
    let mut s = String::new();
    let mut i: usize = 0;
    proof {
        assert(tokens@.subrange(0, 0) =~= Seq::<OperationElt>::empty());
    }
    while i < tokens.len()
        invariant
            i <= tokens@.len(),
            s@ == render_tokens(tokens@.subrange(0, i as int)),
        decreases tokens@.len() - i,
    {
        proof {
            reveal_strlit(" ");
            lemma_render_snoc(tokens@.subrange(0, i as int), tokens@[i as int]);
            assert(tokens@.subrange(0, i as int).push(tokens@[i as int]) =~= tokens@.subrange(
                0,
                i as int + 1,
            ));
        }
        match &tokens[i] {
            OperationElt::Operand(v) => {
                let d = u64_to_string(*v);
                s.append(d.as_str());
            },
            OperationElt::Operator(op) => {
                s.append(operator_str(*op));
            },
        }
        s.append(" ");
        proof {
            assert(" "@ =~= seq![' ']);
            assert(s@ =~= render_tokens(tokens@.subrange(0, i as int + 1)));
        }
        i = i + 1;
    }
    proof {
        assert(tokens@.subrange(0, tokens@.len() as int) =~= tokens@);
    }
    s
}

/// Every value a successful evaluation produces is well-formed: in lowest
/// terms, with a positive denominator.
pub proof fn lemma_eval_wf(tokens: Seq<OperationElt>)
    ensures
        eval_spec(tokens) matches Ok(v) ==> v.wf(),
{
    lemma_eval_seq_wf(Seq::empty(), tokens);
}

proof fn lemma_eval_seq_wf(stack: Seq<Rat>, tokens: Seq<OperationElt>)
    requires
        forall|i: int| 0 <= i < stack.len() ==> (#[trigger] stack[i]).wf(),
    ensures
        eval_seq_spec(stack, tokens) matches Ok(s) ==> forall|i: int|
            0 <= i < s.len() ==> (#[trigger] s[i]).wf(),
    decreases tokens.len(),
{
    if tokens.len() == 0 {
    } else {
        match eval_step_spec(stack, tokens[0]) {
            Ok(s2) => {
                assert forall|i: int| 0 <= i < s2.len() implies (#[trigger] s2[i]).wf() by {
                    match tokens[0] {
                        OperationElt::Operand(v) => {
                            crate::rational::lemma_gcd_one_right(
                                crate::rational::iabs(v as int),
                            );
                        },
                        OperationElt::Operator(op) => {
                            crate::rational::lemma_apply_wf(
                                op,
                                stack[stack.len() - 2],
                                stack[stack.len() - 1],
                            );
                        },
                    }
                }
                lemma_eval_seq_wf(s2, tokens.subrange(1, tokens.len() as int));
            },
            Err(_) => {},
        }
    }
}

/// Precedence of an operator in infix rendering; concatenation binds
/// tightest, a bare literal has the highest rank of all.
pub open spec fn op_priority(op: Operator) -> int {
    match op {
        Operator::Addition => 1,
        Operator::Substraction => 1,
        Operator::Multiplication => 2,
        Operator::Division => 2,
        Operator::Power => 3,
        Operator::Concatenation => 4,
    }
}

/// A text wrapped in parentheses.
pub open spec fn parend(s: Seq<char>) -> Seq<char> {
    seq!['('] + s + seq![')']
}

/// Combine two rendered operands under one operator, wrapping an operand
/// whose last-applied operator binds more loosely than this one (for the
/// right operand of a subtraction: at most as tightly).
pub open spec fn infix_apply(op: Operator, a: (Seq<char>, int), b: (Seq<char>, int)) -> (
    Seq<char>,
    int,
) {
    match op {
        Operator::Addition => (a.0 + seq![' ', '+', ' '] + b.0, 1),
        Operator::Substraction => (
            a.0 + seq![' ', '-', ' '] + (if b.1 <= 1 {
                parend(b.0)
            } else {
                b.0
            }),
            1,
        ),
        Operator::Multiplication => (
            (if a.1 < 2 {
                parend(a.0)
            } else {
                a.0
            }) + seq![' ', '*', ' '] + (if b.1 < 2 {
                parend(b.0)
            } else {
                b.0
            }),
            2,
        ),
        Operator::Division => (
            (if a.1 <= 2 {
                parend(a.0)
            } else {
                a.0
            }) + seq![' ', '/', ' '] + (if b.1 <= 2 {
                parend(b.0)
            } else {
                b.0
            }),
            2,
        ),
        Operator::Power => (
            (if a.1 < 3 {
                parend(a.0)
            } else {
                a.0
            }) + seq![' ', '^', ' '] + (if b.1 < 3 {
                parend(b.0)
            } else {
                b.0
            }),
            3,
        ),
        Operator::Concatenation => (
            (if a.1 < 4 {
                parend(a.0)
            } else {
                a.0
            }) + (if b.1 < 4 {
                parend(b.0)
            } else {
                b.0
            }),
            4,
        ),
    }
}

/// Effect of one token on the infix-rendering stack.
pub open spec fn infix_step_spec(stack: Seq<(Seq<char>, int)>, t: OperationElt) -> Result<
    Seq<(Seq<char>, int)>,
    EvalError,
> {
    match t {
        OperationElt::Operand(v) => Ok(stack.push((dec_digits(v as nat), 127))),
        OperationElt::Operator(op) => if stack.len() < 2 {
            Err(EvalError::InsufficientOperands)
        } else {
            Ok(
                stack.drop_last().drop_last().push(
                    infix_apply(op, stack[stack.len() - 2], stack[stack.len() - 1]),
                ),
            )
        },
    }
}

/// Effect of a token sequence on the infix-rendering stack.
pub open spec fn infix_seq_spec(stack: Seq<(Seq<char>, int)>, tokens: Seq<OperationElt>) -> Result<
    Seq<(Seq<char>, int)>,
    EvalError,
>
    decreases tokens.len(),
{
    if tokens.len() == 0 {
        Ok(stack)
    } else {
        match infix_step_spec(stack, tokens[0]) {
            Ok(s2) => infix_seq_spec(s2, tokens.subrange(1, tokens.len() as int)),
            Err(e) => Err(e),
        }
    }
}

/// The minimally parenthesized left-to-right infix text of an evaluable
/// postfix expression; an expression that does not evaluate reports its
/// evaluation failure instead.
pub open spec fn infix_spec(tokens: Seq<OperationElt>) -> Result<Seq<char>, EvalError> {
    match eval_spec(tokens) {
        Err(e) => Err(e),
        Ok(_) => match infix_seq_spec(Seq::empty(), tokens) {
            Ok(s) => if s.len() == 1 {
                Ok(s[0].0)
            } else {
                Err(EvalError::MissingOperator)
            },
            Err(e) => Err(e),
        },
    }
}

/// Running one more token equals running the prefix, then that token.
proof fn lemma_infix_seq_snoc(stack: Seq<(Seq<char>, int)>, tokens: Seq<OperationElt>, t: OperationElt)
    ensures
        infix_seq_spec(stack, tokens.push(t)) == (match infix_seq_spec(stack, tokens) {
            Ok(s) => infix_step_spec(s, t),
            Err(e) => Err(e),
        }),
    decreases tokens.len(),
{
    if tokens.len() == 0 {
        assert(tokens.push(t)[0] == t);
        assert(tokens.push(t).subrange(1, 1) =~= Seq::<OperationElt>::empty());
        assert(infix_seq_spec(stack, tokens) == Ok::<Seq<(Seq<char>, int)>, EvalError>(stack));
        match infix_step_spec(stack, t) {
            Ok(s2) => {
                assert(infix_seq_spec(s2, tokens.push(t).subrange(1, 1)) == Ok::<
                    Seq<(Seq<char>, int)>,
                    EvalError,
                >(s2));
            },
            Err(e) => {},
        }
    } else {
        assert(tokens.push(t)[0] == tokens[0]);
        assert(tokens.push(t).subrange(1, tokens.len() as int + 1) =~= tokens.subrange(
            1,
            tokens.len() as int,
        ).push(t));
        match infix_step_spec(stack, tokens[0]) {
            Ok(s2) => {
                lemma_infix_seq_snoc(s2, tokens.subrange(1, tokens.len() as int), t);
            },
            Err(e) => {},
        }
    }
}

/// The rendered texts and priorities held by an executable stack.
pub open spec fn infix_views(s: Seq<(String, u8)>) -> Seq<(Seq<char>, int)> {
    s.map_values(|e: (String, u8)| (e.0@, e.1 as int))
}

/// A text wrapped in parentheses.
fn wrap_paren(s: String) -> (r: String)
    ensures
        r@ == parend(s@),
{
    proof {
        reveal_strlit("(");
        reveal_strlit(")");
    }
    let mut r = String::from_str("(");
    r.append(s.as_str());
    r.append(")");
    proof {
        assert(r@ =~= parend(s@));
    }
    r
}

/// Combine two rendered operands under one operator.
fn apply_infix(op: Operator, a: (String, u8), b: (String, u8)) -> (r: (String, u8))
    ensures
        (r.0@, r.1 as int) == infix_apply(op, (a.0@, a.1 as int), (b.0@, b.1 as int)),
{
    proof {
        reveal_strlit(" + ");
        reveal_strlit(" - ");
        reveal_strlit(" * ");
        reveal_strlit(" / ");
        reveal_strlit(" ^ ");
        assert(" + "@ =~= seq![' ', '+', ' ']);
        assert(" - "@ =~= seq![' ', '-', ' ']);
        assert(" * "@ =~= seq![' ', '*', ' ']);
        assert(" / "@ =~= seq![' ', '/', ' ']);
        assert(" ^ "@ =~= seq![' ', '^', ' ']);
    }
    let ghost ga = (a.0@, a.1 as int);
    let ghost gb = (b.0@, b.1 as int);
    let (a_text, a_prio) = a;
    let (b_text, b_prio) = b;
    let r: (String, u8) = match op {
        Operator::Addition => (a_text.concat(" + ").concat(b_text.as_str()), 1),
        Operator::Substraction => {
            let rhs = if b_prio <= 1 {
                wrap_paren(b_text)
            } else {
                b_text
            };
            (a_text.concat(" - ").concat(rhs.as_str()), 1)
        },
        Operator::Multiplication => {
            let lhs = if a_prio < 2 {
                wrap_paren(a_text)
            } else {
                a_text
            };
            let rhs = if b_prio < 2 {
                wrap_paren(b_text)
            } else {
                b_text
            };
            (lhs.concat(" * ").concat(rhs.as_str()), 2)
        },
        Operator::Division => {
            let lhs = if a_prio <= 2 {
                wrap_paren(a_text)
            } else {
                a_text
            };
            let rhs = if b_prio <= 2 {
                wrap_paren(b_text)
            } else {
                b_text
            };
            (lhs.concat(" / ").concat(rhs.as_str()), 2)
        },
        Operator::Power => {
            let lhs = if a_prio < 3 {
                wrap_paren(a_text)
            } else {
                a_text
            };
            let rhs = if b_prio < 3 {
                wrap_paren(b_text)
            } else {
                b_text
            };
            (lhs.concat(" ^ ").concat(rhs.as_str()), 3)
        },
        Operator::Concatenation => {
            let lhs = if a_prio < 4 {
                wrap_paren(a_text)
            } else {
                a_text
            };
            let rhs = if b_prio < 4 {
                wrap_paren(b_text)
            } else {
                b_text
            };
            (lhs.concat(rhs.as_str()), 4)
        },
    };
    proof {
        assert((r.0@, r.1 as int).0 =~= infix_apply(op, ga, gb).0);
    }
    r
}

/// A failure on a prefix is the failure of the whole sequence.
proof fn lemma_infix_prefix_err(tokens: Seq<OperationElt>, i: int)
    requires
        0 <= i <= tokens.len(),
        infix_seq_spec(Seq::empty(), tokens.subrange(0, i)).is_err(),
    ensures
        infix_seq_spec(Seq::empty(), tokens) == infix_seq_spec(
            Seq::empty(),
            tokens.subrange(0, i),
        ),
    decreases tokens.len() - i,
{
    if i == tokens.len() {
        assert(tokens.subrange(0, i) =~= tokens);
    } else {
        lemma_infix_seq_snoc(Seq::empty(), tokens.subrange(0, i), tokens[i]);
        assert(tokens.subrange(0, i).push(tokens[i]) =~= tokens.subrange(0, i + 1));
        lemma_infix_prefix_err(tokens, i + 1);
    }
}

/// Render an evaluable postfix expression as minimally parenthesized
/// left-to-right infix text, tracking each sub-result's producing-operator
/// precedence to decide whether to wrap an operand.
#[verifier::loop_isolation(false)]
pub fn to_infix(expr: &Vec<OperationElt>) -> (r: Result<String, EvalError>)
    ensures
        r matches Ok(s) ==> infix_spec(expr@) matches Ok(cs) && s@ == cs,
        r matches Err(e) ==> infix_spec(expr@) == Err::<Seq<char>, EvalError>(e),
{
    match evaluate(expr) {
        Err(e) => {
            return Err(e);
        },
        Ok(_) => {},
    }
    let mut stack: Vec<(String, u8)> = Vec::new();
    let mut idx: usize = 0;
    proof {
        assert(expr@.subrange(0, 0) =~= Seq::<OperationElt>::empty());
        assert(infix_views(stack@) =~= Seq::<(Seq<char>, int)>::empty());
    }
    while idx < expr.len()
        invariant
            idx <= expr@.len(),
            eval_spec(expr@) is Ok,
            infix_seq_spec(Seq::empty(), expr@.subrange(0, idx as int)) == Ok::<
                Seq<(Seq<char>, int)>,
                EvalError,
            >(infix_views(stack@)),
        decreases expr@.len() - idx,
    {
        let t = expr[idx];
        let ghost pre_stack = stack@;
        let ghost pre_views = infix_views(pre_stack);
        proof {
            lemma_infix_seq_snoc(Seq::empty(), expr@.subrange(0, idx as int), t);
            assert(expr@.subrange(0, idx as int).push(t) =~= expr@.subrange(0, idx as int + 1));
        }
        match t {
            OperationElt::Operand(v) => {
                let text = u64_to_string(v);
                let ghost tv = text@;
                stack.push((text, 127));
                proof {
                    assert(infix_views(stack@) =~= pre_views.push((tv, 127int)));
                }
            },
            OperationElt::Operator(op) => {
                if stack.len() < 2 {
                    proof {
                        lemma_infix_prefix_err(expr@, idx as int + 1);
                    }
                    return Err(EvalError::InsufficientOperands);
                }
                let b = stack.pop().unwrap();
                let a = stack.pop().unwrap();
                proof {
                    assert((a.0@, a.1 as int) == pre_views[pre_views.len() - 2]);
                    assert((b.0@, b.1 as int) == pre_views[pre_views.len() - 1]);
                }
                let combined = apply_infix(op, a, b);
                let ghost cv = (combined.0@, combined.1 as int);
                stack.push(combined);
                proof {
                    assert(infix_views(stack@) =~= pre_views.drop_last().drop_last().push(cv));
                }
            },
        }
        idx = idx + 1;
    }
    proof {
        assert(expr@.subrange(0, expr@.len() as int) =~= expr@);
    }
    if stack.len() == 1 {
        let e = stack.pop().unwrap();
        Ok(e.0)
    } else {
        Err(EvalError::MissingOperator)
    }
}

/// Whitespace that separates tokens.
pub open spec fn is_space(b: u8) -> bool {
    b == 32 || b == 9 || b == 10 || b == 13
}

/// An ASCII decimal digit.
pub open spec fn is_digit(b: u8) -> bool {
    48 <= b <= 57
}

/// The number denoted by a string of decimal digits.
pub open spec fn dec_val(w: Seq<u8>) -> int
    decreases w.len(),
{
    if w.len() == 0 {
        0
    } else {
        dec_val(w.drop_last()) * 10 + (w.last() - 48)
    }
}

/// Whether every byte of a word is a decimal digit.
pub open spec fn all_digits(w: Seq<u8>) -> bool {
    forall|i: int| 0 <= i < w.len() ==> is_digit(#[trigger] w[i])
}

/// The token denoted by one whitespace-separated word: an operator symbol,
/// or a representable unsigned decimal literal.
pub open spec fn parse_word(w: Seq<u8>) -> Option<OperationElt>
    recommends
        w.len() >= 1,
{
    if w.len() == 1 && w[0] == 43 {
        Some(OperationElt::Operator(Operator::Addition))
    } else if w.len() == 1 && w[0] == 45 {
        Some(OperationElt::Operator(Operator::Substraction))
    } else if w.len() == 1 && w[0] == 42 {
        Some(OperationElt::Operator(Operator::Multiplication))
    } else if w.len() == 1 && w[0] == 47 {
        Some(OperationElt::Operator(Operator::Division))
    } else if w.len() == 1 && w[0] == 95 {
        Some(OperationElt::Operator(Operator::Concatenation))
    } else if w.len() == 1 && w[0] == 94 {
        Some(OperationElt::Operator(Operator::Power))
    } else if all_digits(w) && dec_val(w) <= u64::MAX {
        Some(OperationElt::Operand(dec_val(w) as u64))
    } else {
        None::<OperationElt>
    }
}

/// Scanning state of the tokenizer: position `i`, the word read so far,
/// and the tokens already produced.
pub open spec fn tok_spec(bytes: Seq<u8>, i: int, word: Seq<u8>, acc: Seq<OperationElt>) -> Result<
    Seq<OperationElt>,
    EvalError,
>
    decreases bytes.len() - i,
    when 0 <= i <= bytes.len()
{
    if i == bytes.len() {
        if word.len() == 0 {
            Ok(acc)
        } else {
            match parse_word(word) {
                Some(t) => Ok(acc.push(t)),
                None => Err(EvalError::ParseError),
            }
        }
    } else if is_space(bytes[i]) {
        if word.len() == 0 {
            tok_spec(bytes, i + 1, Seq::empty(), acc)
        } else {
            match parse_word(word) {
                Some(t) => tok_spec(bytes, i + 1, Seq::empty(), acc.push(t)),
                None => Err(EvalError::ParseError),
            }
        }
    } else {
        tok_spec(bytes, i + 1, word.push(bytes[i]), acc)
    }
}

/// The tokens of a whitespace-separated expression text, or a parse
/// failure on the first word that is neither an operator symbol nor a
/// representable unsigned decimal literal.
pub open spec fn tokenizer_spec(bytes: Seq<u8>) -> Result<Seq<OperationElt>, EvalError> {
    tok_spec(bytes, 0, Seq::empty(), Seq::empty())
}

/// A digit string that already exceeds the bound keeps exceeding it as
/// more digits follow.
proof fn lemma_dec_val_grows(w: Seq<u8>, j: int)
    requires
        0 <= j < w.len(),
        dec_val(w.subrange(0, j)) > u64::MAX,
    ensures
        dec_val(w) > u64::MAX,
    decreases w.len() - j,
{
    let p = w.subrange(0, j);
    let q = w.subrange(0, j + 1);
    assert(q.drop_last() =~= p);
    assert(dec_val(q) == dec_val(p) * 10 + (q.last() - 48));
    assert(dec_val(p) * 10 >= dec_val(p)) by (nonlinear_arith)
        requires
            dec_val(p) >= 0,
    ;
    if j + 1 == w.len() {
        assert(q =~= w);
    } else {
        lemma_dec_val_grows(w, j + 1);
    }
}

/// The token of one word.
#[verifier::loop_isolation(false)]
fn parse_word_exec(w: &Vec<u8>) -> (r: Option<OperationElt>)
    requires
        w@.len() >= 1,
    ensures
        r == parse_word(w@),
{
    if w.len() == 1 {
        let b = w[0];
        if b == 43 {
            return Some(OperationElt::Operator(Operator::Addition));
        }
        if b == 45 {
            return Some(OperationElt::Operator(Operator::Substraction));
        }
        if b == 42 {
            return Some(OperationElt::Operator(Operator::Multiplication));
        }
        if b == 47 {
            return Some(OperationElt::Operator(Operator::Division));
        }
        if b == 95 {
            return Some(OperationElt::Operator(Operator::Concatenation));
        }
        if b == 94 {
            return Some(OperationElt::Operator(Operator::Power));
        }
    }
    let mut val: u64 = 0;
    let mut j: usize = 0;
    proof {
        assert(w@.subrange(0, 0) =~= Seq::<u8>::empty());
    }
    while j < w.len()
        invariant
            j <= w@.len(),
            all_digits(w@.subrange(0, j as int)),
            val == dec_val(w@.subrange(0, j as int)),
        decreases w@.len() - j,
    {
        let b = w[j];
        proof {
            assert(w@.subrange(0, j as int + 1).drop_last() =~= w@.subrange(0, j as int));
            assert(w@.subrange(0, j as int + 1).last() == w@[j as int]);
        }
        if b < 48 || b > 57 {
            proof {
                assert(!all_digits(w@));
            }
            return None;
        }
        let d = (b - 48) as u64;
        // u64::MAX is 10 * 1844674407370955161 + 5.
        let limit: u64 = 1844674407370955161;
        if val > limit || (val == limit && d > 5) {
            proof {
                assert(dec_val(w@.subrange(0, j as int + 1)) == val * 10 + d);
                if j as int + 1 < w@.len() {
                    lemma_dec_val_grows(w@, j as int + 1);
                } else {
                    assert(w@.subrange(0, j as int + 1) =~= w@);
                }
            }
            return None;
        }
        val = val * 10 + d;
        j = j + 1;
    }
    proof {
        assert(w@.subrange(0, w@.len() as int) =~= w@);
    }
    Some(OperationElt::Operand(val))
}

/// Split an expression text on whitespace and parse each word as a token.
#[verifier::loop_isolation(false)]
pub fn tokenizer(expr: &[u8]) -> (r: Result<Vec<OperationElt>, EvalError>)
    ensures
        r matches Ok(v) ==> tokenizer_spec(expr@) matches Ok(s) && v@ == s,
        r matches Err(e) ==> tokenizer_spec(expr@) == Err::<Seq<OperationElt>, EvalError>(e),
{
    let ghost total = tokenizer_spec(expr@);
    let mut results: Vec<OperationElt> = Vec::new();
    let mut word: Vec<u8> = Vec::new();
    let mut i: usize = 0;
    while i < expr.len()
        invariant
            i <= expr@.len(),
            tok_spec(expr@, i as int, word@, results@) == total,
        decreases expr@.len() - i,
    {
        let b = expr[i];
        if b == 32 || b == 9 || b == 10 || b == 13 {
            proof {
                if word@.len() == 0 {
                    assert(word@ =~= Seq::<u8>::empty());
                }
            }
            if word.len() > 0 {
                match parse_word_exec(&word) {
                    Some(t) => {
                        results.push(t);
                        word = Vec::new();
                    },
                    None => {
                        return Err(EvalError::ParseError);
                    },
                }
            }
        } else {
            word.push(b);
        }
        i = i + 1;
    }
    if word.len() > 0 {
        match parse_word_exec(&word) {
            Some(t) => {
                results.push(t);
            },
            None => {
                return Err(EvalError::ParseError);
            },
        }
    }
    Ok(results)
}

} // verus!
