//! The search scheduler: the operator-assignment generator, the concurrent
//! uniqueness memo, the processing of one (skeleton, assignment) unit, and
//! the driver that crosses every skeleton with every assignment until a
//! witness is found or the product is exhausted.
use vstd::prelude::*;
use crate::rational::Rat;
use crate::rpn_evaluator::{eval_spec, evaluate, EvalError, OperationElt, Operator};
use crate::schemes_lib::{
    model_insert, model_insert_allowed, Schema, SchemaModel,
};

verus! {

/// A canonical partial-result key: numerator, denominator and the number
/// of operators consumed when the partial value was computed.
pub type MemoKey = (int, int, int);

/// The concurrent set of canonical partial-result keys.  It only grows;
/// membership test and insertion are one atomic step.
#[verifier::external_body]
pub struct UniquenessMemo {
    inner: dashmap::DashMap<String, bool>,
}

/// The set of keys recorded in a memo.
pub uninterp spec fn memo_contents(m: UniquenessMemo) -> Set<MemoKey>;

impl UniquenessMemo {
    /// Relies on dashmap::DashMap::new: a fresh map holds no key.
    #[verifier::external_body]
    pub fn new() -> (m: UniquenessMemo)
        ensures
            memo_contents(m) == Set::<MemoKey>::empty(),
    {
        UniquenessMemo { inner: dashmap::DashMap::new() }
    }

    /// Record a key; report whether it was unseen.  Relies on
    /// dashmap::DashMap::insert, which stores the key and returns the
    /// previous value for it in one atomic call, so no two callers are
    /// both told that the same key was unseen.  Distinct triples give
    /// distinct rendered keys, since the three numbers are separated.
    #[verifier::external_body]
    pub fn test_and_insert(&mut self, num: i64, den: u32, used: usize) -> (fresh: bool)
        ensures
            fresh == !memo_contents(*old(self)).contains(
                (num as int, den as int, used as int),
            ),
            memo_contents(*final(self)) == memo_contents(*old(self)).insert(
                (num as int, den as int, used as int),
            ),
    {
        let key = format!("{} {} {}", num, den, used);
        self.inner.insert(key, true).is_none()
    }
}

/// The memo keys are canonical: any two evaluations that reach the same
/// rational value reach the very same fraction, so the same key.
pub proof fn lemma_memo_keys_canonical(t1: Seq<OperationElt>, t2: Seq<OperationElt>)
    ensures
        (eval_spec(t1) matches Ok(v1) && eval_spec(t2) matches Ok(v2) && (v1.num as int) * (
        v2.den as int) == (v2.num as int) * (v1.den as int)) ==> eval_spec(t1) == eval_spec(t2),
{
    crate::rpn_evaluator::lemma_eval_wf(t1);
    crate::rpn_evaluator::lemma_eval_wf(t2);
    match (eval_spec(t1), eval_spec(t2)) {
        (Ok(v1), Ok(v2)) => {
            if (v1.num as int) * (v2.den as int) == (v2.num as int) * (v1.den as int) {
                crate::rational::lemma_wf_value_unique(v1, v2);
            }
        },
        _ => {},
    }
}

/// The uniqueness check at a self-similarity checkpoint: when the most
/// recently filled position equals twice the number of consumed slots, the
/// tokens so far form a closed sub-expression; if it evaluates, its key is
/// recorded, and a repeated key marks the branch as redundant.  A partial
/// expression that does not evaluate is conservatively kept.
pub open spec fn check_uniqueness_spec(m: SchemaModel, memo: Set<MemoKey>) -> (bool, Set<MemoKey>) {
    if m.remaining < m.positions.len() {
        let p = m.positions[m.remaining] as int;
        let used = m.positions.len() - m.remaining;
        if 2 * used == p {
            match eval_spec(m.result_vec) {
                Ok(v) => (
                    !memo.contains((v.num as int, v.den as int, used as int)),
                    memo.insert((v.num as int, v.den as int, used as int)),
                ),
                Err(_) => (true, memo),
            }
        } else {
            (true, memo)
        }
    } else {
        (true, memo)
    }
}

/// Evaluate the partial expression at a checkpoint and record its key in
/// the memo; true means the branch is new (or no checkpoint applies).
pub fn check_uniqueness(schema: &Schema, memo: &mut UniquenessMemo) -> (r: bool)
    requires
        schema.remaining <= schema.positions@.len(),
    ensures
        r == check_uniqueness_spec(schema.model(), memo_contents(*old(memo))).0,
        memo_contents(*final(memo)) == check_uniqueness_spec(
            schema.model(),
            memo_contents(*old(memo)),
        ).1,
{
    match schema.get_current_position() {
        None => true,
        Some(p) => {
            let used = schema.get_number_of_used_positions();
            if 2 * (used as u128) == (p as u128) {
                match evaluate(&schema.result_vec) {
                    Ok(v) => memo.test_and_insert(v.num, v.den, used),
                    Err(_) => true,
                }
            } else {
                true
            }
        },
    }
}

/// Whether an exact value equals the unsigned target number.
pub open spec fn is_target(v: Rat, target: u64) -> bool {
    v.den == 1 && v.num >= 0 && v.num == target
}

/// What processing one (skeleton, assignment) unit reports.
#[derive(Clone, Copy, PartialEq, Eq, Structural, Debug)]
pub enum UnitOutcome {
    /// The fully labeled expression evaluates exactly to the target.
    Match,
    /// The expression evaluates to something else, or to one of the two
    /// expected leaf failures (out of range, invalid concatenation).
    NoMatch,
    /// A checkpoint key was already recorded: the branch is redundant.
    Pruned,
    /// The placement rule refused an insertion: the combination is
    /// structurally disallowed.
    Rejected,
    /// The expression was malformed: a generator invariant was violated,
    /// and the failure must be surfaced.
    Malformed(EvalError),
}

/// Processing one unit: before each insertion, and once after the last,
/// the uniqueness check may prune the branch; an insertion refused by the
/// placement rule rejects the unit; otherwise the finished expression is
/// evaluated and compared against the target.
pub open spec fn unit_spec(
    m: SchemaModel,
    ops: Seq<Operator>,
    memo: Set<MemoKey>,
    target: u64,
) -> (UnitOutcome, SchemaModel, Set<MemoKey>)
    decreases ops.len(),
{
    let checked = check_uniqueness_spec(m, memo);
    if !checked.0 {
        (UnitOutcome::Pruned, m, checked.1)
    } else if ops.len() == 0 {
        match eval_spec(m.result_vec) {
            Ok(v) => if is_target(v, target) {
                (UnitOutcome::Match, m, checked.1)
            } else {
                (UnitOutcome::NoMatch, m, checked.1)
            },
            Err(e) => if e == EvalError::ArithmeticOutOfRange || e
                == EvalError::ConcatenationInvalid {
                (UnitOutcome::NoMatch, m, checked.1)
            } else {
                (UnitOutcome::Malformed(e), m, checked.1)
            },
        }
    } else if !model_insert_allowed(m, ops[0]) {
        (UnitOutcome::Rejected, m, checked.1)
    } else {
        unit_spec(model_insert(m, ops[0]), ops.drop_first(), checked.1, target)
    }
}

/// All assignments that extend `prefix` with `k` more symbols from
/// `vocab`: the `k`-fold Cartesian product, in vocabulary order.
pub open spec fn op_sets_spec(vocab: Seq<Operator>, k: nat, prefix: Seq<Operator>) -> Seq<
    Seq<Operator>,
>
    decreases k, vocab.len() + 1,
{
    if k == 0 {
        seq![prefix]
    } else {
        op_sets_iter(vocab, k, prefix, 0)
    }
}

/// The assignments contributed by the vocabulary symbols from index `i` on.
pub open spec fn op_sets_iter(vocab: Seq<Operator>, k: nat, prefix: Seq<Operator>, i: int) -> Seq<
    Seq<Operator>,
>
    decreases k, vocab.len() - i,
    when k >= 1 && 0 <= i <= vocab.len()
{
    if i >= vocab.len() {
        Seq::empty()
    } else {
        op_sets_spec(vocab, (k - 1) as nat, prefix.push(vocab[i])) + op_sets_iter(
            vocab,
            k,
            prefix,
            i + 1,
        )
    }
}

/// The label sequences of a vector of assignments.
pub open spec fn views_of(s: Seq<Vec<Operator>>) -> Seq<Seq<Operator>> {
    s.map_values(|v: Vec<Operator>| v@)
}

/// Emit into `results` every assignment that extends `ops_vec` with
/// `ops_number` more symbols from the vocabulary.
#[verifier::loop_isolation(false)]
pub fn generate_op_set(
    vocab: &Vec<Operator>,
    ops_number: usize,
    ops_vec: Vec<Operator>,
    results: &mut Vec<Vec<Operator>>,
)
    ensures
        views_of(final(results)@) == views_of(old(results)@) + op_sets_spec(
            vocab@,
            ops_number as nat,
            ops_vec@,
        ),
    decreases ops_number,
{
    let ghost ov = ops_vec@;
    if ops_number == 0 {
        let ghost pre = results@;
        results.push(ops_vec);
        proof {
            assert(views_of(results@) =~= views_of(pre) + seq![ov]);
        }
        return ;
    }
    let mut idx: usize = 0;
    while idx < vocab.len()
        invariant
            idx <= vocab@.len(),
            views_of(old(results)@) + op_sets_spec(vocab@, ops_number as nat, ov) =~= views_of(
                results@,
            ) + op_sets_iter(vocab@, ops_number as nat, ov, idx as int),
        decreases vocab@.len() - idx,
    {
        let ghost mid = results@;
        let mut nv = crate::schemes_lib::copy_vec(&ops_vec);
        nv.push(vocab[idx]);
        generate_op_set(vocab, ops_number - 1, nv, results);
        proof {
            assert(op_sets_iter(vocab@, ops_number as nat, ov, idx as int) == op_sets_spec(
                vocab@,
                (ops_number - 1) as nat,
                ov.push(vocab@[idx as int]),
            ) + op_sets_iter(vocab@, ops_number as nat, ov, idx as int + 1));
            assert(views_of(mid) + (op_sets_spec(
                vocab@,
                (ops_number - 1) as nat,
                ov.push(vocab@[idx as int]),
            ) + op_sets_iter(vocab@, ops_number as nat, ov, idx as int + 1)) =~= (views_of(mid)
                + op_sets_spec(vocab@, (ops_number - 1) as nat, ov.push(vocab@[idx as int])))
                + op_sets_iter(vocab@, ops_number as nat, ov, idx as int + 1));
        }
        idx = idx + 1;
    }
    proof {
        assert(op_sets_iter(vocab@, ops_number as nat, ov, vocab@.len() as int) =~= Seq::<
            Seq<Operator>,
        >::empty());
        assert(views_of(results@) + Seq::<Seq<Operator>>::empty() =~= views_of(results@));
    }
}

/// All assignments of `ops_number` symbols over the vocabulary.
pub fn generate_operations(vocab: &Vec<Operator>, ops_number: usize) -> (r: Vec<Vec<Operator>>)
    ensures
        views_of(r@) == op_sets_spec(vocab@, ops_number as nat, Seq::empty()),
{
    let mut results: Vec<Vec<Operator>> = Vec::new();
    let start: Vec<Operator> = Vec::new();
    let ghost s0 = start@;
    generate_op_set(vocab, ops_number, start, &mut results);
    proof {
        assert(s0 =~= Seq::<Operator>::empty());
        assert(views_of(Seq::<Vec<Operator>>::empty()) =~= Seq::<Seq<Operator>>::empty());
        assert(Seq::<Seq<Operator>>::empty() + op_sets_spec(vocab@, ops_number as nat, s0)
            =~= op_sets_spec(vocab@, ops_number as nat, s0));
    }
    results
}

/// Process one (skeleton, assignment) unit against the shared memo,
/// returning the outcome and the consumed skeleton (whose token list is
/// the witness expression when the outcome is a match).
#[verifier::loop_isolation(false)]
pub fn check_and_evaluate(
    schema: Schema,
    op_set: &Vec<Operator>,
    memo: &mut UniquenessMemo,
    number: u64,
) -> (r: (UnitOutcome, Schema))
    requires
        schema.wf(),
    ensures
        r.0 == unit_spec(schema.model(), op_set@, memo_contents(*old(memo)), number).0,
        r.1.model() == unit_spec(schema.model(), op_set@, memo_contents(*old(memo)), number).1,
        memo_contents(*final(memo)) == unit_spec(
            schema.model(),
            op_set@,
            memo_contents(*old(memo)),
            number,
        ).2,
        r.1.wf(),
{
    let ghost total = unit_spec(schema.model(), op_set@, memo_contents(*old(memo)), number);
    let mut schema = schema;
    let mut i: usize = 0;
    proof {
        assert(op_set@.subrange(0, op_set@.len() as int) =~= op_set@);
    }
    while i < op_set.len()
        invariant
            i <= op_set@.len(),
            schema.wf(),
            unit_spec(
                schema.model(),
                op_set@.subrange(i as int, op_set@.len() as int),
                memo_contents(*memo),
                number,
            ) == total,
        decreases op_set@.len() - i,
    {
        let ghost rest = op_set@.subrange(i as int, op_set@.len() as int);
        proof {
            assert(rest.len() > 0);
            assert(rest[0] == op_set@[i as int]);
            assert(rest.drop_first() =~= op_set@.subrange(i as int + 1, op_set@.len() as int));
        }
        let fresh = check_uniqueness(&schema, memo);
        if !fresh {
            return (UnitOutcome::Pruned, schema);
        }
        let inserted = schema.insert_operator(op_set[i]);
        if !inserted {
            return (UnitOutcome::Rejected, schema);
        }
        i = i + 1;
    }
    proof {
        assert(op_set@.subrange(op_set@.len() as int, op_set@.len() as int)
            =~= Seq::<Operator>::empty());
    }
    let fresh = check_uniqueness(&schema, memo);
    if !fresh {
        return (UnitOutcome::Pruned, schema);
    }
    match evaluate(&schema.result_vec) {
        Ok(v) => {
            if v.is_integer_value(number) {
                (UnitOutcome::Match, schema)
            } else {
                (UnitOutcome::NoMatch, schema)
            }
        },
        Err(e) => {
            if e == EvalError::ArithmeticOutOfRange || e == EvalError::ConcatenationInvalid {
                (UnitOutcome::NoMatch, schema)
            } else {
                (UnitOutcome::Malformed(e), schema)
            }
        },
    }
}

/// `b ^ e` over the naturals.
pub open spec fn pow_nat(b: nat, e: nat) -> nat
    decreases e,
{
    if e == 0 {
        1
    } else {
        b * pow_nat(b, (e - 1) as nat)
    }
}

/// The assignments from vocabulary index `i` on number one power of the
/// vocabulary size per remaining slot.
proof fn lemma_op_sets_iter_count(vocab: Seq<Operator>, k: nat, prefix: Seq<Operator>, i: int)
    requires
        k >= 1,
        0 <= i <= vocab.len(),
    ensures
        op_sets_iter(vocab, k, prefix, i).len() == (vocab.len() - i) * pow_nat(
            vocab.len(),
            (k - 1) as nat,
        ),
    decreases k, vocab.len() - i,
{
    let m = vocab.len() as int;
    let p = pow_nat(vocab.len(), (k - 1) as nat) as int;
    if i == vocab.len() {
        assert((m - i) * p == 0) by (nonlinear_arith)
            requires
                m - i == 0,
        ;
    } else {
        lemma_op_sets_count(vocab, (k - 1) as nat, prefix.push(vocab[i]));
        lemma_op_sets_iter_count(vocab, k, prefix, i + 1);
        assert(p + (m - i - 1) * p == (m - i) * p) by (nonlinear_arith);
    }
}

/// The assignment space for `k` slots over a vocabulary of `m` symbols
/// holds exactly `m ^ k` label sequences.
pub proof fn lemma_op_sets_count(vocab: Seq<Operator>, k: nat, prefix: Seq<Operator>)
    ensures
        op_sets_spec(vocab, k, prefix).len() == pow_nat(vocab.len(), k),
    decreases k, vocab.len() + 1,
{
    if k == 0 {
    } else {
        lemma_op_sets_iter_count(vocab, k, prefix, 0);
        assert(vocab.len() * pow_nat(vocab.len(), (k - 1) as nat) == pow_nat(vocab.len(), k));
    }
}

/// Every assignment from vocabulary index `i` on extends the prefix by
/// exactly the remaining slot count, with symbols from the vocabulary.
proof fn lemma_op_sets_iter_shape(vocab: Seq<Operator>, k: nat, prefix: Seq<Operator>, i: int)
    requires
        k >= 1,
        0 <= i <= vocab.len(),
    ensures
        forall|j: int|
            0 <= j < op_sets_iter(vocab, k, prefix, i).len() ==> (#[trigger] op_sets_iter(
                vocab,
                k,
                prefix,
                i,
            )[j]).len() == prefix.len() + k,
        forall|j: int, idx: int|
            0 <= j < op_sets_iter(vocab, k, prefix, i).len() && prefix.len() <= idx < prefix.len()
                + k ==> vocab.contains(#[trigger] op_sets_iter(vocab, k, prefix, i)[j][idx]),
        forall|j: int|
            0 <= j < op_sets_iter(vocab, k, prefix, i).len() ==> prefix.is_prefix_of(
                #[trigger] op_sets_iter(vocab, k, prefix, i)[j],
            ),
    decreases k, vocab.len() - i,
{
    let out = op_sets_iter(vocab, k, prefix, i);
    if i >= vocab.len() {
    } else {
        let head = op_sets_spec(vocab, (k - 1) as nat, prefix.push(vocab[i]));
        let tail = op_sets_iter(vocab, k, prefix, i + 1);
        assert(out =~= head + tail);
        assert(vocab.contains(vocab[i]));
        lemma_op_sets_shape(vocab, (k - 1) as nat, prefix.push(vocab[i]));
        lemma_op_sets_iter_shape(vocab, k, prefix, i + 1);
        assert forall|j: int| 0 <= j < out.len() implies prefix.is_prefix_of(
            #[trigger] out[j],
        ) by {
            if j < head.len() {
                let l = head[j];
                assert(prefix.push(vocab[i]).is_prefix_of(l));
                assert forall|x: int| 0 <= x < prefix.len() implies l.subrange(
                    0,
                    prefix.len() as int,
                )[x] == prefix[x] by {
                    assert(l.subrange(0, prefix.len() as int + 1)[x] == prefix.push(vocab[i])[x]);
                }
                assert(prefix =~= l.subrange(0, prefix.len() as int));
            } else {
                assert(out[j] == tail[j - head.len()]);
            }
        }
        assert forall|j: int, idx: int|
            0 <= j < out.len() && prefix.len() <= idx < prefix.len() + k implies vocab.contains(
            #[trigger] out[j][idx],
        ) by {
            if j < head.len() {
                let l = head[j];
                if idx == prefix.len() {
                    assert(l.subrange(0, prefix.len() as int + 1) =~= prefix.push(vocab[i]));
                    assert(l[idx] == prefix.push(vocab[i])[idx]);
                } else {
                    assert(vocab.contains(l[idx]));
                }
            } else {
                assert(out[j] == tail[j - head.len()]);
            }
        }
    }
}

/// Every generated assignment labels exactly `k` slots, each with a symbol
/// of the vocabulary.
pub proof fn lemma_op_sets_shape(vocab: Seq<Operator>, k: nat, prefix: Seq<Operator>)
    ensures
        forall|j: int|
            0 <= j < op_sets_spec(vocab, k, prefix).len() ==> (#[trigger] op_sets_spec(
                vocab,
                k,
                prefix,
            )[j]).len() == prefix.len() + k,
        forall|j: int, idx: int|
            0 <= j < op_sets_spec(vocab, k, prefix).len() && prefix.len() <= idx < prefix.len() + k
                ==> vocab.contains(#[trigger] op_sets_spec(vocab, k, prefix)[j][idx]),
        forall|j: int|
            0 <= j < op_sets_spec(vocab, k, prefix).len() ==> prefix.is_prefix_of(
                #[trigger] op_sets_spec(vocab, k, prefix)[j],
            ),
    decreases k, vocab.len() + 1,
{
    if k == 0 {
        assert(op_sets_spec(vocab, k, prefix) =~= seq![prefix]);
        assert(prefix.subrange(0, prefix.len() as int) =~= prefix);
    } else {
        lemma_op_sets_iter_shape(vocab, k, prefix, 0);
        let out = op_sets_spec(vocab, k, prefix);
        assert(out == op_sets_iter(vocab, k, prefix, 0));
        assert forall|j: int, idx: int|
            0 <= j < out.len() && prefix.len() <= idx < prefix.len() + k implies vocab.contains(
            #[trigger] out[j][idx],
        ) by {
            assert(vocab.contains(op_sets_iter(vocab, k, prefix, 0)[j][idx]));
        }
        assert forall|j: int| 0 <= j < out.len() implies (#[trigger] out[j]).len() == prefix.len()
            + k by {
            assert(op_sets_iter(vocab, k, prefix, 0)[j].len() == prefix.len() + k);
        }
        assert forall|j: int| 0 <= j < out.len() implies prefix.is_prefix_of(
            #[trigger] out[j],
        ) by {
            assert(prefix.is_prefix_of(op_sets_iter(vocab, k, prefix, 0)[j]));
        }
    }
}

/// The states of a sequence of skeletons.
pub open spec fn models_of(s: Seq<Schema>) -> Seq<SchemaModel> {
    s.map_values(|x: Schema| x.model())
}

/// What a whole search reports.
pub enum SearchOutcome {
    /// A witness: a postfix expression that evaluates exactly to the target.
    Found(Vec<OperationElt>),
    /// Every unit was processed and none matched.
    Unreachable,
    /// A unit produced a malformed expression: a generator defect, surfaced
    /// instead of being silently swallowed.
    Aborted(EvalError),
}

/// The mathematical counterpart of a search report.
pub enum SearchOutcomeModel {
    Found(Seq<OperationElt>),
    Unreachable,
    Aborted(EvalError),
}

/// Whether an executable report denotes a mathematical one.
pub open spec fn outcome_matches(r: SearchOutcome, m: SearchOutcomeModel) -> bool {
    match r {
        SearchOutcome::Found(v) => m matches SearchOutcomeModel::Found(s) && v@ == s,
        SearchOutcome::Unreachable => m == SearchOutcomeModel::Unreachable,
        SearchOutcome::Aborted(e1) => m matches SearchOutcomeModel::Aborted(e2) && e1 == e2,
    }
}

/// Run one assignment against every skeleton from index `si` on: the first
/// match or malformed expression ends the row; otherwise the memo threads
/// through to the next unit.
pub open spec fn row_spec(
    schemes: Seq<SchemaModel>,
    ops: Seq<Operator>,
    si: int,
    memo: Set<MemoKey>,
    target: u64,
) -> (Option<SearchOutcomeModel>, Set<MemoKey>)
    decreases schemes.len() - si,
    when 0 <= si
{
    if si >= schemes.len() {
        (None, memo)
    } else {
        let step = unit_spec(schemes[si], ops, memo, target);
        match step.0 {
            UnitOutcome::Match => (Some(SearchOutcomeModel::Found(step.1.result_vec)), step.2),
            UnitOutcome::Malformed(e) => (Some(SearchOutcomeModel::Aborted(e)), step.2),
            _ => row_spec(schemes, ops, si + 1, step.2, target),
        }
    }
}

/// Run every assignment from index `oi` on against every skeleton, in
/// order, until a row ends the search; exhausting the product reports that
/// the target is unreachable.
pub open spec fn search_spec(
    schemes: Seq<SchemaModel>,
    op_sets: Seq<Seq<Operator>>,
    oi: int,
    memo: Set<MemoKey>,
    target: u64,
) -> SearchOutcomeModel
    decreases op_sets.len() - oi,
    when 0 <= oi
{
    if oi >= op_sets.len() {
        SearchOutcomeModel::Unreachable
    } else {
        let row = row_spec(schemes, op_sets[oi], 0, memo, target);
        match row.0 {
            Some(out) => out,
            None => search_spec(schemes, op_sets, oi + 1, row.1, target),
        }
    }
}

/// A matched unit's expression evaluates exactly to the target.
proof fn lemma_unit_match_is_witness(
    m: SchemaModel,
    ops: Seq<Operator>,
    memo: Set<MemoKey>,
    target: u64,
)
    ensures
        unit_spec(m, ops, memo, target).0 == UnitOutcome::Match ==> (eval_spec(
            unit_spec(m, ops, memo, target).1.result_vec,
        ) matches Ok(v) && is_target(v, target)),
    decreases ops.len(),
{
    let checked = check_uniqueness_spec(m, memo);
    if !checked.0 {
    } else if ops.len() == 0 {
    } else if !model_insert_allowed(m, ops[0]) {
    } else {
        lemma_unit_match_is_witness(model_insert(m, ops[0]), ops.drop_first(), checked.1, target);
    }
}

/// A row that reports a witness reports a true one.
proof fn lemma_row_found_is_witness(
    schemes: Seq<SchemaModel>,
    ops: Seq<Operator>,
    si: int,
    memo: Set<MemoKey>,
    target: u64,
)
    requires
        0 <= si,
    ensures
        row_spec(schemes, ops, si, memo, target).0 matches Some(out) ==> (out matches
            SearchOutcomeModel::Found(s) ==> (eval_spec(s) matches Ok(v) && is_target(v, target))),
    decreases schemes.len() - si,
{
    if si >= schemes.len() {
    } else {
        let step = unit_spec(schemes[si], ops, memo, target);
        lemma_unit_match_is_witness(schemes[si], ops, memo, target);
        match step.0 {
            UnitOutcome::Match => {},
            UnitOutcome::Malformed(_) => {},
            _ => {
                lemma_row_found_is_witness(schemes, ops, si + 1, step.2, target);
            },
        }
    }
}

/// Soundness of the whole search: any reported witness expression
/// evaluates exactly to the target number.
pub proof fn lemma_search_found_is_witness(
    schemes: Seq<SchemaModel>,
    op_sets: Seq<Seq<Operator>>,
    oi: int,
    memo: Set<MemoKey>,
    target: u64,
)
    requires
        0 <= oi,
    ensures
        search_spec(schemes, op_sets, oi, memo, target) matches SearchOutcomeModel::Found(s) ==> (
        eval_spec(s) matches Ok(v) && is_target(v, target)),
    decreases op_sets.len() - oi,
{
    if oi >= op_sets.len() {
    } else {
        let row = row_spec(schemes, op_sets[oi], 0, memo, target);
        lemma_row_found_is_witness(schemes, op_sets[oi], 0, memo, target);
        match row.0 {
            Some(out) => {},
            None => {
                lemma_search_found_is_witness(schemes, op_sets, oi + 1, row.1, target);
            },
        }
    }
}

/// Run one assignment against every skeleton, on private copies, against
/// the shared memo; report the first match or surfaced failure.
#[verifier::loop_isolation(false)]
pub fn check_op_s(
    op_s: &Vec<Operator>,
    schemes: &Vec<Schema>,
    memo: &mut UniquenessMemo,
    number: u64,
) -> (r: Option<SearchOutcome>)
    requires
        forall|i: int| 0 <= i < schemes@.len() ==> (#[trigger] schemes@[i]).wf(),
    ensures
        match r {
            Some(out) => row_spec(
                models_of(schemes@),
                op_s@,
                0,
                memo_contents(*old(memo)),
                number,
            ).0 matches Some(m) && outcome_matches(out, m),
            None => row_spec(
                models_of(schemes@),
                op_s@,
                0,
                memo_contents(*old(memo)),
                number,
            ).0 is None,
        },
        memo_contents(*final(memo)) == row_spec(
            models_of(schemes@),
            op_s@,
            0,
            memo_contents(*old(memo)),
            number,
        ).1,
{
    let ghost total = row_spec(models_of(schemes@), op_s@, 0, memo_contents(*old(memo)), number);
    let mut si: usize = 0;
    while si < schemes.len()
        invariant
            si <= schemes@.len(),
            row_spec(models_of(schemes@), op_s@, si as int, memo_contents(*memo), number) == total,
        decreases schemes@.len() - si,
    {
        let copy_schema = Schema::from_schema(&schemes[si]);
        proof {
            assert(copy_schema.model() == models_of(schemes@)[si as int]);
            assert(copy_schema.wf());
        }
        let (outcome, consumed) = check_and_evaluate(copy_schema, op_s, memo, number);
        match outcome {
            UnitOutcome::Match => {
                return Some(SearchOutcome::Found(consumed.result_vec));
            },
            UnitOutcome::Malformed(e) => {
                return Some(SearchOutcome::Aborted(e));
            },
            _ => {},
        }
        si = si + 1;
    }
    None
}

/// Drive the whole search: enumerate every assignment of the vocabulary
/// over the skeletons' slot count, cross each with every skeleton, and
/// process the units in sequence against a fresh memo until a witness is
/// found, a malformed expression is surfaced, or the product is exhausted.
#[verifier::loop_isolation(false)]
pub fn generate_threads(schemes: Vec<Schema>, bin_operations: Vec<Operator>, number: u64) -> (r:
    SearchOutcome)
    requires
        forall|i: int| 0 <= i < schemes@.len() ==> (#[trigger] schemes@[i]).wf(),
    ensures
        outcome_matches(
            r,
            search_spec(
                models_of(schemes@),
                op_sets_spec(
                    bin_operations@,
                    (if schemes@.len() > 0 {
                        schemes@[0].remaining as nat
                    } else {
                        0nat
                    }),
                    Seq::empty(),
                ),
                0,
                Set::empty(),
                number,
            ),
        ),
        r matches SearchOutcome::Found(expr) ==> (eval_spec(expr@) matches Ok(v) && is_target(
            v,
            number,
        )),
{
    proof {
        lemma_search_found_is_witness(
            models_of(schemes@),
            op_sets_spec(
                bin_operations@,
                (if schemes@.len() > 0 {
                    schemes@[0].remaining as nat
                } else {
                    0nat
                }),
                Seq::empty(),
            ),
            0,
            Set::empty(),
            number,
        );
    }
    let slots: usize = if schemes.len() > 0 {
        schemes[0].get_number_of_remain_positions()
    } else {
        0
    };
    let op_sets = generate_operations(&bin_operations, slots);
    let ghost sets = op_sets_spec(bin_operations@, slots as nat, Seq::empty());
    let mut memo = UniquenessMemo::new();
    let ghost total = search_spec(models_of(schemes@), sets, 0, memo_contents(memo), number);
    let mut oi: usize = 0;
    while oi < op_sets.len()
        invariant
            oi <= op_sets@.len(),
            views_of(op_sets@) == sets,
            search_spec(models_of(schemes@), sets, oi as int, memo_contents(memo), number)
                == total,
        decreases op_sets@.len() - oi,
    {
        proof {
            assert(op_sets@[oi as int]@ == sets[oi as int]);
        }
        let row = check_op_s(&op_sets[oi], &schemes, &mut memo, number);
        match row {
            Some(out) => {
                return out;
            },
            None => {},
        }
        oi = oi + 1;
    }
    SearchOutcome::Unreachable
}

} // verus!
