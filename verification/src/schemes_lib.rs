//! Skeletons: structurally distinct placements of operator slots over a
//! fixed operand sequence, and their recursive generation.
use vstd::prelude::*;
use crate::rpn_evaluator::{OperationElt, Operator};

verus! {

/// One skeleton: the token list built so far, the insertion positions still
/// to be consumed (consumed from the last index to the first), and the
/// position of the last non-concatenation operator inserted (-1 for none).
pub struct Schema {
    pub result_vec: Vec<OperationElt>,
    pub positions: Vec<usize>,
    pub remaining: usize,
    pub prev_not_concat_op_pos: i128,
}

impl Schema {
    /// The structural invariant: every still-open position is a valid
    /// insertion index at the moment it will be consumed, and the last
    /// non-concatenation position is bounded by the work done so far.
    pub open spec fn wf(self) -> bool {
        &&& self.remaining <= self.positions@.len()
        &&& forall|j: int|
            0 <= j < self.remaining ==> #[trigger] self.positions@[j] <= self.result_vec@.len() + (
            self.remaining - 1 - j)
        &&& -1 <= self.prev_not_concat_op_pos <= self.result_vec@.len() + 2 * (
        self.positions@.len() - self.remaining)
    }

    /// A skeleton whose slots are all still open and whose token list is
    /// not yet filled in.
    pub fn from_positions(positions: Vec<usize>) -> (s: Schema)
        ensures
            s.result_vec@ == Seq::<OperationElt>::empty(),
            s.positions@ == positions@,
            s.remaining == positions@.len(),
            s.prev_not_concat_op_pos == -1,
    {
        let remaining = positions.len();
        Schema { result_vec: Vec::new(), positions, remaining, prev_not_concat_op_pos: -1 }
    }

    /// A private copy of a skeleton, for one worker to consume.
    pub fn from_schema(schema: &Schema) -> (s: Schema)
        ensures
            s.result_vec@ == schema.result_vec@,
            s.positions@ == schema.positions@,
            s.remaining == schema.remaining,
            s.prev_not_concat_op_pos == schema.prev_not_concat_op_pos,
    {
        Schema {
            result_vec: copy_vec(&schema.result_vec),
            positions: copy_vec(&schema.positions),
            remaining: schema.remaining,
            prev_not_concat_op_pos: schema.prev_not_concat_op_pos,
        }
    }

    /// Replace the token list.
    pub fn set_result_vec(&mut self, result: Vec<OperationElt>)
        ensures
            final(self).result_vec@ == result@,
            final(self).positions@ == old(self).positions@,
            final(self).remaining == old(self).remaining,
            final(self).prev_not_concat_op_pos == old(self).prev_not_concat_op_pos,
    {
        self.result_vec = result;
    }

    /// Whether `op` may be inserted at the next open position: a
    /// concatenation operator is refused when that position is at most 2
    /// past the last non-concatenation operator.
    pub open spec fn insert_allowed(self, operator: Operator) -> bool {
        &&& self.remaining >= 1
        &&& !(operator == Operator::Concatenation && self.positions@[self.remaining - 1]
            - self.prev_not_concat_op_pos <= 2)
    }

    /// The concatenation-adjacency placement rule.
    fn check_conditions(&self, operator: Operator) -> (r: bool)
        requires
            self.wf(),
        ensures
            r == self.insert_allowed(operator),
    {
        if self.remaining == 0 {
            return false;
        }
        let current_position = self.positions[self.remaining - 1];
        if operator == Operator::Concatenation && (current_position as i128)
            - self.prev_not_concat_op_pos <= 2 {
            false
        } else {
            true
        }
    }

    /// Insert `operator` at the next open position if the placement rule
    /// allows it; report whether it was inserted.  On success, one slot is
    /// consumed and the recorded last non-concatenation position moves.
    pub fn insert_operator(&mut self, operator: Operator) -> (r: bool)
        requires
            old(self).wf(),
        ensures
            r == old(self).insert_allowed(operator),
            final(self).wf(),
            !r ==> final(self).result_vec@ == old(self).result_vec@,
            !r ==> final(self).prev_not_concat_op_pos == old(self).prev_not_concat_op_pos,
            !r ==> final(self).remaining == old(self).remaining,
            r ==> final(self).result_vec@ == old(self).result_vec@.insert(
                old(self).positions@[old(self).remaining - 1] as int,
                OperationElt::Operator(operator),
            ),
            r ==> final(self).remaining == old(self).remaining - 1,
            r ==> final(self).prev_not_concat_op_pos as int == (
            if operator == Operator::Concatenation {
                old(self).prev_not_concat_op_pos + 2
            } else {
                old(self).positions@[old(self).remaining - 1] as int
            }),
            final(self).positions@ == old(self).positions@,
    {
        if !self.check_conditions(operator) {
            return false;
        }
        let idx = self.positions[self.remaining - 1];
        if operator == Operator::Concatenation {
            self.prev_not_concat_op_pos = self.prev_not_concat_op_pos + 2;
        } else {
            self.prev_not_concat_op_pos = idx as i128;
        }
        self.result_vec.insert(idx, OperationElt::Operator(operator));
        self.remaining = self.remaining - 1;
        true
    }

    /// The token list rendered as text, each token followed by one space.
    pub fn get_string_result(&self) -> (r: String)
        ensures
            r@ == crate::rpn_evaluator::render_tokens(self.result_vec@),
    {
        crate::rpn_evaluator::render_expression(&self.result_vec)
    }

    /// How many positions are still open.
    pub fn get_number_of_remain_positions(&self) -> (r: usize)
        ensures
            r == self.remaining,
    {
        self.remaining
    }

    /// How many positions have been consumed.
    pub fn get_number_of_used_positions(&self) -> (r: usize)
        requires
            self.remaining <= self.positions@.len(),
        ensures
            r == self.positions@.len() - self.remaining,
    {
        self.positions.len() - self.remaining
    }

    /// The most recently consumed position, if any.
    pub fn get_current_position(&self) -> (r: Option<usize>)
        ensures
            r == (if self.remaining < self.positions@.len() {
                Some(self.positions@[self.remaining as int])
            } else {
                None::<usize>
            }),
    {
        if self.remaining < self.positions.len() {
            Some(self.positions[self.remaining])
        } else {
            None
        }
    }
}

/// The mathematical state of a skeleton, used by the contracts of the
/// search scheduler.
pub struct SchemaModel {
    pub result_vec: Seq<OperationElt>,
    pub positions: Seq<usize>,
    pub remaining: int,
    pub prev_not_concat_op_pos: int,
}

impl Schema {
    /// The mathematical state of this skeleton.
    pub open spec fn model(self) -> SchemaModel {
        SchemaModel {
            result_vec: self.result_vec@,
            positions: self.positions@,
            remaining: self.remaining as int,
            prev_not_concat_op_pos: self.prev_not_concat_op_pos as int,
        }
    }
}

/// The placement rule, on the mathematical state.
pub open spec fn model_insert_allowed(m: SchemaModel, operator: Operator) -> bool {
    &&& m.remaining >= 1
    &&& !(operator == Operator::Concatenation && m.positions[m.remaining - 1]
        - m.prev_not_concat_op_pos <= 2)
}

/// The effect of one allowed insertion, on the mathematical state.
pub open spec fn model_insert(m: SchemaModel, operator: Operator) -> SchemaModel
    recommends
        model_insert_allowed(m, operator),
{
    SchemaModel {
        result_vec: m.result_vec.insert(
            m.positions[m.remaining - 1] as int,
            OperationElt::Operator(operator),
        ),
        positions: m.positions,
        remaining: m.remaining - 1,
        prev_not_concat_op_pos: if operator == Operator::Concatenation {
            m.prev_not_concat_op_pos + 2
        } else {
            m.positions[m.remaining - 1] as int
        },
    }
}

/// Element-wise copy of a vector of plain values.
pub fn copy_vec<T: Copy>(v: &Vec<T>) -> (r: Vec<T>)
    ensures
        r@ == v@,
{
    let mut r: Vec<T> = Vec::new();
    let mut i: usize = 0;
    while i < v.len()
        invariant
            i <= v.len(),
            r@ == v@.subrange(0, i as int),
        decreases v.len() - i,
    {
        r.push(v[i]);
        proof {
            assert(v@.subrange(0, i as int).push(v@[i as int]) =~= v@.subrange(0, i as int + 1));
        }
        i = i + 1;
    }
    proof {
        assert(v@.subrange(0, v@.len() as int) =~= v@);
    }
    r
}

/// The reverse of a vector.
fn reverse_vec(v: &Vec<usize>) -> (r: Vec<usize>)
    ensures
        r@ == v@.reverse(),
{
    let mut r: Vec<usize> = Vec::new();
    let mut i: usize = 0;
    while i < v.len()
        invariant
            i <= v.len(),
            r@.len() == i,
            forall|j: int| 0 <= j < i ==> #[trigger] r@[j] == v@[v@.len() - 1 - j],
        decreases v.len() - i,
    {
        r.push(v[v.len() - 1 - i]);
        i = i + 1;
    }
    proof {
        assert(r@ =~= v@.reverse());
    }
    r
}

/// Smaller of two integers.
pub open spec fn min_int(a: int, b: int) -> int {
    if a <= b {
        a
    } else {
        b
    }
}

/// All position lists (in push order) that the recursive skeleton
/// construction emits from the given state: at each step it may defer, and
/// it may consume one of the `av` still-available slots when the
/// feasibility bound allows; a list is emitted once all slots are consumed
/// at the final step.
pub open spec fn produce_spec(av: int, mo: int, step: int, pos: Seq<usize>) -> Seq<Seq<usize>>
    decreases mo + 1 - step, av,
    when 0 <= av && step <= mo + 1
{
    let emitted: Seq<Seq<usize>> = if av == 0 && step == mo + 1 {
        seq![pos]
    } else {
        Seq::empty()
    };
    let deferred: Seq<Seq<usize>> = if step < mo + 1 {
        produce_spec(av, mo, step + 1, pos)
    } else {
        Seq::empty()
    };
    let usable = min_int(av, step - 2 - (mo - 1 - av));
    let consumed: Seq<Seq<usize>> = if usable > 0 {
        produce_spec(av - 1, mo, step, pos.push((step + (mo - av)) as usize))
    } else {
        Seq::empty()
    };
    emitted + deferred + consumed
}

/// A freshly generated skeleton for the position list `g` (push order):
/// positions stored reversed, so that they are consumed from the last
/// index to the first, i.e. in push order.
pub open spec fn fresh_schema_for(s: Schema, g: Seq<usize>) -> bool {
    &&& s.positions@ == g.reverse()
    &&& s.result_vec@ == Seq::<OperationElt>::empty()
    &&& s.remaining == g.len()
    &&& s.prev_not_concat_op_pos == -1
}

/// Emit into `results` one skeleton for every position list that the
/// recursion reaches from this state.
pub fn produce_schema(
    results: &mut Vec<Schema>,
    available: usize,
    max_ops: usize,
    step: usize,
    positions: Vec<usize>,
)
    requires
        available + positions@.len() == max_ops,
        step <= max_ops + 1,
        max_ops <= 0x1000_0000,
    ensures
        final(results)@.len() == old(results)@.len() + produce_spec(
            available as int,
            max_ops as int,
            step as int,
            positions@,
        ).len(),
        final(results)@.subrange(0, old(results)@.len() as int) == old(results)@,
        forall|i: int|
            0 <= i < produce_spec(available as int, max_ops as int, step as int, positions@).len()
                ==> fresh_schema_for(
                #[trigger] final(results)@[old(results)@.len() + i],
                produce_spec(available as int, max_ops as int, step as int, positions@)[i],
            ),
    decreases max_ops + 1 - step, available,
{
    let ghost out = produce_spec(available as int, max_ops as int, step as int, positions@);
    let ghost pre = results@;
    if available == 0 && step == max_ops + 1 {
        let remaining = positions.len();
        let rev = reverse_vec(&positions);
        results.push(
            Schema {
                result_vec: Vec::new(),
                positions: rev,
                remaining,
                prev_not_concat_op_pos: -1,
            },
        );
        proof {
            assert(out =~= seq![positions@]);
            assert(results@.subrange(0, pre.len() as int) =~= pre);
        }
        return ;
    }
    if step < max_ops + 1 {
        let copied = copy_vec(&positions);
        produce_schema(results, available, max_ops, step + 1, copied);
    }
    let ghost mid = results@;
    let a_i = available as i64;
    let mo_i = max_ops as i64;
    let st_i = step as i64;
    let slack = st_i - 2 - (mo_i - 1 - a_i);
    let usable = if a_i <= slack {
        a_i
    } else {
        slack
    };
    if usable > 0 {
        let mut new_positions = positions;
        new_positions.push(step + (max_ops - available));
        produce_schema(results, available - 1, max_ops, step, new_positions);
    }
    proof {
        let deferred = if step < max_ops + 1 {
            produce_spec(available as int, max_ops as int, step as int + 1, positions@)
        } else {
            Seq::<Seq<usize>>::empty()
        };
        let usable_g = min_int(
            available as int,
            step as int - 2 - (max_ops as int - 1 - available as int),
        );
        let consumed = if usable_g > 0 {
            produce_spec(
                available as int - 1,
                max_ops as int,
                step as int,
                positions@.push((step + (max_ops - available)) as usize),
            )
        } else {
            Seq::<Seq<usize>>::empty()
        };
        assert(out =~= deferred + consumed);
        assert(mid.subrange(0, pre.len() as int) =~= pre);
        assert(results@.subrange(0, pre.len() as int) =~= pre);
        assert forall|i: int| 0 <= i < out.len() implies fresh_schema_for(
            #[trigger] results@[pre.len() + i],
            out[i],
        ) by {
            if i < deferred.len() {
                assert(results@[pre.len() + i] == mid[pre.len() + i]);
                assert(out[i] == deferred[i]);
            } else {
                assert(out[i] == consumed[i - deferred.len()]);
                assert(results@[pre.len() + i] == results@[mid.len() + (i - deferred.len())]);
            }
        }
    }
}

/// Generate the complete set of skeletons for the given operand sequence:
/// one per position list of the recursion, each carrying the operand
/// tokens, with all of its slots open.
pub fn generate_schemes(operands: Vec<u64>) -> (results: Vec<Schema>)
    requires
        1 <= operands@.len() <= 0x1000_0000,
    ensures
        results@.len() == schemes_spec(operands@.len() as nat).len(),
        forall|i: int|
            0 <= i < results@.len() ==> labeled_schema_for(
                #[trigger] results@[i],
                schemes_spec(operands@.len() as nat)[i],
                operands@,
            ),
        forall|i: int| 0 <= i < results@.len() ==> (#[trigger] results@[i]).wf(),
{
    let ghost n = operands@.len() as nat;
    let mut skeletons: Vec<Schema> = Vec::new();
    let start_positions: Vec<usize> = Vec::new();
    let ghost pos0 = start_positions@;
    produce_schema(&mut skeletons, operands.len() - 1, operands.len() - 1, 0, start_positions);
    proof {
        assert(pos0 =~= Seq::<usize>::empty());
        assert(schemes_spec(n) == produce_spec(n - 1, n - 1, 0, pos0));
        assert(skeletons@.subrange(0, 0) =~= Seq::<Schema>::empty());
        assert forall|k: int| 0 <= k < skeletons@.len() implies fresh_schema_for(
            #[trigger] skeletons@[k],
            schemes_spec(n)[k],
        ) by {
            assert(fresh_schema_for(skeletons@[0 + k], produce_spec(n - 1, n - 1, 0, pos0)[k]));
        }
    }
    let tokens = operand_tokens(&operands);
    let mut results: Vec<Schema> = Vec::new();
    let mut i: usize = 0;
    proof {
        assert(Seq::<Schema>::empty().subrange(0, 0) =~= skeletons@.subrange(0, 0));
    }
    while i < skeletons.len()
        invariant
            i <= skeletons@.len(),
            skeletons@.len() == schemes_spec(n).len(),
            forall|k: int|
                0 <= k < skeletons@.len() ==> fresh_schema_for(
                    #[trigger] skeletons@[k],
                    schemes_spec(n)[k],
                ),
            tokens@ == operand_token_seq(operands@),
            results@.len() == i,
            forall|k: int|
                0 <= k < i ==> labeled_schema_for(
                    #[trigger] results@[k],
                    schemes_spec(n)[k],
                    operands@,
                ),
        decreases skeletons.len() - i,
    {
        let src = &skeletons[i];
        let mut s = Schema {
            result_vec: Vec::new(),
            positions: copy_vec(&src.positions),
            remaining: src.remaining,
            prev_not_concat_op_pos: src.prev_not_concat_op_pos,
        };
        s.set_result_vec(copy_vec(&tokens));
        results.push(s);
        i = i + 1;
    }
    proof {
        assert forall|i: int| 0 <= i < results@.len() implies (#[trigger] results@[i]).wf() by {
            lemma_schemes_shape(n, operands@, i, results@[i].model());
        }
    }
    results
}

/// The position lists of all skeletons for an operand count `n`.
pub open spec fn schemes_spec(n: nat) -> Seq<Seq<usize>>
    recommends
        n >= 1,
{
    produce_spec(n - 1, n - 1, 0, Seq::empty())
}

/// The operand sequence as literal tokens.
pub open spec fn operand_token_seq(operands: Seq<u64>) -> Seq<OperationElt> {
    operands.map_values(|v: u64| OperationElt::Operand(v))
}

/// A generated skeleton for the position list `g`, already carrying the
/// operand tokens.
pub open spec fn labeled_schema_for(s: Schema, g: Seq<usize>, operands: Seq<u64>) -> bool {
    &&& s.positions@ == g.reverse()
    &&& s.result_vec@ == operand_token_seq(operands)
    &&& s.remaining == g.len()
    &&& s.prev_not_concat_op_pos == -1
}

/// The shape generator emits at least one skeleton from every reachable
/// state: deferring to the final step always leaves every still-available
/// slot usable there.
pub proof fn lemma_produce_nonempty(av: int, mo: int, step: int, pos: Seq<usize>)
    requires
        0 <= av <= mo,
        0 <= step <= mo + 1,
    ensures
        produce_spec(av, mo, step, pos).len() >= 1,
    decreases mo + 1 - step, av,
{
    if av == 0 && step == mo + 1 {
    } else if step < mo + 1 {
        lemma_produce_nonempty(av, mo, step + 1, pos);
    } else {
        assert(min_int(av, step - 2 - (mo - 1 - av)) == av);
        lemma_produce_nonempty(av - 1, mo, step, pos.push((step + (mo - av)) as usize));
    }
}

/// Every emitted list extends the current prefix; its first new element is
/// at least the value this state would push; and no list is emitted twice.
pub proof fn lemma_produce_distinct(av: int, mo: int, step: int, pos: Seq<usize>)
    requires
        0 <= av <= mo,
        0 <= step <= mo + 1,
        mo <= 0x1000_0000,
    ensures
        forall|i: int|
            0 <= i < produce_spec(av, mo, step, pos).len() ==> pos.is_prefix_of(
                #[trigger] produce_spec(av, mo, step, pos)[i],
            ),
        forall|i: int|
            0 <= i < produce_spec(av, mo, step, pos).len() && (#[trigger] produce_spec(
                av,
                mo,
                step,
                pos,
            )[i]).len() > pos.len() ==> produce_spec(av, mo, step, pos)[i][pos.len() as int]
                >= step + (mo - av),
        forall|i: int, j: int|
            0 <= i < j < produce_spec(av, mo, step, pos).len() ==> produce_spec(av, mo, step, pos)[i]
                != produce_spec(av, mo, step, pos)[j],
    decreases mo + 1 - step, av,
{
    let out = produce_spec(av, mo, step, pos);
    if av == 0 && step == mo + 1 {
        assert(out =~= seq![pos]);
        assert(pos.is_prefix_of(pos)) by {
            assert(pos.subrange(0, pos.len() as int) =~= pos);
        }
    } else {
        let deferred = if step < mo + 1 {
            produce_spec(av, mo, step + 1, pos)
        } else {
            Seq::<Seq<usize>>::empty()
        };
        let usable = min_int(av, step - 2 - (mo - 1 - av));
        let v0 = step + (mo - av);
        let pos2 = pos.push(v0 as usize);
        let consumed = if usable > 0 {
            produce_spec(av - 1, mo, step, pos2)
        } else {
            Seq::<Seq<usize>>::empty()
        };
        assert(out =~= deferred + consumed);
        if step < mo + 1 {
            lemma_produce_distinct(av, mo, step + 1, pos);
        }
        if usable > 0 {
            lemma_produce_distinct(av - 1, mo, step, pos2);
        }
        assert forall|i: int| 0 <= i < out.len() implies pos.is_prefix_of(#[trigger] out[i]) by {
            if i < deferred.len() {
                assert(out[i] == deferred[i]);
            } else {
                let c = consumed[i - deferred.len()];
                assert(out[i] == c);
                assert(pos2.is_prefix_of(c));
                assert(pos.len() <= c.len());
                assert forall|k: int| 0 <= k < pos.len() implies c.subrange(
                    0,
                    pos.len() as int,
                )[k] == pos[k] by {
                    assert(c.subrange(0, pos2.len() as int)[k] == pos2[k]);
                }
                assert(pos =~= c.subrange(0, pos.len() as int));
            }
        }
        assert forall|i: int|
            0 <= i < out.len() && (#[trigger] out[i]).len() > pos.len() implies out[i][pos.len() as int]
            >= step + (mo - av) by {
            if i < deferred.len() {
                assert(out[i] == deferred[i]);
            } else {
                let c = consumed[i - deferred.len()];
                assert(c.subrange(0, pos2.len() as int) =~= pos2);
                assert(c[pos.len() as int] == pos2[pos.len() as int]);
                assert(c[pos.len() as int] == v0 as usize);
            }
        }
        assert forall|i: int, j: int| 0 <= i < j < out.len() implies out[i] != out[j] by {
            if j < deferred.len() {
            } else if i >= deferred.len() {
            } else {
                // i in the deferred part, j in the consumed part
                let d = deferred[i];
                let c = consumed[j - deferred.len()];
                assert(pos2.is_prefix_of(c));
                assert(pos2.len() <= c.len());
                assert(c.subrange(0, pos2.len() as int) =~= pos2);
                assert(c.subrange(0, pos2.len() as int)[pos.len() as int] == c[pos.len() as int]);
                assert(pos2[pos.len() as int] == v0 as usize);
                assert(c[pos.len() as int] == v0 as usize);
                assert(c.len() > pos.len());
                if d.len() == pos.len() {
                    assert(d != c);
                } else {
                    assert(d[pos.len() as int] >= step + 1 + (mo - av));
                    assert(d[pos.len() as int] != c[pos.len() as int]);
                }
            }
        }
    }
}

/// Every emitted list consumes all `mo` slots, and each of its elements is
/// a valid insertion index at the moment it is consumed.
pub proof fn lemma_produce_shape(av: int, mo: int, step: int, pos: Seq<usize>)
    requires
        0 <= av <= mo,
        0 <= step <= mo + 1,
        mo <= 0x1000_0000,
        av + pos.len() == mo,
        forall|m: int| 0 <= m < pos.len() ==> #[trigger] pos[m] <= mo + 1 + m,
    ensures
        forall|i: int|
            0 <= i < produce_spec(av, mo, step, pos).len() ==> (#[trigger] produce_spec(
                av,
                mo,
                step,
                pos,
            )[i]).len() == mo,
        forall|i: int, m: int|
            0 <= i < produce_spec(av, mo, step, pos).len() && 0 <= m < mo ==> #[trigger] produce_spec(
                av,
                mo,
                step,
                pos,
            )[i][m] <= mo + 1 + m,
    decreases mo + 1 - step, av,
{
    let out = produce_spec(av, mo, step, pos);
    if av == 0 && step == mo + 1 {
        assert(out =~= seq![pos]);
    } else {
        let deferred = if step < mo + 1 {
            produce_spec(av, mo, step + 1, pos)
        } else {
            Seq::<Seq<usize>>::empty()
        };
        let usable = min_int(av, step - 2 - (mo - 1 - av));
        let v0 = step + (mo - av);
        let pos2 = pos.push(v0 as usize);
        let consumed = if usable > 0 {
            produce_spec(av - 1, mo, step, pos2)
        } else {
            Seq::<Seq<usize>>::empty()
        };
        assert(out =~= deferred + consumed);
        if step < mo + 1 {
            lemma_produce_shape(av, mo, step + 1, pos);
        }
        if usable > 0 {
            assert(0 <= v0);
            assert(pos2[pos.len() as int] == v0 as usize);
            assert(forall|m: int| 0 <= m < pos2.len() ==> #[trigger] pos2[m] <= mo + 1 + m);
            lemma_produce_shape(av - 1, mo, step, pos2);
        }
        assert forall|i: int| 0 <= i < out.len() implies (#[trigger] out[i]).len() == mo by {
            if i < deferred.len() {
                assert(out[i] == deferred[i]);
            } else {
                assert(out[i] == consumed[i - deferred.len()]);
            }
        }
        assert forall|i: int, m: int|
            0 <= i < out.len() && 0 <= m < mo implies #[trigger] out[i][m] <= mo + 1 + m by {
            if i < deferred.len() {
                assert(out[i] == deferred[i]);
            } else {
                assert(out[i] == consumed[i - deferred.len()]);
            }
        }
    }
}

/// The number of operand tokens in a token sequence.
pub open spec fn count_operands(s: Seq<OperationElt>) -> nat
    decreases s.len(),
{
    if s.len() == 0 {
        0
    } else {
        (match s[0] {
            OperationElt::Operand(_) => 1nat,
            OperationElt::Operator(_) => 0nat,
        }) + count_operands(s.drop_first())
    }
}

/// The number of operator tokens in a token sequence.
pub open spec fn count_operators(s: Seq<OperationElt>) -> nat
    decreases s.len(),
{
    if s.len() == 0 {
        0
    } else {
        (match s[0] {
            OperationElt::Operand(_) => 0nat,
            OperationElt::Operator(_) => 1nat,
        }) + count_operators(s.drop_first())
    }
}

/// Inserting an operator token leaves the operand count unchanged and
/// raises the operator count by one.
pub proof fn lemma_count_insert(s: Seq<OperationElt>, i: int, op: Operator)
    requires
        0 <= i <= s.len(),
    ensures
        count_operands(s.insert(i, OperationElt::Operator(op))) == count_operands(s),
        count_operators(s.insert(i, OperationElt::Operator(op))) == count_operators(s) + 1,
    decreases s.len(),
{
    let t = s.insert(i, OperationElt::Operator(op));
    if i == 0 {
        assert(t[0] == OperationElt::Operator(op));
        assert(t.drop_first() =~= s);
    } else {
        assert(t[0] == s[0]);
        assert(t.drop_first() =~= s.drop_first().insert(i - 1, OperationElt::Operator(op)));
        lemma_count_insert(s.drop_first(), i - 1, op);
    }
}

/// A sequence of operand tokens holds no operator token.
pub proof fn lemma_count_operand_tokens(operands: Seq<u64>)
    ensures
        count_operands(operand_token_seq(operands)) == operands.len(),
        count_operators(operand_token_seq(operands)) == 0,
    decreases operands.len(),
{
    let t = operand_token_seq(operands);
    if operands.len() == 0 {
    } else {
        assert(t[0] == OperationElt::Operand(operands[0]));
        assert(t.drop_first() =~= operand_token_seq(operands.drop_first()));
        lemma_count_operand_tokens(operands.drop_first());
    }
}

/// The structural invariant, on the mathematical state.
pub open spec fn model_wf(m: SchemaModel) -> bool {
    &&& 0 <= m.remaining <= m.positions.len()
    &&& forall|j: int|
        0 <= j < m.remaining ==> #[trigger] m.positions[j] <= m.result_vec.len() + (m.remaining - 1
            - j)
}

/// Labeling a skeleton with an assignment, one insertion per symbol; the
/// placement rule may refuse the whole labeling.
pub open spec fn label_spec(m: SchemaModel, ops: Seq<Operator>) -> Option<SchemaModel>
    decreases ops.len(),
{
    if ops.len() == 0 {
        Some(m)
    } else if !model_insert_allowed(m, ops[0]) {
        None::<SchemaModel>
    } else {
        label_spec(model_insert(m, ops[0]), ops.drop_first())
    }
}

/// A fully labeled skeleton keeps its operand tokens plus exactly
/// one operator token per assignment symbol.
pub proof fn lemma_label_token_counts(m: SchemaModel, ops: Seq<Operator>)
    requires
        model_wf(m),
    ensures
        label_spec(m, ops) matches Some(m2) ==> {
            &&& count_operands(m2.result_vec) == count_operands(m.result_vec)
            &&& count_operators(m2.result_vec) == count_operators(m.result_vec) + ops.len()
            &&& model_wf(m2)
        },
    decreases ops.len(),
{
    if ops.len() == 0 {
    } else if !model_insert_allowed(m, ops[0]) {
    } else {
        let m1 = model_insert(m, ops[0]);
        assert(model_wf(m1));
        lemma_count_insert(m.result_vec, m.positions[m.remaining - 1] as int, ops[0]);
        lemma_label_token_counts(m1, ops.drop_first());
    }
}

/// The complete set of skeletons for `n >= 1` operands is never empty.
pub proof fn lemma_schemes_nonempty(n: nat)
    requires
        n >= 1,
    ensures
        schemes_spec(n).len() >= 1,
{
    lemma_produce_nonempty(n - 1, n - 1, 0, Seq::empty());
}

/// The complete set of skeletons is duplicate-free.
pub proof fn lemma_schemes_distinct(n: nat)
    requires
        1 <= n <= 0x1000_0000,
    ensures
        forall|i: int, j: int|
            0 <= i < j < schemes_spec(n).len() ==> schemes_spec(n)[i] != schemes_spec(n)[j],
{
    lemma_produce_distinct(n - 1, n - 1, 0, Seq::empty());
}

/// Every skeleton of the complete set consumes all `n - 1` slots, and a
/// skeleton carrying the operand tokens is structurally well-formed.
pub proof fn lemma_schemes_shape(n: nat, operands: Seq<u64>, i: int, m: SchemaModel)
    requires
        1 <= n <= 0x1000_0000,
        operands.len() == n,
        0 <= i < schemes_spec(n).len(),
        m.positions == schemes_spec(n)[i].reverse(),
        m.result_vec == operand_token_seq(operands),
        m.remaining == schemes_spec(n)[i].len(),
    ensures
        schemes_spec(n)[i].len() == n - 1,
        model_wf(m),
{
    lemma_produce_shape(n - 1, n - 1, 0, Seq::empty());
    let g = schemes_spec(n)[i];
    assert(g.len() == n - 1);
    assert forall|j: int| 0 <= j < m.remaining implies #[trigger] m.positions[j]
        <= m.result_vec.len() + (m.remaining - 1 - j) by {
        assert(m.positions[j] == g[g.len() - 1 - j]);
        assert(g[g.len() - 1 - j] <= (n - 1) + 1 + (g.len() - 1 - j));
    }
}

/// Every skeleton of the complete set, fully labeled with any assignment
/// the placement rule accepts, yields a token sequence with exactly `n`
/// operand tokens and `n - 1` operator tokens.
pub proof fn lemma_labeled_skeleton_counts(
    n: nat,
    operands: Seq<u64>,
    i: int,
    m: SchemaModel,
    ops: Seq<Operator>,
)
    requires
        1 <= n <= 0x1000_0000,
        operands.len() == n,
        0 <= i < schemes_spec(n).len(),
        m.positions == schemes_spec(n)[i].reverse(),
        m.result_vec == operand_token_seq(operands),
        m.remaining == schemes_spec(n)[i].len(),
        ops.len() == n - 1,
    ensures
        label_spec(m, ops) matches Some(m2) ==> {
            &&& count_operands(m2.result_vec) == n
            &&& count_operators(m2.result_vec) == n - 1
        },
{
    lemma_schemes_shape(n, operands, i, m);
    lemma_count_operand_tokens(operands);
    lemma_label_token_counts(m, ops);
}

/// Generating the set of skeletons twice for the same operand count gives
/// the same multiset of position lists: the construction is a function of
/// the count alone.
pub proof fn lemma_shape_generation_idempotent(a: Seq<Seq<usize>>, b: Seq<Seq<usize>>, n: nat)
    requires
        a == schemes_spec(n),
        b == schemes_spec(n),
    ensures
        a.to_multiset() == b.to_multiset(),
{
}

/// The operand tokens of a numeric sequence.
fn operand_tokens(operands: &Vec<u64>) -> (r: Vec<OperationElt>)
    ensures
        r@ == operand_token_seq(operands@),
{
    let mut r: Vec<OperationElt> = Vec::new();
    let mut i: usize = 0;
    while i < operands.len()
        invariant
            i <= operands@.len(),
            r@.len() == i,
            forall|j: int| 0 <= j < i ==> #[trigger] r@[j] == OperationElt::Operand(operands@[j]),
        decreases operands.len() - i,
    {
        r.push(OperationElt::Operand(operands[i]));
        i = i + 1;
    }
    proof {
        assert(r@ =~= operand_token_seq(operands@));
    }
    r
}

} // verus!
