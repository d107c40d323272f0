//! Expressions over rational numbers, evaluated one reduction step at a time.
use vstd::prelude::*;

use crate::digits::push_all;
use crate::number_parse::{parse_spec, parse_window};
use crate::number_text::as_str_spec;
use crate::rational_number::{
    add_spec, div_spec, lemma_results_wf, mul_spec, pow_spec, sub_spec, NumberDisplayFormat,
    RationalNumber,
};
use crate::scan::{chars_of, skip_spaces, skip_spaces_in, window};
use crate::{Error, Result};

verus! {

/// An operation between two values of an expression.
#[derive(Debug, Clone, Copy, PartialEq, Eq, Structural)]
pub enum ExpressionOperation {
    Exponent,
    Division,
    Multiplication,
    Addition,
    Subtraction,
}

pub type OperationPriority = u8;

/// Exponents bind tightest, then multiplication and division, then addition
/// and subtraction.
pub open spec fn priority_spec(op: ExpressionOperation) -> OperationPriority {
    match op {
        ExpressionOperation::Exponent => 2,
        ExpressionOperation::Division => 1,
        ExpressionOperation::Multiplication => 1,
        ExpressionOperation::Addition => 0,
        ExpressionOperation::Subtraction => 0,
    }
}

pub open spec fn op_name(op: ExpressionOperation) -> Seq<char> {
    match op {
        ExpressionOperation::Exponent => "Exponent"@,
        ExpressionOperation::Division => "Division"@,
        ExpressionOperation::Multiplication => "Multiplication"@,
        ExpressionOperation::Addition => "Addition"@,
        ExpressionOperation::Subtraction => "Subtraction"@,
    }
}

impl ExpressionOperation {
    /// The operation's name.
    pub fn as_str(&self) -> (r: String)
        ensures
            r@ == op_name(*self),
    {
        let s = match self {
            ExpressionOperation::Exponent => "Exponent",
            ExpressionOperation::Division => "Division",
            ExpressionOperation::Multiplication => "Multiplication",
            ExpressionOperation::Addition => "Addition",
            ExpressionOperation::Subtraction => "Subtraction",
        };
        String::from_str(s)
    }

    fn priority(&self) -> (r: OperationPriority)
        ensures
            r == priority_spec(*self),
    {
        match self {
            ExpressionOperation::Exponent => 2,
            ExpressionOperation::Division => 1,
            ExpressionOperation::Multiplication => 1,
            ExpressionOperation::Addition => 0,
            ExpressionOperation::Subtraction => 0,
        }
    }
}

/// A value of an expression: a number or a nested expression.
#[derive(Debug)]
pub enum ExpressionValue {
    Expression(Expression),
    Number(RationalNumber),
}

/// Values with the operations between them: `operations[i]` stands between
/// `values[i]` and `values[i + 1]`.
#[derive(Debug)]
pub struct Expression {
    pub values: Vec<ExpressionValue>,
    pub operations: Vec<ExpressionOperation>,
}

/// The mathematical form of an expression value.
pub enum Term {
    Num(RationalNumber),
    Group(Seq<Term>, Seq<ExpressionOperation>),
}

pub open spec fn value_term(v: ExpressionValue) -> Term
    decreases v, 0nat,
{
    match v {
        ExpressionValue::Number(n) => Term::Num(n),
        ExpressionValue::Expression(e) => Term::Group(values_terms(e.values@, 0), e.operations@),
    }
}

pub open spec fn values_terms(vs: Seq<ExpressionValue>, i: nat) -> Seq<Term>
    decreases vs, vs.len() - i,
{
    if i >= vs.len() {
        Seq::empty()
    } else {
        seq![value_term(vs[i as int])] + values_terms(vs, i + 1)
    }
}

impl View for ExpressionValue {
    type V = Term;

    open spec fn view(&self) -> Term {
        value_term(*self)
    }
}

impl View for Expression {
    type V = Term;

    open spec fn view(&self) -> Term {
        Term::Group(values_terms(self.values@, 0), self.operations@)
    }
}

/// Every group has one operation fewer than values, and every number a
/// non-zero denominator.
pub open spec fn term_wf(t: Term) -> bool
    decreases t,
{
    match t {
        Term::Num(n) => n.wf(),
        Term::Group(vs, ops) => vs.len() >= 1 && ops.len() + 1 == vs.len() && forall|i: int|
            0 <= i < vs.len() ==> term_wf(#[trigger] vs[i]),
    }
}

impl Expression {
    pub open spec fn wf(&self) -> bool {
        term_wf(self@)
    }
}

pub open spec fn term_size(t: Term) -> nat
    decreases t, 0nat,
{
    match t {
        Term::Num(n) => 1,
        Term::Group(vs, ops) => 1 + terms_size(vs, 0),
    }
}

pub open spec fn terms_size(vs: Seq<Term>, i: nat) -> nat
    decreases vs, vs.len() - i,
{
    if i >= vs.len() {
        0
    } else {
        term_size(vs[i as int]) + terms_size(vs, i + 1)
    }
}

/// The index of the leftmost operation of highest priority, searching from `i`
/// with `best` the best so far.
pub open spec fn best_op_from(ops: Seq<ExpressionOperation>, i: nat, best: nat) -> nat
    decreases ops.len() - i,
{
    if i >= ops.len() {
        best
    } else if priority_spec(ops[i as int]) > priority_spec(ops[best as int]) {
        best_op_from(ops, i + 1, i)
    } else {
        best_op_from(ops, i + 1, best)
    }
}

/// The operation that is applied next.
pub open spec fn next_op(ops: Seq<ExpressionOperation>) -> nat {
    best_op_from(ops, 1, 0)
}

pub open spec fn apply_op(op: ExpressionOperation, a: RationalNumber, b: RationalNumber) -> Result<
    RationalNumber,
> {
    match op {
        ExpressionOperation::Exponent => pow_spec(a, b),
        ExpressionOperation::Division => div_spec(a, b),
        ExpressionOperation::Multiplication => mul_spec(a, b),
        ExpressionOperation::Addition => add_spec(a, b),
        ExpressionOperation::Subtraction => sub_spec(a, b),
    }
}

/// `s` with the two entries at `k` and `k + 1` replaced by `x`.
pub open spec fn splice<T>(s: Seq<T>, k: int, x: T) -> Seq<T> {
    s.subrange(0, k).push(x) + s.subrange(k + 2, s.len() as int)
}

/// Numbers and operations reduced by precedence, leftmost first within a tier.
pub open spec fn reduce(nums: Seq<RationalNumber>, ops: Seq<ExpressionOperation>) -> Result<
    RationalNumber,
>
    decreases nums.len(),
{
    let k = next_op(ops);
    if ops.len() == 0 || k + 1 >= nums.len() {
        Ok(nums[0])
    } else {
        match apply_op(ops[k as int], nums[k as int], nums[k + 1 as int]) {
            Err(e) => Err(e),
            Ok(v) => reduce(splice(nums, k as int, v), ops.remove(k as int)),
        }
    }
}

/// The value of a term: nested groups first, left to right, then the
/// operations by precedence.
pub open spec fn eval_term(t: Term) -> Result<RationalNumber>
    decreases t, 0nat,
{
    match t {
        Term::Num(n) => Ok(n),
        Term::Group(vs, ops) => match eval_terms(vs, 0) {
            Ok(nums) => reduce(nums, ops),
            Err(e) => Err(e),
        },
    }
}

pub open spec fn eval_terms(vs: Seq<Term>, i: nat) -> Result<Seq<RationalNumber>>
    decreases vs, vs.len() - i,
{
    if i >= vs.len() {
        Ok(Seq::empty())
    } else {
        match eval_term(vs[i as int]) {
            Err(e) => Err(e),
            Ok(n) => match eval_terms(vs, i + 1) {
                Err(e) => Err(e),
                Ok(rest) => Ok(seq![n] + rest),
            },
        }
    }
}

/// The index of the first nested group from `i` on, or the length.
pub open spec fn first_group_from(vs: Seq<Term>, i: nat) -> nat
    decreases vs.len() - i,
{
    if i >= vs.len() {
        i
    } else if vs[i as int] is Group {
        i
    } else {
        first_group_from(vs, i + 1)
    }
}

/// `r` is what one reduction step makes of `t`: a step inside the first nested
/// group, else the single value, else the next operation applied.
pub open spec fn step_rel(t: Term, r: Result<Term>) -> bool
    decreases t,
{
    match t {
        Term::Num(_) => false,
        Term::Group(vs, ops) => {
            let i = first_group_from(vs, 0);
            if i < vs.len() {
                match r {
                    Err(x) => step_rel(vs[i as int], Err(x)),
                    Ok(Term::Group(vs2, ops2)) => {
                        &&& ops2 == ops
                        &&& vs2.len() == vs.len()
                        &&& forall|j: int| 0 <= j < vs.len() && j != i ==> vs2[j] == vs[j]
                        &&& step_rel(vs[i as int], Ok(vs2[i as int]))
                    },
                    Ok(Term::Num(_)) => false,
                }
            } else if vs.len() == 1 {
                r == Ok::<Term, Error>(vs[0])
            } else {
                let k = next_op(ops);
                match apply_op(ops[k as int], vs[k as int]->Num_0, vs[k + 1 as int]->Num_0) {
                    Err(x) => r == Err::<Term, Error>(x),
                    Ok(v) => if vs.len() == 2 {
                        r == Ok::<Term, Error>(Term::Num(v))
                    } else {
                        r == Ok::<Term, Error>(
                            Term::Group(splice(vs, k as int, Term::Num(v)), ops.remove(k as int)),
                        )
                    },
                }
            }
        },
    }
}

pub open spec fn map_term(r: Result<ExpressionValue>) -> Result<Term> {
    match r {
        Ok(v) => Ok(v@),
        Err(e) => Err(e),
    }
}

pub proof fn lemma_values_terms(vs: Seq<ExpressionValue>, i: nat)
    requires
        i <= vs.len(),
    ensures
        values_terms(vs, i).len() == vs.len() - i,
        forall|j: int| 0 <= j < vs.len() - i ==> #[trigger] values_terms(vs, i)[j] == value_term(vs[i + j]),
    decreases vs.len() - i,
{
    if i < vs.len() {
        lemma_values_terms(vs, i + 1);
        assert forall|j: int| 0 <= j < vs.len() - i implies #[trigger] values_terms(vs, i)[j] == value_term(vs[i + j]) by {
            if j > 0 {
                assert(values_terms(vs, i)[j] == values_terms(vs, i + 1)[j - 1]);
            }
        }
    }
}

/// The terms of two value sequences agree when the values' terms do.
proof fn lemma_values_terms_ext(a: Seq<ExpressionValue>, b: Seq<Term>)
    requires
        a.len() == b.len(),
        forall|j: int| 0 <= j < a.len() ==> value_term(#[trigger] a[j]) == b[j],
    ensures
        values_terms(a, 0) == b,
{
    lemma_values_terms(a, 0);
    assert(values_terms(a, 0) =~= b);
}

fn copy_value(v: &ExpressionValue) -> (r: ExpressionValue)
    ensures
        r@ == v@,
    decreases v, 1nat,
{
    match v {
        ExpressionValue::Number(n) => ExpressionValue::Number(*n),
        ExpressionValue::Expression(e) => ExpressionValue::Expression(copy_expression(e)),
    }
}

fn copy_expression(e: &Expression) -> (r: Expression)
    ensures
        r@ == e@,
    decreases e, 0nat,
{
    let mut values: Vec<ExpressionValue> = Vec::new();
    let mut i: usize = 0;
    while i < e.values.len()
        invariant
            i <= e.values@.len(),
            values@.len() == i,
            forall|j: int| 0 <= j < i ==> value_term(#[trigger] values@[j]) == value_term(e.values@[j]),
        decreases e.values@.len() - i,
    {
        proof {
            assert(decreases_to!(e => e.values));
            assert(decreases_to!(e.values => e.values@[i as int]));
        }
        let v = copy_value(&e.values[i]);
        values.push(v);
        i = i + 1;
    }
    let mut operations: Vec<ExpressionOperation> = Vec::new();
    let mut k: usize = 0;
    while k < e.operations.len()
        invariant
            k <= e.operations@.len(),
            operations@ == e.operations@.subrange(0, k as int),
        decreases e.operations@.len() - k,
    {
        operations.push(e.operations[k]);
        k = k + 1;
        proof {
            assert(operations@ =~= e.operations@.subrange(0, k as int));
        }
    }
    proof {
        lemma_values_terms(e.values@, 0);
        lemma_values_terms_ext(values@, values_terms(e.values@, 0));
        assert(operations@ =~= e.operations@);
    }
    Expression { values, operations }
}


/// The numbers of a sequence of terms that are all numbers.
pub open spec fn nums_of(vs: Seq<Term>) -> Seq<RationalNumber> {
    Seq::new(vs.len(), |j: int| vs[j]->Num_0)
}

pub open spec fn all_nums(vs: Seq<Term>) -> bool {
    forall|j: int| 0 <= j < vs.len() ==> (#[trigger] vs[j]) is Num
}

proof fn lemma_best_op(ops: Seq<ExpressionOperation>, i: nat, best: nat)
    requires
        best < ops.len(),
    ensures
        best_op_from(ops, i, best) < ops.len(),
    decreases ops.len() - i,
{
    if i < ops.len() {
        if priority_spec(ops[i as int]) > priority_spec(ops[best as int]) {
            lemma_best_op(ops, i + 1, i);
        } else {
            lemma_best_op(ops, i + 1, best);
        }
    }
}

proof fn lemma_first_group(vs: Seq<Term>, i: nat)
    requires
        i <= vs.len(),
    ensures
        i <= first_group_from(vs, i) <= vs.len(),
        forall|j: int| i <= j < first_group_from(vs, i) ==> (#[trigger] vs[j]) is Num,
        first_group_from(vs, i) < vs.len() ==> vs[first_group_from(vs, i) as int] is Group,
    decreases vs.len() - i,
{
    if i < vs.len() && !(vs[i as int] is Group) {
        lemma_first_group(vs, i + 1);
    }
}

proof fn lemma_eval_terms_congruent(a: Seq<Term>, b: Seq<Term>, k: nat)
    requires
        a.len() == b.len(),
        forall|j: int| 0 <= j < a.len() ==> eval_term(#[trigger] a[j]) == eval_term(b[j]),
    ensures
        eval_terms(a, k) == eval_terms(b, k),
    decreases a.len() - k,
{
    if k < a.len() {
        lemma_eval_terms_congruent(a, b, k + 1);
        assert(eval_term(a[k as int]) == eval_term(b[k as int]));
    }
}

proof fn lemma_eval_terms_error(vs: Seq<Term>, i: nat, k: nat, x: Error)
    requires
        k <= i < vs.len(),
        forall|j: int| k <= j < i ==> (#[trigger] vs[j]) is Num,
        eval_term(vs[i as int]) == Err::<RationalNumber, Error>(x),
    ensures
        eval_terms(vs, k) == Err::<Seq<RationalNumber>, Error>(x),
    decreases i - k,
{
    if k < i {
        lemma_eval_terms_error(vs, i, k + 1, x);
        assert(vs[k as int] is Num);
        assert(eval_term(vs[k as int]) == Ok::<RationalNumber, Error>(vs[k as int]->Num_0));
    }
}

proof fn lemma_eval_terms_nums(vs: Seq<Term>, k: nat)
    requires
        k <= vs.len(),
        all_nums(vs),
    ensures
        eval_terms(vs, k) == Ok::<Seq<RationalNumber>, Error>(
            nums_of(vs).subrange(k as int, vs.len() as int),
        ),
    decreases vs.len() - k,
{
    if k < vs.len() {
        lemma_eval_terms_nums(vs, k + 1);
        assert(vs[k as int] is Num);
        assert(eval_term(vs[k as int]) == Ok::<RationalNumber, Error>(vs[k as int]->Num_0));
        assert(seq![nums_of(vs)[k as int]] + nums_of(vs).subrange(k + 1 as int, vs.len() as int)
            =~= nums_of(vs).subrange(k as int, vs.len() as int));
    } else {
        assert(nums_of(vs).subrange(k as int, vs.len() as int) =~= Seq::<RationalNumber>::empty());
    }
}

proof fn lemma_terms_size_same(a: Seq<Term>, b: Seq<Term>, k: nat)
    requires
        a.len() == b.len(),
        forall|j: int| k <= j < a.len() ==> a[j] == b[j],
    ensures
        terms_size(a, k) == terms_size(b, k),
    decreases a.len() - k,
{
    if k < a.len() {
        lemma_terms_size_same(a, b, k + 1);
    }
}

proof fn lemma_terms_size_smaller(a: Seq<Term>, b: Seq<Term>, i: nat, k: nat)
    requires
        a.len() == b.len(),
        k <= i < a.len(),
        forall|j: int| 0 <= j < a.len() && j != i ==> a[j] == b[j],
        term_size(b[i as int]) < term_size(a[i as int]),
    ensures
        terms_size(b, k) < terms_size(a, k),
    decreases i - k,
{
    if k < i {
        lemma_terms_size_smaller(a, b, i, k + 1);
    } else {
        lemma_terms_size_same(a, b, i + 1);
    }
}

proof fn lemma_terms_size_nums(vs: Seq<Term>, k: nat)
    requires
        k <= vs.len(),
        all_nums(vs),
    ensures
        terms_size(vs, k) == vs.len() - k,
    decreases vs.len() - k,
{
    if k < vs.len() {
        lemma_terms_size_nums(vs, k + 1);
        assert(vs[k as int] is Num);
        assert(term_size(vs[k as int]) == 1);
    }
}

proof fn lemma_apply_wf(op: ExpressionOperation, a: RationalNumber, b: RationalNumber)
    requires
        a.wf(),
        b.wf(),
    ensures
        apply_op(op, a, b) matches Ok(v) ==> v.wf(),
{
    lemma_results_wf(a, b);
}

/// One reduction step keeps the value, keeps the expression well formed and
/// makes it smaller.
pub proof fn lemma_step(t: Term, r: Result<Term>)
    requires
        term_wf(t),
        t is Group,
        step_rel(t, r),
    ensures
        r matches Err(x) ==> eval_term(t) == Err::<RationalNumber, Error>(x),
        r matches Ok(t2) ==> eval_term(t2) == eval_term(t) && term_wf(t2) && term_size(t2)
            < term_size(t),
    decreases t,
{
    let vs = t->Group_0;
    let ops = t->Group_1;
    lemma_first_group(vs, 0);
    let i = first_group_from(vs, 0);
    if i < vs.len() {
        let sub = vs[i as int];
        assert(term_wf(sub));
        match r {
            Err(x) => {
                lemma_step(sub, Err(x));
                lemma_eval_terms_error(vs, i, 0, x);
            },
            Ok(t2) => {
                let vs2 = t2->Group_0;
                lemma_step(sub, Ok(vs2[i as int]));
                assert forall|j: int| 0 <= j < vs.len() implies eval_term(#[trigger] vs[j])
                    == eval_term(vs2[j]) by {
                    if j != i {
                        assert(vs2[j] == vs[j]);
                    }
                }
                lemma_eval_terms_congruent(vs, vs2, 0);
                assert forall|j: int| 0 <= j < vs2.len() implies term_wf(#[trigger] vs2[j]) by {
                    if j != i {
                        assert(vs2[j] == vs[j]);
                        assert(term_wf(vs[j]));
                    }
                }
                lemma_terms_size_smaller(vs, vs2, i, 0);
                assert(eval_term(t2) == eval_term(t));
                assert(term_wf(t2));
                assert(term_size(t2) < term_size(t));
            },
        }
    } else {
        assert(all_nums(vs));
        lemma_eval_terms_nums(vs, 0);
        assert(nums_of(vs).subrange(0, vs.len() as int) =~= nums_of(vs));
        let nums = nums_of(vs);
        lemma_terms_size_nums(vs, 0);
        if vs.len() == 1 {
            assert(term_wf(vs[0]));
            assert(vs[0] is Num);
            assert(term_size(vs[0]) == 1);
            assert(eval_term(vs[0]) == Ok::<RationalNumber, Error>(nums[0]));
        } else {
            lemma_best_op(ops, 1, 0);
            let k = next_op(ops);
            assert(term_wf(vs[k as int]) && term_wf(vs[k + 1 as int]));
            lemma_apply_wf(ops[k as int], nums[k as int], nums[k + 1 as int]);
            match apply_op(ops[k as int], nums[k as int], nums[k + 1 as int]) {
                Err(x) => {},
                Ok(v) => {
                    if vs.len() == 2 {
                        assert(splice(nums, k as int, v).len() == 1);
                        assert(splice(nums, k as int, v)[0] == v);
                        assert(ops.remove(k as int).len() == 0);
                        assert(reduce(splice(nums, k as int, v), ops.remove(k as int)) == Ok::<RationalNumber, Error>(v));
                        assert(eval_term(t) == reduce(nums, ops));
                        assert(eval_term(Term::Num(v)) == eval_term(t));
                    } else {
                        let vs2 = splice(vs, k as int, Term::Num(v));
                        assert(all_nums(vs2));
                        lemma_eval_terms_nums(vs2, 0);
                        assert(nums_of(vs2).subrange(0, vs2.len() as int) =~= nums_of(vs2));
                        assert(nums_of(vs2) =~= splice(nums, k as int, v));
                        assert forall|j: int| 0 <= j < vs2.len() implies term_wf(#[trigger] vs2[j]) by {
                            if j < k {
                                assert(vs2[j] == vs[j]);
                                assert(term_wf(vs[j]));
                            } else if j > k {
                                assert(vs2[j] == vs[j + 1]);
                                assert(term_wf(vs[j + 1]));
                            }
                        }
                        lemma_terms_size_nums(vs2, 0);
                        lemma_terms_size_nums(vs, 0);
                        assert(vs2.len() == vs.len() - 1);
                        assert(ops.remove(k as int).len() + 1 == vs2.len());
                        assert(term_wf(Term::Group(vs2, ops.remove(k as int))));
                        assert(eval_term(t) == reduce(nums, ops));
                        assert(eval_term(Term::Group(vs2, ops.remove(k as int))) == reduce(splice(nums, k as int, v), ops.remove(k as int)));
                    }
                },
            }
        }
    }
}


fn copy_operations(ops: &Vec<ExpressionOperation>) -> (r: Vec<ExpressionOperation>)
    ensures
        r@ == ops@,
{
    let mut out: Vec<ExpressionOperation> = Vec::new();
    let mut k: usize = 0;
    while k < ops.len()
        invariant
            k <= ops@.len(),
            out@ == ops@.subrange(0, k as int),
        decreases ops@.len() - k,
    {
        out.push(ops[k]);
        k = k + 1;
        proof {
            assert(out@ =~= ops@.subrange(0, k as int));
        }
    }
    proof {
        assert(out@ =~= ops@);
    }
    out
}

/// Appends copies of `values[from..to]`.
fn push_copies(out: &mut Vec<ExpressionValue>, values: &Vec<ExpressionValue>, from: usize, to: usize)
    requires
        from <= to <= values@.len(),
    ensures
        final(out)@.len() == old(out)@.len() + (to - from),
        forall|j: int| 0 <= j < old(out)@.len() ==> final(out)@[j] == old(out)@[j],
        forall|j: int|
            0 <= j < to - from ==> value_term(#[trigger] final(out)@[old(out)@.len() + j])
                == value_term(values@[from + j]),
{
    let ghost start = out@.len();
    let mut k = from;
    while k < to
        invariant
            from <= k <= to <= values@.len(),
            out@.len() == start + (k - from),
            start == old(out)@.len(),
            forall|j: int| 0 <= j < start ==> out@[j] == old(out)@[j],
            forall|j: int|
                0 <= j < k - from ==> value_term(#[trigger] out@[start + j]) == value_term(
                    values@[from + j],
                ),
        decreases to - k,
    {
        let v = copy_value(&values[k]);
        out.push(v);
        k = k + 1;
    }
}

impl ExpressionValue {
    /// The nested expression of an expression value.
    pub fn expression(&self) -> (r: &Expression)
        requires
            self is Expression,
        ensures
            *r == self->Expression_0,
    {
        match self {
            ExpressionValue::Expression(e) => e,
            ExpressionValue::Number(_) => {
                vstd::pervasive::unreached()
            },
        }
    }

    /// The number of a number value.
    pub fn number(&self) -> (r: &RationalNumber)
        requires
            self is Number,
        ensures
            *r == self->Number_0,
    {
        match self {
            ExpressionValue::Number(n) => n,
            ExpressionValue::Expression(_) => {
                vstd::pervasive::unreached()
            },
        }
    }
}

impl Expression {
    /// An expression of a single value.
    pub fn new(value: ExpressionValue) -> (r: Expression)
        ensures
            r@ == Term::Group(seq![value@], Seq::empty()),
    {
        let mut values: Vec<ExpressionValue> = Vec::new();
        values.push(value);
        let r = Expression { values, operations: Vec::new() };
        proof {
            lemma_values_terms_ext(r.values@, seq![value@]);
        }
        r
    }

    /// The values, in order.
    pub fn values(&self) -> (r: &Vec<ExpressionValue>)
        ensures
            r == &self.values,
    {
        &self.values
    }

    /// The operations, in order.
    pub fn operations(&self) -> (r: &Vec<ExpressionOperation>)
        ensures
            r == &self.operations,
    {
        &self.operations
    }

    /// A new expression with `operation` and `value` appended.
    pub fn push(&self, operation: ExpressionOperation, value: ExpressionValue) -> (r: Expression)
        ensures
            r@ == Term::Group(
                self@->Group_0.push(value@),
                self@->Group_1.push(operation),
            ),
            self.wf() && term_wf(value@) ==> r.wf(),
    {
        let mut values: Vec<ExpressionValue> = Vec::new();
        push_copies(&mut values, &self.values, 0, self.values.len());
        let ghost before = values@;
        values.push(value);
        let mut operations = copy_operations(&self.operations);
        operations.push(operation);
        proof {
            lemma_values_terms(self.values@, 0);
            assert forall|j: int| 0 <= j < values@.len() implies value_term(#[trigger] values@[j])
                == self@->Group_0.push(value@)[j] by {
                if j < self.values@.len() {
                    assert(values@[j] == before[0 + j]);
                }
            }
            lemma_values_terms_ext(values@, self@->Group_0.push(value@));
        }
        let r = Expression { values, operations };
        proof {
            if self.wf() && term_wf(value@) {
                let vs = r@->Group_0;
                assert forall|j: int| 0 <= j < vs.len() implies term_wf(#[trigger] vs[j]) by {
                    if j < self@->Group_0.len() {
                        assert(vs[j] == self@->Group_0[j]);
                    }
                }
            }
        }
        r
    }

    /// A new expression raised to `value`.
    pub fn pow(&self, value: ExpressionValue) -> (r: Expression)
        ensures
            r@ == Term::Group(
                self@->Group_0.push(value@),
                self@->Group_1.push(ExpressionOperation::Exponent),
            ),
            self.wf() && term_wf(value@) ==> r.wf(),
    {
        self.push(ExpressionOperation::Exponent, value)
    }

    /// The value of the expression, found by reducing it step by step.
    pub fn evaluate(&self) -> (r: Result<RationalNumber>)
        requires
            self.wf(),
        ensures
            r == eval_term(self@),
    {
        let mut expr = copy_expression(self);
        loop
            invariant
                expr.wf(),
                eval_term(expr@) == eval_term(self@),
            decreases term_size(expr@),
        {
            let next = expr.evaluate_next();
            proof {
                lemma_step(expr@, map_term(next));
            }
            match next {
                Err(e) => {
                    return Err(e);
                },
                Ok(ExpressionValue::Number(n)) => {
                    return Ok(n);
                },
                Ok(ExpressionValue::Expression(e)) => {
                    expr = e;
                },
            }
        }
    }

    /// One reduction step: inside the first nested expression if there is
    /// one, else the next operation by precedence.
    pub fn evaluate_next(&self) -> (r: Result<ExpressionValue>)
        requires
            self.wf(),
        ensures
            step_rel(self@, map_term(r)),
        decreases self, 1nat,
    {
        if let Some(r) = self.evaluate_next_expression() {
            return r;
        }
        self.evaluate_next_operation()
    }

    fn evaluate_next_expression(&self) -> (r: Option<Result<ExpressionValue>>)
        requires
            self.wf(),
        ensures
            first_group_from(self@->Group_0, 0) < self.values@.len() ==> (r matches Some(x)
                && step_rel(self@, map_term(x))),
            first_group_from(self@->Group_0, 0) >= self.values@.len() ==> r is None,
        decreases self, 0nat,
    {
        let ghost vs = self@->Group_0;
        proof {
            lemma_values_terms(self.values@, 0);
            lemma_first_group(vs, 0);
        }
        let mut i: usize = 0;
        while i < self.values.len()
            invariant
                i <= self.values@.len(),
                vs == self@->Group_0,
                vs.len() == self.values@.len(),
                forall|j: int| 0 <= j < vs.len() ==> #[trigger] vs[j] == value_term(self.values@[j]),
                forall|j: int| 0 <= j < i ==> (#[trigger] vs[j]) is Num,
                first_group_from(vs, 0) >= i,
                first_group_from(vs, 0) <= vs.len(),
                forall|j: int| 0 <= j < first_group_from(vs, 0) ==> (#[trigger] vs[j]) is Num,
                first_group_from(vs, 0) < vs.len() ==> vs[first_group_from(vs, 0) as int] is Group,
                self.wf(),
            decreases self.values@.len() - i,
        {
            proof {
                assert(vs[i as int] == value_term(self.values@[i as int]));
            }
            match &self.values[i] {
                ExpressionValue::Expression(sub) => {
                    proof {
                        assert(decreases_to!(self => self.values));
                        assert(decreases_to!(self.values => self.values@[i as int]));
                        assert(vs[i as int] is Group);
                        assert(first_group_from(vs, 0) == i) by {
                            if first_group_from(vs, 0) > i {
                                assert(vs[i as int] is Num);
                            }
                        }
                        assert(sub@ == vs[i as int]);
                        assert(term_wf(vs[i as int]));
                    }
                    let stepped = sub.evaluate_next();
                    match stepped {
                        Err(e) => {
                            return Some(Err(e));
                        },
                        Ok(v) => {
                            let ghost vt = v@;
                            let mut values: Vec<ExpressionValue> = Vec::new();
                            push_copies(&mut values, &self.values, 0, i);
                            let ghost before = values@;
                            values.push(v);
                            let ghost middle = values@;
                            push_copies(&mut values, &self.values, i + 1, self.values.len());
                            let operations = copy_operations(&self.operations);
                            proof {
                                let vs2 = vs.update(i as int, vt);
                                assert forall|j: int| 0 <= j < values@.len() implies value_term(
                                    #[trigger] values@[j],
                                ) == vs2[j] by {
                                    if j < i {
                                        assert(values@[j] == middle[j]);
                                        assert(middle[j] == before[0 + j]);
                                    } else if j == i {
                                        assert(values@[j] == middle[j]);
                                    } else {
                                        assert(values@[j] == values@[middle.len() + (j - i - 1)]);
                                    }
                                }
                                lemma_values_terms_ext(values@, vs2);
                            }
                            return Some(
                                Ok(ExpressionValue::Expression(Expression { values, operations })),
                            );
                        },
                    }
                },
                ExpressionValue::Number(_) => {},
            }
            i = i + 1;
        }
        None
    }

    fn evaluate_next_operation(&self) -> (r: Result<ExpressionValue>)
        requires
            self.wf(),
            first_group_from(self@->Group_0, 0) >= self.values@.len(),
        ensures
            step_rel(self@, map_term(r)),
    {
        let ghost vs = self@->Group_0;
        let ghost ops = self@->Group_1;
        proof {
            lemma_values_terms(self.values@, 0);
            lemma_first_group(vs, 0);
        }
        let len = self.values.len();
        if len == 1 {
            return Ok(copy_value(&self.values[0]));
        }
        let mut best: usize = 0;
        let mut i: usize = 1;
        while i < self.operations.len()
            invariant
                ops == self.operations@,
                1 <= i <= ops.len(),
                best < i,
                best_op_from(ops, 1, 0) == best_op_from(ops, i as nat, best as nat),
            decreases ops.len() - i,
        {
            if self.operations[i].priority() > self.operations[best].priority() {
                best = i;
            }
            i = i + 1;
        }
        let k = best;
        proof {
            assert(vs[k as int] == value_term(self.values@[k as int]));
            assert(vs[k + 1] == value_term(self.values@[k + 1]));
            assert(vs[k as int] is Num && vs[k + 1] is Num);
            assert(term_wf(vs[k as int]) && term_wf(vs[k + 1]));
        }
        let a = self.values[k].number();
        let b = self.values[k + 1].number();
        let val = match self.operations[k] {
            ExpressionOperation::Exponent => a.pow(b),
            ExpressionOperation::Division => a.div(b),
            ExpressionOperation::Multiplication => a.mul(b),
            ExpressionOperation::Addition => a.add(b),
            ExpressionOperation::Subtraction => a.sub(b),
        };
        let val = match val {
            Err(e) => {
                return Err(e);
            },
            Ok(v) => v,
        };
        if len == 2 {
            return Ok(ExpressionValue::Number(val));
        }
        let mut values: Vec<ExpressionValue> = Vec::new();
        push_copies(&mut values, &self.values, 0, k);
        let ghost before = values@;
        values.push(ExpressionValue::Number(val));
        let ghost middle = values@;
        push_copies(&mut values, &self.values, k + 2, len);
        let mut operations: Vec<ExpressionOperation> = Vec::new();
        let mut j: usize = 0;
        while j < self.operations.len()
            invariant
                ops == self.operations@,
                k < ops.len(),
                j <= ops.len(),
                operations@ == ops.remove(k as int).subrange(0, if j <= k { j as int } else { j - 1 }),
            decreases ops.len() - j,
        {
            if j != k {
                operations.push(self.operations[j]);
            }
            j = j + 1;
            proof {
                assert(operations@ =~= ops.remove(k as int).subrange(0, if j <= k { j as int } else { j - 1 }));
            }
        }
        proof {
            assert(operations@ =~= ops.remove(k as int));
            let vs2 = splice(vs, k as int, Term::Num(val));
            assert forall|m: int| 0 <= m < values@.len() implies value_term(#[trigger] values@[m])
                == vs2[m] by {
                if m < k {
                    assert(values@[m] == middle[m]);
                    assert(middle[m] == before[0 + m]);
                } else if m == k {
                    assert(values@[m] == middle[m]);
                } else {
                    assert(values@[m] == values@[middle.len() + (m - k - 1)]);
                }
            }
            lemma_values_terms_ext(values@, vs2);
        }
        Ok(ExpressionValue::Expression(Expression { values, operations }))
    }
}


/// The symbol written after a value, spaced as the text form has it.
pub open spec fn op_text(op: ExpressionOperation) -> Seq<char> {
    match op {
        ExpressionOperation::Exponent => seq!['^'],
        ExpressionOperation::Division => seq![' ', '-', ':', ' '],
        ExpressionOperation::Multiplication => seq![' ', '*', ' '],
        ExpressionOperation::Addition => seq![' ', '+', ' '],
        ExpressionOperation::Subtraction => seq![' ', '-', ' '],
    }
}

/// The text of a group: each value (nested groups in parentheses, numbers in
/// their own format) followed by the operation after it.
pub open spec fn term_text(t: Term) -> Seq<char>
    decreases t, 0nat,
{
    match t {
        Term::Num(n) => as_str_spec(n, n.format),
        Term::Group(vs, ops) => terms_text(vs, ops, 0),
    }
}

pub open spec fn terms_text(vs: Seq<Term>, ops: Seq<ExpressionOperation>, i: nat) -> Seq<char>
    decreases vs, vs.len() - i,
{
    if i >= vs.len() {
        Seq::empty()
    } else {
        let value = match vs[i as int] {
            Term::Num(n) => as_str_spec(n, n.format),
            Term::Group(_, _) => seq!['('] + term_text(vs[i as int]) + seq![')'],
        };
        let op = if i < ops.len() {
            op_text(ops[i as int])
        } else {
            Seq::empty()
        };
        value + op + terms_text(vs, ops, i + 1)
    }
}

fn push_op_text(out: &mut String, op: ExpressionOperation)
    ensures
        final(out)@ == old(out)@ + op_text(op),
{
    let ghost start = out@;
    match op {
        ExpressionOperation::Exponent => {
            out.push('^');
        },
        ExpressionOperation::Division => {
            out.push(' ');
            out.push('-');
            out.push(':');
            out.push(' ');
        },
        ExpressionOperation::Multiplication => {
            out.push(' ');
            out.push('*');
            out.push(' ');
        },
        ExpressionOperation::Addition => {
            out.push(' ');
            out.push('+');
            out.push(' ');
        },
        ExpressionOperation::Subtraction => {
            out.push(' ');
            out.push('-');
            out.push(' ');
        },
    }
    proof {
        assert(out@ =~= start + op_text(op));
    }
}

proof fn lemma_terms_text_split(vs: Seq<Term>, ops: Seq<ExpressionOperation>, i: nat)
    requires
        i < vs.len(),
    ensures
        terms_text(vs, ops, i) == (match vs[i as int] {
            Term::Num(n) => as_str_spec(n, n.format),
            Term::Group(_, _) => seq!['('] + term_text(vs[i as int]) + seq![')'],
        }) + (if i < ops.len() {
            op_text(ops[i as int])
        } else {
            Seq::empty()
        }) + terms_text(vs, ops, i + 1),
{
}

fn write_expression(e: &Expression, out: &mut String)
    requires
        e.wf(),
    ensures
        final(out)@ == old(out)@ + term_text(e@),
    decreases e,
{
    let ghost vs = e@->Group_0;
    let ghost ops = e@->Group_1;
    let ghost start = out@;
    proof {
        lemma_values_terms(e.values@, 0);
    }
    let mut i: usize = 0;
    while i < e.values.len()
        invariant
            i <= e.values@.len(),
            vs == e@->Group_0,
            ops == e@->Group_1,
            e.wf(),
            vs.len() == e.values@.len(),
            forall|j: int| 0 <= j < vs.len() ==> #[trigger] vs[j] == value_term(e.values@[j]),
            out@ + terms_text(vs, ops, i as nat) == start + terms_text(vs, ops, 0),
        decreases e.values@.len() - i,
    {
        let ghost before = out@;
        proof {
            lemma_terms_text_split(vs, ops, i as nat);
            assert(vs[i as int] == value_term(e.values@[i as int]));
            assert(term_wf(vs[i as int]));
        }
        match &e.values[i] {
            ExpressionValue::Number(n) => {
                let text = n.as_str(None);
                push_all(out, text.as_str());
            },
            ExpressionValue::Expression(sub) => {
                proof {
                    assert(decreases_to!(e => e.values));
                    assert(decreases_to!(e.values => e.values@[i as int]));
                }
                out.push('(');
                write_expression(sub, out);
                out.push(')');
            },
        }
        let ghost middle = out@;
        if i < e.operations.len() {
            push_op_text(out, e.operations[i]);
        }
        i = i + 1;
        proof {
            assert(out@ + terms_text(vs, ops, i as nat) == start + terms_text(vs, ops, 0)) by {
                assert(middle =~= before + (match vs[i - 1] {
                    Term::Num(n) => as_str_spec(n, n.format),
                    Term::Group(_, _) => seq!['('] + term_text(vs[i - 1]) + seq![')'],
                }));
                assert(out@ =~= middle + (if i - 1 < ops.len() {
                    op_text(ops[i - 1])
                } else {
                    Seq::empty()
                }));
                assert(before + terms_text(vs, ops, (i - 1) as nat) =~= out@ + terms_text(vs, ops, i as nat));
            }
        }
    }
    proof {
        assert(out@ =~= start + terms_text(vs, ops, 0));
    }
}

impl Expression {
    /// The expression written out: values with the operations between them,
    /// nested expressions in parentheses.
    pub fn to_string(&self) -> (r: String)
        requires
            self.wf(),
        ensures
            r@ == term_text(self@),
    {
        let mut s = String::new();
        write_expression(self, &mut s);
        proof {
            assert(s@ =~= term_text(self@));
        }
        s
    }
}

impl From<Expression> for ExpressionValue {
    fn from(e: Expression) -> (r: ExpressionValue) {
        ExpressionValue::Expression(e)
    }
}

impl vstd::std_specs::convert::FromSpecImpl<Expression> for ExpressionValue {
    open spec fn obeys_from_spec() -> bool {
        true
    }

    open spec fn from_spec(e: Expression) -> ExpressionValue {
        ExpressionValue::Expression(e)
    }
}

impl From<RationalNumber> for ExpressionValue {
    fn from(n: RationalNumber) -> (r: ExpressionValue) {
        ExpressionValue::Number(n)
    }
}

impl vstd::std_specs::convert::FromSpecImpl<RationalNumber> for ExpressionValue {
    open spec fn obeys_from_spec() -> bool {
        true
    }

    open spec fn from_spec(n: RationalNumber) -> ExpressionValue {
        ExpressionValue::Number(n)
    }
}

impl From<u32> for ExpressionValue {
    fn from(n: u32) -> (r: ExpressionValue) {
        ExpressionValue::Number(RationalNumber::from(n))
    }
}

impl vstd::std_specs::convert::FromSpecImpl<u32> for ExpressionValue {
    open spec fn obeys_from_spec() -> bool {
        true
    }

    open spec fn from_spec(n: u32) -> ExpressionValue {
        ExpressionValue::Number(
            RationalNumber {
                numerator: n,
                denominator: 1,
                negative: false,
                format: NumberDisplayFormat::Decimal(None),
            },
        )
    }
}

impl From<i32> for ExpressionValue {
    fn from(n: i32) -> (r: ExpressionValue) {
        ExpressionValue::Number(RationalNumber::from(n))
    }
}

impl vstd::std_specs::convert::FromSpecImpl<i32> for ExpressionValue {
    open spec fn obeys_from_spec() -> bool {
        true
    }

    open spec fn from_spec(n: i32) -> ExpressionValue {
        ExpressionValue::Number(
            RationalNumber {
                numerator: (if n < 0 { -n } else { n as int }) as u32,
                denominator: 1,
                negative: n < 0,
                format: NumberDisplayFormat::Decimal(None),
            },
        )
    }
}

impl Expression {
    /// A new expression with `+ rhs` appended.
    pub fn add(&self, rhs: ExpressionValue) -> (r: Expression)
        ensures
            r@ == Term::Group(
                self@->Group_0.push(rhs@),
                self@->Group_1.push(ExpressionOperation::Addition),
            ),
            self.wf() && term_wf(rhs@) ==> r.wf(),
    {
        self.push(ExpressionOperation::Addition, rhs)
    }

    /// A new expression with `- rhs` appended.
    pub fn sub(&self, rhs: ExpressionValue) -> (r: Expression)
        ensures
            r@ == Term::Group(
                self@->Group_0.push(rhs@),
                self@->Group_1.push(ExpressionOperation::Subtraction),
            ),
            self.wf() && term_wf(rhs@) ==> r.wf(),
    {
        self.push(ExpressionOperation::Subtraction, rhs)
    }

    /// A new expression with `* rhs` appended.
    pub fn mul(&self, rhs: ExpressionValue) -> (r: Expression)
        ensures
            r@ == Term::Group(
                self@->Group_0.push(rhs@),
                self@->Group_1.push(ExpressionOperation::Multiplication),
            ),
            self.wf() && term_wf(rhs@) ==> r.wf(),
    {
        self.push(ExpressionOperation::Multiplication, rhs)
    }

    /// A new expression with `/ rhs` appended.
    pub fn div(&self, rhs: ExpressionValue) -> (r: Expression)
        ensures
            r@ == Term::Group(
                self@->Group_0.push(rhs@),
                self@->Group_1.push(ExpressionOperation::Division),
            ),
            self.wf() && term_wf(rhs@) ==> r.wf(),
    {
        self.push(ExpressionOperation::Division, rhs)
    }
}


/// `p` is one operator symbol with optional space around it: `^`, `/` or
/// `-:`, `*`, `+`, `-`.
pub open spec fn op_match(p: Seq<char>) -> Option<ExpressionOperation> {
    let i0 = skip_spaces(p, 0);
    if i0 >= p.len() {
        None
    } else {
        let c = p[i0 as int];
        let two = c == '-' && i0 + 1 < p.len() && p[i0 + 1 as int] == ':';
        let end = if two {
            i0 + 2
        } else {
            i0 + 1
        };
        let op = if two {
            Some(ExpressionOperation::Division)
        } else if c == '^' {
            Some(ExpressionOperation::Exponent)
        } else if c == '/' {
            Some(ExpressionOperation::Division)
        } else if c == '*' {
            Some(ExpressionOperation::Multiplication)
        } else if c == '+' {
            Some(ExpressionOperation::Addition)
        } else if c == '-' {
            Some(ExpressionOperation::Subtraction)
        } else {
            None
        };
        if skip_spaces(p, end) == p.len() {
            op
        } else {
            None
        }
    }
}

/// The longest prefix of `t`, at most `i` long, that is an operator.
pub open spec fn longest_op(t: Seq<char>, i: nat) -> Option<(nat, ExpressionOperation)>
    decreases i,
{
    if i <= t.len() && op_match(t.subrange(0, i as int)) is Some {
        Some((i, op_match(t.subrange(0, i as int))->Some_0))
    } else if i == 0 {
        None
    } else {
        longest_op(t, (i - 1) as nat)
    }
}

/// The longest prefix of `t`, at most `i` long, that is a number.
pub open spec fn longest_number(t: Seq<char>, i: nat) -> Option<(nat, RationalNumber)>
    decreases i,
{
    if i <= t.len() && parse_spec(t.subrange(0, i as int)) is Ok {
        Some((i, parse_spec(t.subrange(0, i as int))->Ok_0))
    } else if i == 0 {
        None
    } else {
        longest_number(t, (i - 1) as nat)
    }
}

/// The index of the bracket that closes a group, scanning from `j` at nesting
/// `depth`; only brackets of the group's own kind count.
pub open spec fn close_from(t: Seq<char>, j: nat, open: char, close: char, depth: nat) -> Option<nat>
    decreases t.len() - j,
{
    if j >= t.len() {
        None
    } else if t[j as int] == open {
        close_from(t, j + 1, open, close, depth + 1)
    } else if t[j as int] == close {
        if depth <= 1 {
            Some(j)
        } else {
            close_from(t, j + 1, open, close, (depth - 1) as nat)
        }
    } else {
        close_from(t, j + 1, open, close, depth)
    }
}

/// A bracketed group at the start of `t`, after space: `Some(None)` when none
/// starts there, `None` when it is unclosed, empty or malformed inside, else
/// the index past its closing bracket and its term.
pub open spec fn group_spec(t: Seq<char>) -> Option<Option<(nat, Term)>>
    decreases t.len(), 0nat, 0nat,
{
    let i0 = skip_spaces(t, 0);
    if i0 >= t.len() || !(t[i0 as int] == '(' || t[i0 as int] == '[') {
        Some(None)
    } else {
        let open = t[i0 as int];
        let close = if open == '(' {
            ')'
        } else {
            ']'
        };
        match close_from(t, i0 + 1, open, close, 1) {
            None => None,
            Some(end) => if i0 + 1 < end && end < t.len() {
                match expr_spec(t.subrange(i0 + 1 as int, end as int)) {
                    None => None,
                    Some(e) => Some(Some(((end + 1) as nat, e))),
                }
            } else {
                None
            },
        }
    }
}

/// The value at the start of `t`: the longest number, else a group.
pub open spec fn value_spec(t: Seq<char>) -> Option<(nat, Term)>
    decreases t.len(), 1nat, 0nat,
{
    match longest_number(t, t.len()) {
        Some((i, n)) => Some((i, Term::Num(n))),
        None => match group_spec(t) {
            Some(Some((i, e))) => Some((i, e)),
            _ => None,
        },
    }
}

/// The rest of an expression from `idx` on, with the values and operations
/// read so far: an operator and a value, or a group multiplied by juxtaposition.
pub open spec fn rest_spec(
    t: Seq<char>,
    idx: nat,
    vs: Seq<Term>,
    ops: Seq<ExpressionOperation>,
) -> Option<Term>
    decreases t.len(), 2nat, t.len() - idx,
{
    if idx >= t.len() {
        Some(Term::Group(vs, ops))
    } else {
        let rest = t.subrange(idx as int, t.len() as int);
        match longest_op(rest, rest.len()) {
            Some((i, op)) => if i > 0 && idx + i <= t.len() {
                match value_spec(t.subrange(idx + i as int, t.len() as int)) {
                    None => None,
                    Some((j, v)) => if idx + i + j <= t.len() {
                        rest_spec(t, idx + i + j, vs.push(v), ops.push(op))
                    } else {
                        None
                    },
                }
            } else {
                None
            },
            None => match group_spec(rest) {
                Some(Some((j, e))) => if j > 0 && idx + j <= t.len() {
                    rest_spec(t, idx + j, vs.push(e), ops.push(ExpressionOperation::Multiplication))
                } else {
                    None
                },
                _ => None,
            },
        }
    }
}

/// The expression a text writes, if it writes one.
pub open spec fn expr_spec(t: Seq<char>) -> Option<Term>
    decreases t.len(), 3nat, 0nat,
{
    match value_spec(t) {
        None => None,
        Some((i, v)) => rest_spec(t, i, seq![v], Seq::empty()),
    }
}

fn op_match_in(v: &Vec<char>, a: usize, b: usize) -> (r: Option<ExpressionOperation>)
    requires
        a <= b <= v@.len(),
    ensures
        r == op_match(window(v@, a, b)),
{
    let len = b - a;
    let i0 = skip_spaces_in(v, a, b, 0);
    if i0 >= len {
        return None;
    }
    let c = v[a + i0];
    let two = c == '-' && i0 + 1 < len && v[a + i0 + 1] == ':';
    let end = if two { i0 + 2 } else { i0 + 1 };
    let op = if two {
        Some(ExpressionOperation::Division)
    } else if c == '^' {
        Some(ExpressionOperation::Exponent)
    } else if c == '/' {
        Some(ExpressionOperation::Division)
    } else if c == '*' {
        Some(ExpressionOperation::Multiplication)
    } else if c == '+' {
        Some(ExpressionOperation::Addition)
    } else if c == '-' {
        Some(ExpressionOperation::Subtraction)
    } else {
        None
    };
    if skip_spaces_in(v, a, b, end) == len {
        op
    } else {
        None
    }
}

proof fn lemma_window_prefix(v: Seq<char>, a: usize, b: usize, i: usize)
    requires
        a <= b <= v.len(),
        i <= b - a,
    ensures
        window(v, a, (a + i) as usize) == window(v, a, b).subrange(0, i as int),
{
    assert(window(v, a, (a + i) as usize) =~= window(v, a, b).subrange(0, i as int));
}

proof fn lemma_window_suffix(v: Seq<char>, a: usize, b: usize, i: usize)
    requires
        a <= b <= v.len(),
        i <= b - a,
    ensures
        window(v, (a + i) as usize, b) == window(v, a, b).subrange(i as int, (b - a) as int),
{
    assert(window(v, (a + i) as usize, b) =~= window(v, a, b).subrange(i as int, (b - a) as int));
}

/// The longest operator at the start of `v[a..b]`, and its length.
fn parse_first_operation(v: &Vec<char>, a: usize, b: usize) -> (r: Option<(usize, ExpressionOperation)>)
    requires
        a <= b <= v@.len(),
    ensures
        match longest_op(window(v@, a, b), (b - a) as nat) {
            Some((i, op)) => r == Some((i as usize, op)) && i <= b - a,
            None => r is None,
        },
{
    let ghost t = window(v@, a, b);
    let mut i = b - a;
    loop
        invariant
            a <= b <= v@.len(),
            i <= b - a,
            t == window(v@, a, b),
            longest_op(t, (b - a) as nat) == longest_op(t, i as nat),
        decreases i,
    {
        proof {
            lemma_window_prefix(v@, a, b, i);
        }
        if let Some(op) = op_match_in(v, a, a + i) {
            return Some((i, op));
        }
        if i == 0 {
            return None;
        }
        i = i - 1;
    }
}

/// The longest number at the start of `v[a..b]`, and its length.
fn parse_first_number(v: &Vec<char>, a: usize, b: usize) -> (r: Option<(usize, RationalNumber)>)
    requires
        a <= b <= v@.len(),
    ensures
        match longest_number(window(v@, a, b), (b - a) as nat) {
            Some((i, n)) => r == Some((i as usize, n)) && i <= b - a && n.wf(),
            None => r is None,
        },
{
    let ghost t = window(v@, a, b);
    let mut i = b - a;
    loop
        invariant
            a <= b <= v@.len(),
            i <= b - a,
            t == window(v@, a, b),
            longest_number(t, (b - a) as nat) == longest_number(t, i as nat),
        decreases i,
    {
        proof {
            lemma_window_prefix(v@, a, b, i);
        }
        if let Ok(n) = parse_window(v, a, a + i) {
            return Some((i, n));
        }
        if i == 0 {
            return None;
        }
        i = i - 1;
    }
}

/// The index of the bracket that closes a group opened before `j`.
fn close_in(v: &Vec<char>, a: usize, b: usize, j: usize, open: char, close: char) -> (r: Option<usize>)
    requires
        a <= b <= v@.len(),
        j >= 1,
    ensures
        r == (match close_from(window(v@, a, b), j as nat, open, close, 1) {
            Some(e) => Some(e as usize),
            None => None::<usize>,
        }),
        r matches Some(e) ==> j <= e < b - a && close_from(window(v@, a, b), j as nat, open, close, 1)
            == Some(e as nat),
        r is None ==> close_from(window(v@, a, b), j as nat, open, close, 1) is None,
{
    let ghost t = window(v@, a, b);
    let mut k = j;
    let mut depth: usize = 1;
    while k < b - a
        invariant
            a <= b <= v@.len(),
            t == window(v@, a, b),
            j <= k,
            j >= 1,
            1 <= depth <= k - j + 1,
            close_from(t, j as nat, open, close, 1) == close_from(t, k as nat, open, close, depth as nat),
        decreases b - a - k,
    {
        let c = v[a + k];
        if c == open {
            depth = depth + 1;
        } else if c == close {
            if depth <= 1 {
                return Some(k);
            }
            depth = depth - 1;
        }
        k = k + 1;
    }
    None
}

fn group_in(v: &Vec<char>, a: usize, b: usize) -> (r: Result<Option<(usize, Expression)>>)
    requires
        a <= b <= v@.len(),
    ensures
        match group_spec(window(v@, a, b)) {
            None => r == Err::<Option<(usize, Expression)>, Error>(Error::ParseExpression),
            Some(None) => r == Ok::<Option<(usize, Expression)>, Error>(None),
            Some(Some((i, e))) => r matches Ok(Some((ri, re))) && ri == i && re@ == e && re.wf()
                && 0 < i <= b - a,
        },
    decreases b - a, 0nat, 0nat,
{
    let ghost t = window(v@, a, b);
    let len = b - a;
    let i0 = skip_spaces_in(v, a, b, 0);
    if i0 >= len || !(v[a + i0] == '(' || v[a + i0] == '[') {
        proof {
            assert(group_spec(t) == Some(None::<(nat, Term)>));
        }
        return Ok(None);
    }
    let open = v[a + i0];
    let close = if open == '(' { ')' } else { ']' };
    let found = close_in(v, a, b, i0 + 1, open, close);
    let end = match found {
        None => {
            proof {
                assert(close_from(t, i0 as nat + 1, open, close, 1) is None);
                assert(group_spec(t) == None::<Option<(nat, Term)>>);
            }
            return Err(Error::ParseExpression);
        },
        Some(e) => e,
    };
    proof {
        assert(close_from(t, i0 as nat + 1, open, close, 1) == Some(end as nat));
    }
    if !(i0 + 1 < end) {
        proof {
            assert(group_spec(t) == None::<Option<(nat, Term)>>);
        }
        return Err(Error::ParseExpression);
    }
    let ghost inner = t.subrange(i0 + 1 as int, end as int);
    proof {
        assert(window(v@, (a + i0 + 1) as usize, (a + end) as usize) =~= inner);
        assert(group_spec(t) == match expr_spec(inner) {
            None => None,
            Some(e) => Some(Some(((end + 1) as nat, e))),
        });
    }
    match parse_expression_in(v, a + i0 + 1, a + end) {
        Err(e) => Err(e),
        Ok(e) => Ok(Some((end + 1, e))),
    }
}

fn parse_first_expression_value(v: &Vec<char>, a: usize, b: usize) -> (r: Result<(usize, ExpressionValue)>)
    requires
        a <= b <= v@.len(),
    ensures
        match value_spec(window(v@, a, b)) {
            None => r == Err::<(usize, ExpressionValue), Error>(Error::ParseExpression),
            Some((i, t)) => r matches Ok((ri, rv)) && ri == i && rv@ == t && term_wf(t) && i <= b
                - a,
        },
    decreases b - a, 1nat, 0nat,
{
    if let Some((i, n)) = parse_first_number(v, a, b) {
        return Ok((i, ExpressionValue::Number(n)));
    }
    match group_in(v, a, b) {
        Ok(Some((i, e))) => Ok((i, ExpressionValue::Expression(e))),
        _ => Err(Error::ParseExpression),
    }
}

proof fn lemma_push_terms(values: Seq<ExpressionValue>, x: ExpressionValue)
    ensures
        values_terms(values.push(x), 0) == values_terms(values, 0).push(value_term(x)),
{
    lemma_values_terms(values, 0);
    let s = values.push(x);
    assert forall|j: int| 0 <= j < s.len() implies value_term(#[trigger] s[j]) == values_terms(
        values,
        0,
    ).push(value_term(x))[j] by {
        if j < values.len() {
            assert(s[j] == values[j]);
        }
    }
    lemma_values_terms_ext(s, values_terms(values, 0).push(value_term(x)));
}

pub(crate) fn parse_expression_in(v: &Vec<char>, a: usize, b: usize) -> (r: Result<Expression>)
    requires
        a <= b <= v@.len(),
    ensures
        match expr_spec(window(v@, a, b)) {
            None => r == Err::<Expression, Error>(Error::ParseExpression),
            Some(t) => r matches Ok(e) && e@ == t && e.wf(),
        },
    decreases b - a, 3nat, 0nat,
{
    let ghost t = window(v@, a, b);
    let len = b - a;
    let (first_len, first) = parse_first_expression_value(v, a, b)?;
    let mut index = first_len;
    let mut values: Vec<ExpressionValue> = Vec::new();
    values.push(first);
    let mut operations: Vec<ExpressionOperation> = Vec::new();
    proof {
        lemma_push_terms(Seq::empty(), first);
        assert(values@ =~= Seq::<ExpressionValue>::empty().push(first));
        assert(values_terms(Seq::<ExpressionValue>::empty(), 0) =~= Seq::<Term>::empty());
        assert(operations@ =~= Seq::<ExpressionOperation>::empty());
    }
    while index < len
        invariant
            a <= b <= v@.len(),
            len == b - a,
            t == window(v@, a, b),
            index <= len,
            expr_spec(t) == rest_spec(t, index as nat, values_terms(values@, 0), operations@),
            term_wf(Term::Group(values_terms(values@, 0), operations@)),
        decreases len - index,
    {
        let ghost vs = values_terms(values@, 0);
        let ghost ops = operations@;
        proof {
            lemma_window_suffix(v@, a, b, index);
        }
        if let Some((i, op)) = parse_first_operation(v, a + index, b) {
            if i == 0 {
                return Err(Error::ParseExpression);
            }
            proof {
                lemma_window_suffix(v@, a, b, (index + i) as usize);
                assert(window(v@, (a + index + i) as usize, b) =~= t.subrange(index + i as int, len as int));
            }
            let (j, value) = parse_first_expression_value(v, a + index + i, b)?;
            index = index + i + j;
            proof {
                lemma_push_terms(values@, value);
                lemma_values_terms(values@, 0);
            }
            values.push(value);
            operations.push(op);
            proof {
                let vs2 = values_terms(values@, 0);
                assert forall|m: int| 0 <= m < vs2.len() implies term_wf(#[trigger] vs2[m]) by {
                    if m < vs.len() {
                        assert(vs2[m] == vs[m]);
                    }
                }
            }
        } else {
            match group_in(v, a + index, b) {
                Ok(Some((j, e))) => {
                    let value = ExpressionValue::Expression(e);
                    index = index + j;
                    proof {
                        lemma_push_terms(values@, value);
                        lemma_values_terms(values@, 0);
                    }
                    values.push(value);
                    operations.push(ExpressionOperation::Multiplication);
                    proof {
                        let vs2 = values_terms(values@, 0);
                        assert forall|m: int| 0 <= m < vs2.len() implies term_wf(#[trigger] vs2[m]) by {
                            if m < vs.len() {
                                assert(vs2[m] == vs[m]);
                            }
                        }
                    }
                },
                _ => {
                    return Err(Error::ParseExpression);
                },
            }
        }
    }
    Ok(Expression { values, operations })
}

/// The deepest bracket nesting accepted in a text, which bounds the depth of
/// recursion in reading and evaluating it.
pub const MAX_NESTING: usize = 128;

/// The deepest bracket nesting from index `i` on, entered at depth `depth`.
pub open spec fn nesting_from(t: Seq<char>, i: nat, depth: nat) -> nat
    decreases t.len() - i,
{
    if i >= t.len() {
        depth
    } else {
        let c = t[i as int];
        let next = if c == '(' || c == '[' {
            depth + 1
        } else if (c == ')' || c == ']') && depth > 0 {
            (depth - 1) as nat
        } else {
            depth
        };
        let rest = nesting_from(t, i + 1, next);
        if depth > rest {
            depth
        } else {
            rest
        }
    }
}

/// The deepest bracket nesting of a text.
pub open spec fn nesting(t: Seq<char>) -> nat {
    nesting_from(t, 0, 0)
}

/// The deepest bracket nesting of the characters of `v` from `a` up to `b`.
pub(crate) fn nesting_in(v: &Vec<char>, a: usize, b: usize) -> (r: usize)
    requires
        a <= b <= v@.len(),
    ensures
        r == nesting(window(v@, a, b)),
{
    let ghost t = window(v@, a, b);
    let mut i: usize = 0;
    let mut depth: usize = 0;
    let mut deepest: usize = 0;
    while i < b - a
        invariant
            a <= b <= v@.len(),
            t == window(v@, a, b),
            i <= b - a,
            depth <= i,
            deepest <= i,
            nesting(t) == (if deepest > nesting_from(t, i as nat, depth as nat) {
                deepest as nat
            } else {
                nesting_from(t, i as nat, depth as nat)
            }),
        decreases b - a - i,
    {
        if depth > deepest {
            deepest = depth;
        }
        let c = v[a + i];
        if c == '(' || c == '[' {
            depth = depth + 1;
        } else if (c == ')' || c == ']') && depth > 0 {
            depth = depth - 1;
        }
        i = i + 1;
    }
    if depth > deepest {
        deepest = depth;
    }
    deepest
}

/// A bracketed group, `(...)` or `[...]`, at the start of the text after
/// space: `Ok(None)` when none starts there, an error when it is unclosed,
/// empty, malformed inside or nested deeper than `MAX_NESTING`, else the index
/// past its closing bracket and the expression inside.
pub fn parse_first_expression(expression: &str) -> (r: Result<Option<(usize, Expression)>>)
    ensures
        match group_spec(expression@) {
            None => r == Err::<Option<(usize, Expression)>, Error>(Error::ParseExpression),
            Some(None) => r == Ok::<Option<(usize, Expression)>, Error>(None),
            Some(Some((i, e))) => if nesting(expression@.subrange(0, i as int)) > MAX_NESTING {
                r == Err::<Option<(usize, Expression)>, Error>(Error::ParseExpression)
            } else {
                r matches Ok(Some((ri, re))) && ri == i && re@ == e && re.wf()
            },
        },
{
    let v = chars_of(expression);
    let len = v.len();
    let ghost t = expression@;
    proof {
        assert(window(v@, 0, len) =~= t);
    }
    let i0 = skip_spaces_in(&v, 0, len, 0);
    if i0 < len && (v[i0] == '(' || v[i0] == '[') {
        let open = v[i0];
        let close = if open == '(' { ')' } else { ']' };
        if let Some(end) = close_in(&v, 0, len, i0 + 1, open, close) {
            if nesting_in(&v, 0, end + 1) > MAX_NESTING {
                proof {
                    assert(window(v@, 0, (end + 1) as usize) =~= t.subrange(0, end + 1));
                }
                return Err(Error::ParseExpression);
            }
        }
    }
    group_in(&v, 0, len)
}

} // verus!
