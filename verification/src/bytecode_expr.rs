//! Expressions over the fields of a tuple, written for a stack machine.
use vstd::prelude::*;
use crate::field::{value_sum, Field, Value};
use crate::tuple::{Row, Tuple};

verus! {

/// The instructions of the stack machine. An instruction is written into an expression as
/// its place in this list.
#[derive(Clone, Copy, Debug, PartialEq, Eq)]
pub enum ByteCodes {
    /// Pushes the field whose index is the code that follows.
    PushField,
    /// Pops two fields and pushes their sum.
    Add,
}

/// The code of `ByteCodes::PushField`.
pub const PUSH_FIELD: usize = 0;

/// The code of `ByteCodes::Add`.
pub const ADD: usize = 1;

/// What is left on top of the stack once `codes` have been run on a row; `None` where the
/// machine gets stuck: on a code that is no instruction, a column that the row has not, a
/// stack too short, or a sum that does not exist.
pub open spec fn run(codes: Seq<usize>, stack: Seq<Value>, row: Row) -> Option<Value>
    decreases codes.len(),
{
    if codes.len() == 0 {
        if stack.len() > 0 {
            Some(stack.last())
        } else {
            None
        }
    } else if codes[0] == PUSH_FIELD {
        if codes.len() >= 2 && codes[1] < row.len() {
            run(codes.skip(2), stack.push(row[codes[1] as int]), row)
        } else {
            None
        }
    } else if codes[0] == ADD {
        if stack.len() >= 2 {
            match value_sum(stack[stack.len() - 2], stack[stack.len() - 1]) {
                Ok(v) => run(codes.skip(1), stack.take(stack.len() - 2).push(v), row),
                Err(_) => None,
            }
        } else {
            None
        }
    } else {
        None
    }
}

/// An expression.
#[derive(Debug, PartialEq, Eq)]
pub struct ByteCodeExpr {
    bytecodes: Vec<usize>,
}

impl View for ByteCodeExpr {
    type V = Seq<usize>;

    closed spec fn view(&self) -> Seq<usize> {
        self.bytecodes@
    }
}

impl ByteCodeExpr {
    /// Whether the expression has a value on a row.
    pub open spec fn evaluates(&self, row: Row) -> bool {
        run(self@, Seq::empty(), row) is Some
    }

    /// The value of the expression on a row where it has one.
    pub open spec fn value(&self, row: Row) -> Value {
        run(self@, Seq::empty(), row)->0
    }

    /// The expression without instructions.
    pub fn new() -> (r: ByteCodeExpr)
        ensures
            r@ == Seq::<usize>::empty(),
    {
        ByteCodeExpr { bytecodes: Vec::new() }
    }

    /// Appends a code.
    pub fn add_code(&mut self, code: usize)
        ensures
            final(self)@ == old(self)@.push(code),
    {
        self.bytecodes.push(code);
    }

    /// The value of the expression on a tuple.
    pub fn eval(&self, tuple: &Tuple) -> (r: Field)
        requires
            self.evaluates(tuple@),
        ensures
            r@ == self.value(tuple@),
    {
        let codes = &self.bytecodes;
        let fields = &tuple.field_vals;
        let mut stack: Vec<Field> = Vec::new();
        let mut i: usize = 0;
        let ghost mut model: Seq<Value> = Seq::empty();
        assert(codes@.skip(0) =~= codes@);
        while i < codes.len()
            invariant
                i <= codes.len(),
                codes@ == self@,
                tuple@ == crate::tuple::values(fields@),
                model.len() == stack@.len(),
                forall|j: int| 0 <= j < model.len() ==> model[j] == (#[trigger] stack@[j])@,
                run(codes@.skip(i as int), model, tuple@) == run(self@, Seq::empty(), tuple@),
                self.evaluates(tuple@),
            decreases codes.len() - i,
        {
            let ghost rest = codes@.skip(i as int);
            assert(rest[0] == codes@[i as int]);
            if codes[i] == PUSH_FIELD {
                assert(rest[1] == codes@[i + 1]);
                assert(rest.skip(2) =~= codes@.skip(i + 2));
                let k: usize = codes[i + 1];
                stack.push(fields[k].clone());
                proof {
                    model = model.push(tuple@[k as int]);
                }
                i = i + 2;
            } else {
                assert(rest.skip(1) =~= codes@.skip(i + 1));
                match (stack.pop(), stack.pop()) {
                    (Some(b), Some(a)) => {
                        let sum = a.plus(&b);
                        proof {
                            assert(a@ == model[model.len() - 2]);
                            assert(b@ == model[model.len() - 1]);
                        }
                        match sum {
                            Ok(v) => {
                                proof {
                                    model = model.take(model.len() - 2).push(v@);
                                }
                                stack.push(v);
                            },
                            Err(_) => {
                                assert(false);
                            },
                        }
                    },
                    _ => {
                        assert(false);
                    },
                }
                i = i + 1;
            }
        }
        assert(codes@.skip(i as int).len() == 0);
        stack.pop().unwrap()
    }
}

/// The expression that is a column.
pub fn colidx_expr(colidx: usize) -> (r: ByteCodeExpr)
    ensures
        r@ == seq![PUSH_FIELD, colidx],
{
    let mut expr = ByteCodeExpr::new();
    expr.add_code(PUSH_FIELD);
    expr.add_code(colidx);
    assert(expr@ =~= seq![PUSH_FIELD, colidx]);
    expr
}

/// A column expression has a value on exactly the rows that have the column, and the value
/// is what stands there.
pub proof fn lemma_column_expression(expr: ByteCodeExpr, colidx: usize, row: Row)
    requires
        expr@ == seq![PUSH_FIELD, colidx],
    ensures
        expr.evaluates(row) <==> colidx < row.len(),
        colidx < row.len() ==> expr.value(row) == row[colidx as int],
{
    let codes = expr@;
    assert(codes.skip(2).len() == 0);
    reveal_with_fuel(run, 2);
}

/// A formula over the columns of a row.
pub enum Formula {
    /// A column.
    Column(usize),
    /// The sum of two formulas.
    Sum(Box<Formula>, Box<Formula>),
}

impl Formula {
    /// How the formula is written for the stack machine: a sum is its two parts, one after the
    /// other, and then the instruction to add.
    pub open spec fn codes(self) -> Seq<usize>
        decreases self,
    {
        match self {
            Formula::Column(c) => seq![PUSH_FIELD, c],
            Formula::Sum(a, b) => a.codes() + b.codes() + seq![ADD],
        }
    }

    /// What the formula comes to on a row, if its columns are there and its sums exist.
    pub open spec fn worth(self, row: Row) -> Option<Value>
        decreases self,
    {
        match self {
            Formula::Column(c) => if c < row.len() {
                Some(row[c as int])
            } else {
                None
            },
            Formula::Sum(a, b) => match (a.worth(row), b.worth(row)) {
                (Some(x), Some(y)) => match value_sum(x, y) {
                    Ok(v) => Some(v),
                    Err(_) => None,
                },
                _ => None,
            },
        }
    }
}

/// However deeply sums are nested, an expression that is written like a formula has a value
/// exactly where the formula comes to something, and that is its value: a column is what
/// stands there, and a sum is the sum of what its parts come to.
pub proof fn lemma_expression_is_its_formula(expr: ByteCodeExpr, formula: Formula, row: Row)
    requires
        expr@ == formula.codes(),
    ensures
        expr.evaluates(row) <==> formula.worth(row) is Some,
        formula.worth(row) matches Some(v) ==> expr.value(row) == v,
{
    assert(formula.codes() + Seq::empty() =~= formula.codes());
    lemma_run_formula(formula, Seq::empty(), Seq::empty(), row);
}

/// Running the codes of a formula puts what it comes to on the stack, whatever lies there and
/// whatever is run afterwards.
proof fn lemma_run_formula(formula: Formula, rest: Seq<usize>, stack: Seq<Value>, row: Row)
    ensures
        run(formula.codes() + rest, stack, row) == match formula.worth(row) {
            Some(v) => run(rest, stack.push(v), row),
            None => None,
        },
    decreases formula,
{
    match formula {
        Formula::Column(c) => {
            let codes = formula.codes() + rest;
            assert(codes[0] == PUSH_FIELD && codes[1] == c);
            assert(codes.skip(2) =~= rest);
        },
        Formula::Sum(a, b) => {
            let tail = seq![ADD] + rest;
            assert(formula.codes() + rest =~= a.codes() + (b.codes() + tail));
            lemma_run_formula(*a, b.codes() + tail, stack, row);
            if let Some(x) = a.worth(row) {
                lemma_run_formula(*b, tail, stack.push(x), row);
                if let Some(y) = b.worth(row) {
                    let full = stack.push(x).push(y);
                    assert(tail[0] == ADD);
                    assert(tail.skip(1) =~= rest);
                    assert(full.take(full.len() - 2) =~= stack);
                }
            }
        },
    }
}

/// What follows codes that leave a value on top of the stack finds it there.
proof fn lemma_run_goes_on(codes: Seq<usize>, rest: Seq<usize>, stack: Seq<Value>, row: Row) -> (
    below: Seq<Value>)
    requires
        run(codes, stack, row) is Some,
    ensures
        run(codes + rest, stack, row) == run(
            rest,
            below.push(run(codes, stack, row)->0),
            row,
        ),
    decreases codes.len(),
{
    let all = codes + rest;
    if codes.len() == 0 {
        assert(all =~= rest);
        assert(stack.drop_last().push(stack.last()) =~= stack);
        stack.drop_last()
    } else if codes[0] == PUSH_FIELD {
        assert(all.skip(2) =~= codes.skip(2) + rest);
        assert(all[0] == codes[0] && all[1] == codes[1]);
        lemma_run_goes_on(codes.skip(2), rest, stack.push(row[codes[1] as int]), row)
    } else {
        assert(all.skip(1) =~= codes.skip(1) + rest);
        assert(all[0] == codes[0]);
        let v = value_sum(stack[stack.len() - 2], stack[stack.len() - 1])->Ok_0;
        lemma_run_goes_on(codes.skip(1), rest, stack.take(stack.len() - 2).push(v), row)
    }
}

/// An expression of any kind, followed by a formula and the instruction to add, is the sum of
/// what the two come to on their own.
pub proof fn lemma_sum_expression(
    first: ByteCodeExpr,
    second: Formula,
    sum: ByteCodeExpr,
    row: Row,
)
    requires
        first.evaluates(row),
        second.worth(row) is Some,
        sum@ == first@ + second.codes() + seq![ADD],
    ensures
        match value_sum(first.value(row), second.worth(row)->0) {
            Ok(v) => sum.evaluates(row) && sum.value(row) == v,
            Err(_) => !sum.evaluates(row),
        },
{
    let add = seq![ADD];
    let below = lemma_run_goes_on(first@, second.codes() + add, Seq::empty(), row);
    let x = first.value(row);
    let y = second.worth(row)->0;
    assert(sum@ =~= first@ + (second.codes() + add));
    lemma_run_formula(second, add, below.push(x), row);
    let full = below.push(x).push(y);
    assert(add.skip(1) =~= Seq::empty());
    assert(full.take(full.len() - 2) =~= below);
    reveal_with_fuel(run, 2);
}

/// An expression that ends in a column has the value of that column, whatever came before.
pub proof fn lemma_last_column(first: ByteCodeExpr, colidx: usize, expr: ByteCodeExpr, row: Row)
    requires
        first.evaluates(row),
        expr@ == first@ + seq![PUSH_FIELD, colidx],
    ensures
        expr.evaluates(row) <==> colidx < row.len(),
        colidx < row.len() ==> expr.value(row) == row[colidx as int],
{
    let push = seq![PUSH_FIELD, colidx];
    let below = lemma_run_goes_on(first@, push, Seq::empty(), row);
    assert(push.skip(2) =~= Seq::empty());
    reveal_with_fuel(run, 2);
}

} // verus!
