use vstd::prelude::*;
use crate::error::CalculatorError;
use crate::operator::CalculatorOperator;

verus! {

/// The operands that an operator takes from the value stack: `first` is
/// absent for the unary minus.
#[derive(Debug)]
pub struct Operands<V> {
    pub first: Option<V>,
    pub second: V,
}

/// The value stack of a postfix evaluation. The values are of any type:
/// what they are and how operators combine them is up to the caller, which
/// pushes each number and each operator's result.
#[derive(Debug)]
pub struct ValueStack<V> {
    values: Vec<V>,
}

impl<V> View for ValueStack<V> {
    type V = Seq<V>;

    /// The values from bottom to top.
    closed spec fn view(&self) -> Seq<V> {
        self.values@
    }
}

impl<V> ValueStack<V> {
    pub fn new() -> (r: ValueStack<V>)
        ensures
            r@ == Seq::<V>::empty(),
    {
        ValueStack { values: Vec::new() }
    }

    pub fn push(&mut self, value: V)
        ensures
            final(self)@ == old(self)@.push(value),
    {
        self.values.push(value);
    }

    /// Takes the operands of `op` from the top of the stack: the top value is
    /// the second operand, the one below it the first. Fails, and leaves the
    /// stack as it was, when the stack holds fewer values than `op` takes.
    pub fn take_operands(&mut self, op: CalculatorOperator) -> (r: Result<
        Operands<V>,
        CalculatorError,
    >)
        ensures
            old(self)@.len() < op.arity() ==> r == Err::<Operands<V>, CalculatorError>(
                CalculatorError::OperatorWithoutANumber(op.symbol()),
            ) && final(self)@ == old(self)@,
            old(self)@.len() >= op.arity() ==> {
                let n = old(self)@.len();
                &&& r is Ok
                &&& r->Ok_0.second == old(self)@[n - 1]
                &&& r->Ok_0.first == if op is Inverse {
                    None
                } else {
                    Some(old(self)@[n - 2])
                }
                &&& final(self)@ == old(self)@.subrange(0, n - op.arity())
            },
    {
        if self.values.len() < op.arity() {
            return Err(CalculatorError::OperatorWithoutANumber(op.symbol()));
        }
        let ghost before = self.values@;
        let second = self.values.pop().unwrap();
        let first = match op {
            CalculatorOperator::Inverse => None,
            _ => self.values.pop(),
        };
        assert(self.values@ =~= before.subrange(0, before.len() - op.arity()));
        Ok(Operands { first, second })
    }

    /// The result of the evaluation: the value on top of the stack, or
    /// `EmptyInput` when the stack is empty.
    pub fn answer(self) -> (r: Result<V, CalculatorError>)
        ensures
            self@.len() == 0 ==> r == Err::<V, CalculatorError>(CalculatorError::EmptyInput),
            self@.len() > 0 ==> r == Ok::<V, CalculatorError>(self@.last()),
    {
        let mut values = self.values;
        match values.pop() {
            Some(value) => Ok(value),
            None => Err(CalculatorError::EmptyInput),
        }
    }
}

} // verus!
