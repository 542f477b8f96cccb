use vstd::prelude::*;

verus! {

/// The operators that can stand in a postfix sequence. `Inverse` is the
/// unary minus; all others take two operands.
#[derive(Debug, Clone, Copy, PartialEq, Eq, Structural)]
pub enum CalculatorOperator {
    Add,
    Subtract,
    Multiply,
    Divide,
    Power,
    Inverse,
}

/// An entry of the operator stack used while converting to postfix:
/// an opening bracket waiting for its pair, or an operator waiting for
/// its right operand.
#[derive(Debug, Clone, Copy, PartialEq, Eq, Structural)]
pub enum StackEntry {
    Bracket,
    Operator(CalculatorOperator),
}

/// The binary operator that a character of an expression stands for.
pub open spec fn spec_binary_operator(c: char) -> Option<CalculatorOperator> {
    if c == '+' {
        Some(CalculatorOperator::Add)
    } else if c == '-' {
        Some(CalculatorOperator::Subtract)
    } else if c == '*' {
        Some(CalculatorOperator::Multiply)
    } else if c == '/' {
        Some(CalculatorOperator::Divide)
    } else if c == '^' {
        Some(CalculatorOperator::Power)
    } else {
        None
    }
}

/// The operator that a character names: a binary operator's own character,
/// or `~` for the unary minus.
pub open spec fn spec_operator_of(c: char) -> Option<CalculatorOperator> {
    if c == '~' {
        Some(CalculatorOperator::Inverse)
    } else {
        spec_binary_operator(c)
    }
}

impl CalculatorOperator {
    /// How tightly the operator binds: a higher value binds tighter.
    pub open spec fn spec_precedence(&self) -> u8 {
        match self {
            CalculatorOperator::Add | CalculatorOperator::Subtract => 1,
            CalculatorOperator::Multiply | CalculatorOperator::Divide => 2,
            CalculatorOperator::Power => 3,
            CalculatorOperator::Inverse => 4,
        }
    }

    /// The character that names the operator; `~` is the unary minus.
    pub open spec fn spec_symbol(&self) -> char {
        match self {
            CalculatorOperator::Add => '+',
            CalculatorOperator::Subtract => '-',
            CalculatorOperator::Multiply => '*',
            CalculatorOperator::Divide => '/',
            CalculatorOperator::Power => '^',
            CalculatorOperator::Inverse => '~',
        }
    }

    /// How many operands the operator takes from the value stack.
    pub open spec fn spec_arity(&self) -> usize {
        match self {
            CalculatorOperator::Inverse => 1,
            _ => 2,
        }
    }

    /// Reads the operator that a character names; `~` is the unary minus.
    pub fn try_from(c: char) -> (r: Option<CalculatorOperator>)
        ensures
            r == spec_operator_of(c),
    {
        if c == '+' {
            Some(CalculatorOperator::Add)
        } else if c == '-' {
            Some(CalculatorOperator::Subtract)
        } else if c == '*' {
            Some(CalculatorOperator::Multiply)
        } else if c == '/' {
            Some(CalculatorOperator::Divide)
        } else if c == '^' {
            Some(CalculatorOperator::Power)
        } else if c == '~' {
            Some(CalculatorOperator::Inverse)
        } else {
            None
        }
    }

    #[verifier::when_used_as_spec(spec_precedence)]
    pub fn precedence(&self) -> (r: u8)
        ensures
            r == self.spec_precedence(),
    {
        match *self {
            CalculatorOperator::Add | CalculatorOperator::Subtract => 1,
            CalculatorOperator::Multiply | CalculatorOperator::Divide => 2,
            CalculatorOperator::Power => 3,
            CalculatorOperator::Inverse => 4,
        }
    }

    #[verifier::when_used_as_spec(spec_symbol)]
    pub fn symbol(&self) -> (r: char)
        ensures
            r == self.spec_symbol(),
    {
        match *self {
            CalculatorOperator::Add => '+',
            CalculatorOperator::Subtract => '-',
            CalculatorOperator::Multiply => '*',
            CalculatorOperator::Divide => '/',
            CalculatorOperator::Power => '^',
            CalculatorOperator::Inverse => '~',
        }
    }

    #[verifier::when_used_as_spec(spec_arity)]
    pub fn arity(&self) -> (r: usize)
        ensures
            r == self.spec_arity(),
    {
        match *self {
            CalculatorOperator::Inverse => 1,
            _ => 2,
        }
    }
}

/// Every operator, written as its character and read back, is itself.
pub proof fn lemma_symbol_round_trip(op: CalculatorOperator)
    ensures
        spec_operator_of(op.spec_symbol()) == Some(op),
{
}

} // verus!
