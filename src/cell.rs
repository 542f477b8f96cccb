use vstd::prelude::*;
use crate::operator::CalculatorOperator;

verus! {

/// Where the value of a number in an expression comes from. The digits of
/// a literal are kept as written: turning them into a value is left to
/// whoever does the arithmetic.
#[derive(Debug, PartialEq, Eq)]
pub enum Operand {
    /// Digits with at most one decimal point, starting with a digit.
    Literal(String),
    /// The answer of the previous successful calculation (`a`).
    Answer,
    /// The number pi (`p`).
    Pi,
    /// Euler's number (`e`).
    Euler,
}

/// The mathematical content of an `Operand`.
pub enum OperandModel {
    Literal(Seq<char>),
    Answer,
    Pi,
    Euler,
}

impl View for Operand {
    type V = OperandModel;

    open spec fn view(&self) -> OperandModel {
        match self {
            Operand::Literal(text) => OperandModel::Literal(text@),
            Operand::Answer => OperandModel::Answer,
            Operand::Pi => OperandModel::Pi,
            Operand::Euler => OperandModel::Euler,
        }
    }
}

impl Operand {
    /// A copy of the operand.
    pub fn duplicate(&self) -> (r: Operand)
        ensures
            r@ == self@,
    {
        match self {
            Operand::Literal(text) => Operand::Literal(text.clone()),
            Operand::Answer => Operand::Answer,
            Operand::Pi => Operand::Pi,
            Operand::Euler => Operand::Euler,
        }
    }
}

/// One token of a postfix sequence: a number or an operator.
#[derive(Debug, PartialEq, Eq)]
pub enum CalculatorCell {
    Number(Operand),
    Operator(CalculatorOperator),
}

/// The mathematical content of a `CalculatorCell`.
pub enum CellModel {
    Number(OperandModel),
    Operator(CalculatorOperator),
}

impl View for CalculatorCell {
    type V = CellModel;

    open spec fn view(&self) -> CellModel {
        match self {
            CalculatorCell::Number(operand) => CellModel::Number(operand@),
            CalculatorCell::Operator(op) => CellModel::Operator(*op),
        }
    }
}

/// The content of a sequence of tokens.
pub open spec fn cells_model(cells: Seq<CalculatorCell>) -> Seq<CellModel> {
    cells.map_values(|cell: CalculatorCell| cell@)
}

impl CalculatorCell {
    pub fn new_number(number: Operand) -> (r: CalculatorCell)
        ensures
            r@ == CellModel::Number(number@),
    {
        CalculatorCell::Number(number)
    }

    pub fn new_operator(operator: CalculatorOperator) -> (r: CalculatorCell)
        ensures
            r@ == CellModel::Operator(operator),
    {
        CalculatorCell::Operator(operator)
    }

    /// The number the token holds, if it is one.
    pub fn get_number(&self) -> (r: Option<Operand>)
        ensures
            match self@ {
                CellModel::Number(operand) => r is Some && r->0@ == operand,
                CellModel::Operator(_) => r is None,
            },
    {
        match self {
            CalculatorCell::Number(operand) => Some(operand.duplicate()),
            CalculatorCell::Operator(_) => None,
        }
    }

    pub fn is_number(&self) -> (r: bool)
        ensures
            r == (self@ is Number),
    {
        match self {
            CalculatorCell::Number(_) => true,
            CalculatorCell::Operator(_) => false,
        }
    }

    /// The operator the token holds, if it is one.
    pub fn get_operator(&self) -> (r: Option<CalculatorOperator>)
        ensures
            match self@ {
                CellModel::Number(_) => r is None,
                CellModel::Operator(op) => r == Some(op),
            },
    {
        match self {
            CalculatorCell::Number(_) => None,
            CalculatorCell::Operator(op) => Some(*op),
        }
    }

    pub fn is_operator(&self) -> (r: bool)
        ensures
            r == (self@ is Operator),
    {
        match self {
            CalculatorCell::Number(_) => false,
            CalculatorCell::Operator(_) => true,
        }
    }
}

} // verus!
