use calculator::cell::{CalculatorCell, Operand};
use calculator::error::CalculatorError;
use calculator::evaluation::ValueStack;
use calculator::operator::CalculatorOperator;
use calculator::postfix::to_postfix;

fn literal(text: &str) -> CalculatorCell {
    CalculatorCell::new_number(Operand::Literal(text.to_string()))
}

fn number(operand: Operand) -> CalculatorCell {
    CalculatorCell::new_number(operand)
}

fn op(operator: CalculatorOperator) -> CalculatorCell {
    CalculatorCell::new_operator(operator)
}

#[test]
fn precedence_orders_the_postfix() {
    assert_eq!(
        to_postfix("2+2*2").unwrap(),
        vec![
            literal("2"),
            literal("2"),
            literal("2"),
            op(CalculatorOperator::Multiply),
            op(CalculatorOperator::Add)
        ]
    );
    assert_eq!(
        to_postfix("2*2+2").unwrap(),
        vec![
            literal("2"),
            literal("2"),
            op(CalculatorOperator::Multiply),
            literal("2"),
            op(CalculatorOperator::Add)
        ]
    );
}

#[test]
fn longer_expression_follows_precedence_tree() {
    assert_eq!(
        to_postfix("1+2*3^2-8/4").unwrap(),
        vec![
            literal("1"),
            literal("2"),
            literal("3"),
            literal("2"),
            op(CalculatorOperator::Power),
            op(CalculatorOperator::Multiply),
            op(CalculatorOperator::Add),
            literal("8"),
            literal("4"),
            op(CalculatorOperator::Divide),
            op(CalculatorOperator::Subtract)
        ]
    );
}

#[test]
fn longer_operands_follow_precedence_tree() {
    assert_eq!(
        to_postfix("12*p-3.5/a").unwrap(),
        vec![
            literal("12"),
            number(Operand::Pi),
            op(CalculatorOperator::Multiply),
            literal("3.5"),
            number(Operand::Answer),
            op(CalculatorOperator::Divide),
            op(CalculatorOperator::Subtract)
        ]
    );
    assert_eq!(
        to_postfix("e^2+10").unwrap(),
        vec![
            number(Operand::Answer),
            number(Operand::Euler),
            literal("2"),
            op(CalculatorOperator::Power),
            literal("10"),
            op(CalculatorOperator::Add)
        ]
    );
}

#[test]
fn equal_precedence_pops_first() {
    assert_eq!(
        to_postfix("2-3-4").unwrap(),
        vec![
            literal("2"),
            literal("3"),
            op(CalculatorOperator::Subtract),
            literal("4"),
            op(CalculatorOperator::Subtract)
        ]
    );
}

#[test]
fn literals_keep_their_digits() {
    assert_eq!(
        to_postfix("12.50+3").unwrap(),
        vec![literal("12.50"), literal("3"), op(CalculatorOperator::Add)]
    );
    assert_eq!(to_postfix("7.").unwrap(), vec![literal("7.")]);
}

#[test]
fn leading_operator_starts_from_the_answer() {
    assert_eq!(
        to_postfix("*2").unwrap(),
        vec![
            number(Operand::Answer),
            literal("2"),
            op(CalculatorOperator::Multiply)
        ]
    );
    assert_eq!(
        to_postfix("a*2").unwrap(),
        vec![
            number(Operand::Answer),
            number(Operand::Answer),
            literal("2"),
            op(CalculatorOperator::Multiply)
        ]
    );
}

#[test]
fn leading_minus_is_unary() {
    assert_eq!(
        to_postfix("-2-2").unwrap(),
        vec![
            literal("2"),
            op(CalculatorOperator::Inverse),
            literal("2"),
            op(CalculatorOperator::Subtract)
        ]
    );
}

#[test]
fn minus_after_bracket_or_operator_is_unary() {
    assert_eq!(
        to_postfix("-(-2-2)*-2").unwrap(),
        vec![
            literal("2"),
            op(CalculatorOperator::Inverse),
            literal("2"),
            op(CalculatorOperator::Subtract),
            op(CalculatorOperator::Inverse),
            literal("2"),
            op(CalculatorOperator::Inverse),
            op(CalculatorOperator::Multiply)
        ]
    );
}

#[test]
fn named_numbers() {
    assert_eq!(
        to_postfix("p+e").unwrap(),
        vec![
            number(Operand::Answer),
            number(Operand::Pi),
            number(Operand::Euler),
            op(CalculatorOperator::Add)
        ]
    );
}

#[test]
fn bracket_errors() {
    assert_eq!(
        to_postfix("(").unwrap_err(),
        CalculatorError::OpeningBracketWithoutAPair
    );
    assert_eq!(
        to_postfix(")").unwrap_err(),
        CalculatorError::ClosingBracketWithoutAPair
    );
    assert_eq!(
        to_postfix("(()))").unwrap_err(),
        CalculatorError::ClosingBracketWithoutAPair
    );
    assert_eq!(
        to_postfix("((())").unwrap_err(),
        CalculatorError::OpeningBracketWithoutAPair
    );
    assert_eq!(to_postfix("2)(").unwrap_err(), CalculatorError::ClosingBracketWithoutAPair);
}

#[test]
fn dot_errors() {
    assert_eq!(to_postfix(".2").unwrap_err(), CalculatorError::DotWithoutANumber);
    assert_eq!(to_postfix("2.2.").unwrap_err(), CalculatorError::DotWithoutANumber);
    assert_eq!(to_postfix("1+2..").unwrap_err(), CalculatorError::DotWithoutANumber);
}

#[test]
fn unknown_symbols() {
    assert_eq!(to_postfix("@").unwrap_err(), CalculatorError::UnknownSymbol('@'));
    assert_eq!(to_postfix("2+@2").unwrap_err(), CalculatorError::UnknownSymbol('@'));
    assert_eq!(to_postfix("2~2").unwrap_err(), CalculatorError::UnknownSymbol('~'));
    assert_eq!(to_postfix("2+é").unwrap_err(), CalculatorError::UnknownSymbol('é'));
    assert_eq!(to_postfix("2 +2").unwrap_err(), CalculatorError::UnknownSymbol(' '));
}

#[test]
fn first_error_in_reading_order_wins() {
    assert_eq!(to_postfix("@)").unwrap_err(), CalculatorError::UnknownSymbol('@'));
    assert_eq!(to_postfix("(@").unwrap_err(), CalculatorError::UnknownSymbol('@'));
}

#[test]
fn empty_input_converts_to_nothing() {
    assert_eq!(to_postfix("").unwrap(), Vec::<CalculatorCell>::new());
}

#[test]
fn value_stack_takes_operands_in_order() {
    let mut values: ValueStack<i64> = ValueStack::new();
    values.push(7);
    values.push(3);
    let operands = values.take_operands(CalculatorOperator::Subtract).unwrap();
    assert_eq!(operands.first, Some(7));
    assert_eq!(operands.second, 3);
    assert_eq!(values.answer().unwrap_err(), CalculatorError::EmptyInput);
}

#[test]
fn value_stack_unary_takes_one() {
    let mut values: ValueStack<i64> = ValueStack::new();
    values.push(1);
    values.push(5);
    let operands = values.take_operands(CalculatorOperator::Inverse).unwrap();
    assert_eq!(operands.first, None);
    assert_eq!(operands.second, 5);
    assert_eq!(values.answer().unwrap(), 1);
}

#[test]
fn value_stack_missing_operands() {
    let mut values: ValueStack<i64> = ValueStack::new();
    values.push(4);
    assert_eq!(
        values.take_operands(CalculatorOperator::Power).unwrap_err(),
        CalculatorError::OperatorWithoutANumber('^')
    );
    assert_eq!(values.answer().unwrap(), 4);
    let mut empty: ValueStack<i64> = ValueStack::new();
    assert_eq!(
        empty.take_operands(CalculatorOperator::Inverse).unwrap_err(),
        CalculatorError::OperatorWithoutANumber('~')
    );
}

#[test]
fn operator_symbols() {
    for c in ['+', '-', '*', '/', '^'] {
        let operator = CalculatorOperator::try_from(c).unwrap();
        assert_eq!(operator.symbol(), c);
        assert_eq!(operator.arity(), 2);
    }
    for operator in [
        CalculatorOperator::Add,
        CalculatorOperator::Subtract,
        CalculatorOperator::Multiply,
        CalculatorOperator::Divide,
        CalculatorOperator::Power,
        CalculatorOperator::Inverse,
    ] {
        assert_eq!(CalculatorOperator::try_from(operator.symbol()), Some(operator));
    }
    assert_eq!(
        CalculatorOperator::try_from('~'),
        Some(CalculatorOperator::Inverse)
    );
    assert_eq!(CalculatorOperator::try_from('2'), None);
    assert_eq!(CalculatorOperator::try_from('a'), None);
    assert_eq!(CalculatorOperator::try_from(')'), None);
    assert_eq!(CalculatorOperator::try_from('('), None);
    assert_eq!(CalculatorOperator::Inverse.symbol(), '~');
    assert_eq!(CalculatorOperator::Inverse.arity(), 1);
    assert_eq!(CalculatorOperator::Add.precedence(), 1);
    assert_eq!(CalculatorOperator::Divide.precedence(), 2);
    assert_eq!(CalculatorOperator::Power.precedence(), 3);
    assert_eq!(CalculatorOperator::Inverse.precedence(), 4);
}

#[test]
fn cell_accessors() {
    let cell = literal("42");
    assert!(cell.is_number());
    assert!(!cell.is_operator());
    assert_eq!(cell.get_number(), Some(Operand::Literal("42".to_string())));
    assert_eq!(cell.get_operator(), None);
    let cell = op(CalculatorOperator::Divide);
    assert!(cell.is_operator());
    assert!(!cell.is_number());
    assert_eq!(cell.get_number(), None);
    assert_eq!(cell.get_operator(), Some(CalculatorOperator::Divide));
}

#[test]
fn error_messages() {
    assert_eq!(CalculatorError::EmptyInput.message(), "empty input");
    assert_eq!(
        CalculatorError::UnknownSymbol('@').message(),
        "unknown symbol '@'"
    );
    assert_eq!(
        CalculatorError::OperatorWithoutANumber('+').message(),
        "use of '+' operation without a number"
    );
    assert_eq!(
        CalculatorError::ClosingBracketWithoutAPair.message(),
        "use of a closing bracket without a pair"
    );
    assert_eq!(
        CalculatorError::OpeningBracketWithoutAPair.message(),
        "use of an opening bracket without a pair"
    );
    assert_eq!(
        CalculatorError::DotWithoutANumber.message(),
        "use of a dot without a number before it"
    );
    assert_eq!(CalculatorError::DivisionByZero.message(), "division by zero");
}
