use calculator::cell::{CalculatorCell, Operand};
use calculator::error::CalculatorError;
use calculator::evaluation::{Operands, ValueStack};
use calculator::operator::CalculatorOperator;
use calculator::postfix::to_postfix;

/// Drives the library with `f64` values the way a calculator front end does.
struct Calculator {
    previous_answer: f64,
}

impl Calculator {
    fn new() -> Self {
        Calculator { previous_answer: 0.0 }
    }

    fn reset(&mut self) {
        self.previous_answer = 0.0;
    }

    fn calculate(&mut self, infix_expression: &str) -> Result<f64, CalculatorError> {
        let postfix = to_postfix(infix_expression)?;
        let mut values: ValueStack<f64> = ValueStack::new();
        for cell in &postfix {
            let value = match cell {
                CalculatorCell::Number(operand) => match operand {
                    Operand::Literal(text) => text.parse::<f64>().unwrap(),
                    Operand::Answer => self.previous_answer,
                    Operand::Pi => std::f64::consts::PI,
                    Operand::Euler => std::f64::consts::E,
                },
                CalculatorCell::Operator(op) => {
                    let Operands { first, second } = values.take_operands(*op)?;
                    match op {
                        CalculatorOperator::Add => first.unwrap() + second,
                        CalculatorOperator::Subtract => first.unwrap() - second,
                        CalculatorOperator::Multiply => first.unwrap() * second,
                        CalculatorOperator::Divide => {
                            if second == 0.0 {
                                return Err(CalculatorError::DivisionByZero);
                            }
                            first.unwrap() / second
                        }
                        CalculatorOperator::Power => first.unwrap().powf(second),
                        CalculatorOperator::Inverse => 0.0 - second,
                    }
                }
            };
            values.push(value);
        }
        let answer = values.answer()?;
        self.previous_answer = answer;
        Ok(answer)
    }
}

#[test]
fn normal_equation() {
    let mut calc = Calculator::new();
    assert_eq!(calc.calculate("2+2").unwrap(), 4.0);
}

#[test]
fn floating_point_equation() {
    let mut calc = Calculator::new();
    assert_eq!(calc.calculate("2.2+2.2").unwrap(), 4.4);
}

#[test]
fn order_of_operations() {
    let mut calc = Calculator::new();
    assert_eq!(calc.calculate("2+2*2").unwrap(), 6.0);
}

#[test]
fn hard_equation() {
    let mut calc = Calculator::new();
    assert_eq!(calc.calculate("15/(7-(1+1))*3-(2+(1+1))*15/(7-(200+1))*3-(2+(1+1))*(15/(7-(1+1))*3-(2+(1+1))+15/(7-(1+1))*3-(2+(1+1)))").unwrap(), -30.072164948453608);
}

#[test]
fn p_and_e() {
    let mut calc = Calculator::new();
    assert_eq!(calc.calculate("p+e").unwrap(), 5.859874482048838);
}

#[test]
fn answer() {
    let mut calc = Calculator::new();
    calc.calculate("2+2").unwrap();
    assert_eq!(calc.calculate("a*2").unwrap(), 8.0);
}

#[test]
fn hidden_answer() {
    let mut calc = Calculator::new();
    calc.calculate("2+2").unwrap();
    assert_eq!(calc.calculate("*2").unwrap(), 8.0);
}

#[test]
fn answer_reset() {
    let mut calc = Calculator::new();
    calc.calculate("2+2").unwrap();
    calc.reset();
    assert_eq!(calc.calculate("a+2").unwrap(), 2.0);
}

#[test]
fn negative_number() {
    let mut calc = Calculator::new();
    assert_eq!(calc.calculate("-2-2").unwrap(), -4.0);
}

#[test]
fn harder_negative_number() {
    let mut calc = Calculator::new();
    assert_eq!(calc.calculate("-(-2-2)*-2").unwrap(), -8.0);
}

#[test]
fn empty_input() {
    let mut calc = Calculator::new();
    assert_eq!(calc.calculate("").unwrap_err(), CalculatorError::EmptyInput);
}

#[test]
fn unknown_symbol() {
    let mut calc = Calculator::new();
    assert_eq!(
        calc.calculate("@").unwrap_err(),
        CalculatorError::UnknownSymbol('@')
    );
}

#[test]
fn unknown_symbol_in_expression() {
    let mut calc = Calculator::new();
    assert_eq!(
        calc.calculate("2+@2").unwrap_err(),
        CalculatorError::UnknownSymbol('@')
    );
}

#[test]
fn operation_without_a_number() {
    let mut calc = Calculator::new();
    assert_eq!(
        calc.calculate("2+").unwrap_err(),
        CalculatorError::OperatorWithoutANumber('+')
    );
}

#[test]
fn closing_bracket_without_a_pair() {
    let mut calc = Calculator::new();
    assert_eq!(
        calc.calculate(")").unwrap_err(),
        CalculatorError::ClosingBracketWithoutAPair
    );
}

#[test]
fn nested_closing_bracket_without_a_pair() {
    let mut calc = Calculator::new();
    assert_eq!(
        calc.calculate("(()))").unwrap_err(),
        CalculatorError::ClosingBracketWithoutAPair
    );
}

#[test]
fn opening_bracket_without_a_pair() {
    let mut calc = Calculator::new();
    assert_eq!(
        calc.calculate("(").unwrap_err(),
        CalculatorError::OpeningBracketWithoutAPair
    );
}

#[test]
fn nested_opening_bracket_without_a_pair() {
    let mut calc = Calculator::new();
    assert_eq!(
        calc.calculate("((())").unwrap_err(),
        CalculatorError::OpeningBracketWithoutAPair
    );
}

#[test]
fn dot_without_a_number_before() {
    let mut calc = Calculator::new();
    assert_eq!(
        calc.calculate(".2").unwrap_err(),
        CalculatorError::DotWithoutANumber
    );
}

#[test]
fn dot_without_a_number_after() {
    let mut calc = Calculator::new();
    assert_eq!(
        calc.calculate("2.2.").unwrap_err(),
        CalculatorError::DotWithoutANumber
    );
}

#[test]
fn division_by_zero() {
    let mut calc = Calculator::new();
    assert_eq!(
        calc.calculate("2/0").unwrap_err(),
        CalculatorError::DivisionByZero
    );
}

#[test]
fn equal_precedence_groups_to_the_left() {
    let mut calc = Calculator::new();
    assert_eq!(calc.calculate("2-3-4").unwrap(), -5.0);
    assert_eq!(calc.calculate("8/4/2").unwrap(), 1.0);
    assert_eq!(calc.calculate("2^3^2").unwrap(), 64.0);
}

#[test]
fn mixed_precedence_without_brackets() {
    let mut calc = Calculator::new();
    assert_eq!(calc.calculate("1+2*3^2-8/4").unwrap(), 17.0);
    assert_eq!(calc.calculate("2*3+4").unwrap(), 10.0);
}

#[test]
fn reset_after_any_history() {
    let mut calc = Calculator::new();
    calc.calculate("7*6").unwrap();
    calc.calculate("a-1").unwrap();
    calc.reset();
    calc.reset();
    assert_eq!(calc.calculate("a").unwrap(), 0.0);
    assert_eq!(calc.calculate("a+2").unwrap(), 2.0);
}

#[test]
fn failure_keeps_previous_answer() {
    let mut calc = Calculator::new();
    calc.calculate("3+3").unwrap();
    assert_eq!(calc.calculate("1/0").unwrap_err(), CalculatorError::DivisionByZero);
    assert_eq!(calc.calculate("a").unwrap(), 6.0);
}

#[test]
fn implicit_and_explicit_answer_agree() {
    let mut calc = Calculator::new();
    calc.calculate("2+2").unwrap();
    let implicit = calc.calculate("*2").unwrap();
    let mut other = Calculator::new();
    other.calculate("2+2").unwrap();
    let explicit = other.calculate("a*2").unwrap();
    assert_eq!(implicit, 8.0);
    assert_eq!(implicit, explicit);
}

#[test]
fn unary_minus_binds_tighter_than_power() {
    let mut calc = Calculator::new();
    assert_eq!(calc.calculate("-2^2").unwrap(), 4.0);
    assert_eq!(calc.calculate("2^-1").unwrap(), 0.5);
    assert_eq!(calc.calculate("3*-2").unwrap(), -6.0);
}

#[test]
fn fractional_divisor_is_not_zero() {
    let mut calc = Calculator::new();
    assert_eq!(calc.calculate("2/0.5").unwrap(), 4.0);
    assert_eq!(calc.calculate("1/0.0").unwrap_err(), CalculatorError::DivisionByZero);
}

#[test]
fn trailing_dot_is_a_number() {
    let mut calc = Calculator::new();
    assert_eq!(calc.calculate("2.+1").unwrap(), 3.0);
}
