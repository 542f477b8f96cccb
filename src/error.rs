use vstd::prelude::*;

verus! {

/// Every way in which a calculation can be rejected.
#[derive(Debug, Clone, Copy, PartialEq, Eq, Structural)]
pub enum CalculatorError {
    EmptyInput,
    UnknownSymbol(char),
    OperatorWithoutANumber(char),
    ClosingBracketWithoutAPair,
    OpeningBracketWithoutAPair,
    DotWithoutANumber,
    DivisionByZero,
}

/// Relies on `ToString` for `char`: the text of one character.
#[verifier::external_body]
fn char_text(c: char) -> (r: String)
    ensures
        r@ == seq![c],
{
    c.to_string()
}

impl CalculatorError {
    /// The text shown to a user for this error.
    pub open spec fn spec_message(self) -> Seq<char> {
        match self {
            CalculatorError::EmptyInput => "empty input"@,
            CalculatorError::UnknownSymbol(c) => "unknown symbol '"@ + seq![c] + "'"@,
            CalculatorError::OperatorWithoutANumber(c) => "use of '"@ + seq![c]
                + "' operation without a number"@,
            CalculatorError::ClosingBracketWithoutAPair => "use of a closing bracket without a pair"@,
            CalculatorError::OpeningBracketWithoutAPair => "use of an opening bracket without a pair"@,
            CalculatorError::DotWithoutANumber => "use of a dot without a number before it"@,
            CalculatorError::DivisionByZero => "division by zero"@,
        }
    }

    /// Describes the error in words.
    pub fn message(&self) -> (r: String)
        ensures
            r@ == self.spec_message(),
    {
        match *self {
            CalculatorError::EmptyInput => "empty input".to_owned(),
            CalculatorError::UnknownSymbol(c) => {
                let mut text = "unknown symbol '".to_owned();
                text.append(char_text(c).as_str());
                text.append("'");
                text
            },
            CalculatorError::OperatorWithoutANumber(c) => {
                let mut text = "use of '".to_owned();
                text.append(char_text(c).as_str());
                text.append("' operation without a number");
                text
            },
            CalculatorError::ClosingBracketWithoutAPair => "use of a closing bracket without a pair".to_owned(),
            CalculatorError::OpeningBracketWithoutAPair => "use of an opening bracket without a pair".to_owned(),
            CalculatorError::DotWithoutANumber => "use of a dot without a number before it".to_owned(),
            CalculatorError::DivisionByZero => "division by zero".to_owned(),
        }
    }
}

} // verus!
