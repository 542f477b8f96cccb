use vstd::prelude::*;
use crate::cell::{CalculatorCell, CellModel, Operand, OperandModel, cells_model};
use crate::error::CalculatorError;
use crate::operator::{CalculatorOperator, StackEntry, spec_binary_operator};

verus! {

pub open spec fn is_digit(c: char) -> bool {
    '0' <= c && c <= '9'
}

/// A character that can be part of a number: a digit or the decimal point.
pub open spec fn in_number(c: char) -> bool {
    is_digit(c) || c == '.'
}

/// A character after which a `-` is the unary minus.
pub open spec fn opens_operand(c: char) -> bool {
    c == '+' || c == '-' || c == '*' || c == '/' || c == '^' || c == '('
}

/// The end of the run of digits and decimal points that starts at `i`.
pub open spec fn number_end(s: Seq<char>, i: int) -> int
    decreases s.len() - i,
{
    if 0 <= i < s.len() && in_number(s[i]) {
        number_end(s, i + 1)
    } else {
        i
    }
}

/// How many decimal points a text holds.
pub open spec fn count_dots(t: Seq<char>) -> nat
    decreases t.len(),
{
    if t.len() == 0 {
        0
    } else {
        count_dots(t.drop_last()) + if t.last() == '.' {
            1nat
        } else {
            0nat
        }
    }
}

/// The operator that the operator character at `i` stands for: a `-` at the
/// start or right after another operator or an opening bracket is the unary
/// minus, every other operator character is binary.
pub open spec fn operator_at(s: Seq<char>, i: int) -> CalculatorOperator {
    if s[i] == '-' && (i == 0 || opens_operand(s[i - 1])) {
        CalculatorOperator::Inverse
    } else {
        spec_binary_operator(s[i])->0
    }
}

/// Pops, from the top (the end) of the stack, every operator that binds at
/// least as tightly as `precedence`: the operators in the order they were
/// popped, and what is left of the stack.
pub open spec fn pop_binding(stack: Seq<StackEntry>, precedence: u8) -> (Seq<CellModel>, Seq<
    StackEntry,
>)
    decreases stack.len(),
{
    if stack.len() == 0 {
        (seq![], stack)
    } else {
        match stack.last() {
            StackEntry::Operator(op) => if op.spec_precedence() >= precedence {
                let (popped, rest) = pop_binding(stack.drop_last(), precedence);
                (seq![CellModel::Operator(op)] + popped, rest)
            } else {
                (seq![], stack)
            },
            StackEntry::Bracket => (seq![], stack),
        }
    }
}

/// Pops the operators above the topmost opening bracket, and the bracket:
/// the operators in the order they were popped, and what is left of the
/// stack; `None` when the stack holds no opening bracket.
pub open spec fn pop_to_bracket(stack: Seq<StackEntry>) -> Option<(Seq<CellModel>, Seq<StackEntry>)>
    decreases stack.len(),
{
    if stack.len() == 0 {
        None
    } else {
        match stack.last() {
            StackEntry::Bracket => Some((seq![], stack.drop_last())),
            StackEntry::Operator(op) => match pop_to_bracket(stack.drop_last()) {
                Some((popped, rest)) => Some((seq![CellModel::Operator(op)] + popped, rest)),
                None => None,
            },
        }
    }
}

/// All operators of the stack from top to bottom; `None` when the stack
/// holds an opening bracket.
pub open spec fn pop_all(stack: Seq<StackEntry>) -> Option<Seq<CellModel>>
    decreases stack.len(),
{
    if stack.len() == 0 {
        Some(seq![])
    } else {
        match stack.last() {
            StackEntry::Bracket => None,
            StackEntry::Operator(op) => match pop_all(stack.drop_last()) {
                Some(popped) => Some(seq![CellModel::Operator(op)] + popped),
                None => None,
            },
        }
    }
}

/// The conversion of `s` to postfix order from position `i` on, where
/// `output` has been emitted so far and `stack` holds the pending operators
/// and brackets.
pub open spec fn convert(s: Seq<char>, i: int, output: Seq<CellModel>, stack: Seq<StackEntry>) -> Result<
    Seq<CellModel>,
    CalculatorError,
>
    decreases s.len() - i,
    via convert_decreases
{
    if i < 0 || i >= s.len() {
        match pop_all(stack) {
            Some(rest) => Ok(output + rest),
            None => Err(CalculatorError::OpeningBracketWithoutAPair),
        }
    } else {
        let c = s[i];
        if is_digit(c) {
            let end = number_end(s, i);
            if count_dots(s.subrange(i, end)) > 1 {
                Err(CalculatorError::DotWithoutANumber)
            } else {
                convert(
                    s,
                    end,
                    output.push(CellModel::Number(OperandModel::Literal(s.subrange(i, end)))),
                    stack,
                )
            }
        } else if c == '.' {
            Err(CalculatorError::DotWithoutANumber)
        } else if c == 'a' {
            convert(s, i + 1, output.push(CellModel::Number(OperandModel::Answer)), stack)
        } else if c == 'p' {
            convert(s, i + 1, output.push(CellModel::Number(OperandModel::Pi)), stack)
        } else if c == 'e' {
            convert(s, i + 1, output.push(CellModel::Number(OperandModel::Euler)), stack)
        } else if c == '(' {
            convert(s, i + 1, output, stack.push(StackEntry::Bracket))
        } else if c == ')' {
            match pop_to_bracket(stack) {
                Some((popped, rest)) => convert(s, i + 1, output + popped, rest),
                None => Err(CalculatorError::ClosingBracketWithoutAPair),
            }
        } else if spec_binary_operator(c) is Some {
            let op = operator_at(s, i);
            let (popped, rest) = pop_binding(stack, op.spec_precedence());
            convert(s, i + 1, output + popped, rest.push(StackEntry::Operator(op)))
        } else {
            Err(CalculatorError::UnknownSymbol(c))
        }
    }
}

#[via_fn]
proof fn convert_decreases(s: Seq<char>, i: int, output: Seq<CellModel>, stack: Seq<StackEntry>) {
    if 0 <= i < s.len() && is_digit(s[i]) {
        lemma_number_end(s, i + 1);
    }
}

/// What a previous answer contributes before the first character: an
/// expression that starts with neither a digit nor a minus starts from the
/// previous answer.
pub open spec fn leading_output(s: Seq<char>) -> Seq<CellModel> {
    if s.len() > 0 && !is_digit(s[0]) && s[0] != '-' {
        seq![CellModel::Number(OperandModel::Answer)]
    } else {
        seq![]
    }
}

/// The postfix form of the infix expression `s`, or the error that rejects it.
pub open spec fn postfix_of(s: Seq<char>) -> Result<Seq<CellModel>, CalculatorError> {
    convert(s, 0, leading_output(s), seq![])
}

proof fn lemma_number_end(s: Seq<char>, i: int)
    requires
        0 <= i <= s.len(),
    ensures
        i <= number_end(s, i) <= s.len(),
    decreases s.len() - i,
{
    if i < s.len() && in_number(s[i]) {
        lemma_number_end(s, i + 1);
    }
}

proof fn lemma_cells_model_push(cells: Seq<CalculatorCell>, cell: CalculatorCell)
    ensures
        cells_model(cells.push(cell)) == cells_model(cells).push(cell@),
{
    assert(cells_model(cells.push(cell)) =~= cells_model(cells).push(cell@));
}

/// Moves from the stack to the output every operator on top that binds at
/// least as tightly as `precedence`.
fn pop_binding_operators(
    output: &mut Vec<CalculatorCell>,
    stack: &mut Vec<StackEntry>,
    precedence: u8,
)
    ensures
        cells_model(final(output)@) == cells_model(old(output)@) + pop_binding(
            old(stack)@,
            precedence,
        ).0,
        final(stack)@ == pop_binding(old(stack)@, precedence).1,
{
    let ghost start = cells_model(output@);
    let ghost goal = pop_binding(stack@, precedence);
    loop
        invariant
            cells_model(output@) + pop_binding(stack@, precedence).0 == start + goal.0,
            pop_binding(stack@, precedence).1 == goal.1,
        ensures
            pop_binding(stack@, precedence).0 == Seq::<CellModel>::empty(),
        decreases stack.len(),
    {
        let len = stack.len();
        if len == 0 {
            break;
        }
        let top = stack[len - 1];
        match top {
            StackEntry::Operator(op) => {
                if op.precedence() < precedence {
                    break;
                }
                let ghost before = stack@;
                let ghost emitted = cells_model(output@);
                stack.pop();
                assert(stack@ == before.drop_last());
                let cell = CalculatorCell::Operator(op);
                proof {
                    lemma_cells_model_push(output@, cell);
                }
                output.push(cell);
                assert(emitted.push(cell@) + pop_binding(stack@, precedence).0 =~= emitted + (
                seq![CellModel::Operator(op)] + pop_binding(stack@, precedence).0));
            },
            StackEntry::Bracket => {
                break;
            },
        }
    }
    assert(cells_model(output@) =~= cells_model(output@) + pop_binding(stack@, precedence).0);
}

/// Moves from the stack to the output the operators above the topmost
/// opening bracket, and drops the bracket. Returns false when the stack
/// holds no opening bracket.
fn pop_to_bracket_operators(output: &mut Vec<CalculatorCell>, stack: &mut Vec<StackEntry>) -> (found:
    bool)
    ensures
        match pop_to_bracket(old(stack)@) {
            Some((popped, rest)) => found && cells_model(final(output)@) == cells_model(
                old(output)@,
            ) + popped && final(stack)@ == rest,
            None => !found,
        },
{
    let ghost start = cells_model(output@);
    let ghost goal = pop_to_bracket(stack@);
    loop
        invariant
            start == cells_model(old(output)@),
            goal == pop_to_bracket(old(stack)@),
            match goal {
                Some((goal_popped, goal_rest)) => match pop_to_bracket(stack@) {
                    Some((popped, rest)) => cells_model(output@) + popped == start + goal_popped
                        && rest == goal_rest,
                    None => false,
                },
                None => pop_to_bracket(stack@) is None,
            },
        decreases stack.len(),
    {
        let ghost before = stack@;
        match stack.pop() {
            None => {
                return false;
            },
            Some(StackEntry::Bracket) => {
                assert(stack@ == before.drop_last());
                assert(cells_model(output@) =~= cells_model(output@) + seq![]);
                return true;
            },
            Some(StackEntry::Operator(op)) => {
                assert(stack@ == before.drop_last());
                let ghost emitted = cells_model(output@);
                let cell = CalculatorCell::Operator(op);
                proof {
                    lemma_cells_model_push(output@, cell);
                }
                output.push(cell);
                proof {
                    if let Some((popped, rest)) = pop_to_bracket(stack@) {
                        assert(emitted.push(cell@) + popped =~= emitted + (seq![
                            CellModel::Operator(op),
                        ] + popped));
                    }
                    }
            },
        }
    }
}

/// Moves every operator of the stack to the output, top first. Returns false
/// when the stack holds an opening bracket.
fn pop_all_operators(output: &mut Vec<CalculatorCell>, stack: &mut Vec<StackEntry>) -> (complete:
    bool)
    ensures
        match pop_all(old(stack)@) {
            Some(popped) => complete && cells_model(final(output)@) == cells_model(old(output)@)
                + popped,
            None => !complete,
        },
{
    let ghost start = cells_model(output@);
    let ghost goal = pop_all(stack@);
    loop
        invariant
            start == cells_model(old(output)@),
            goal == pop_all(old(stack)@),
            match goal {
                Some(goal_popped) => match pop_all(stack@) {
                    Some(popped) => cells_model(output@) + popped == start + goal_popped,
                    None => false,
                },
                None => pop_all(stack@) is None,
            },
        decreases stack.len(),
    {
        let ghost before = stack@;
        match stack.pop() {
            None => {
                assert(cells_model(output@) =~= cells_model(output@) + seq![]);
                return true;
            },
            Some(StackEntry::Bracket) => {
                assert(stack@ == before.drop_last());
                return false;
            },
            Some(StackEntry::Operator(op)) => {
                assert(stack@ == before.drop_last());
                let ghost emitted = cells_model(output@);
                let cell = CalculatorCell::Operator(op);
                proof {
                    lemma_cells_model_push(output@, cell);
                }
                output.push(cell);
                proof {
                    if let Some(popped) = pop_all(stack@) {
                        assert(emitted.push(cell@) + popped =~= emitted + (seq![
                            CellModel::Operator(op),
                        ] + popped));
                    }
                    }
            },
        }
    }
}

fn is_digit_char(c: char) -> (r: bool)
    ensures
        r == is_digit(c),
{
    '0' <= c && c <= '9'
}

/// Reads the number that starts at `start`: digits with at most one decimal
/// point. Returns where it ends, or `DotWithoutANumber` when it holds a
/// second decimal point.
fn get_string_number(chars: &Vec<char>, start: usize) -> (r: Result<usize, CalculatorError>)
    requires
        start < chars.len(),
    ensures
        count_dots(chars@.subrange(start as int, number_end(chars@, start as int))) > 1 ==> r
            == Err::<usize, CalculatorError>(CalculatorError::DotWithoutANumber),
        count_dots(chars@.subrange(start as int, number_end(chars@, start as int))) <= 1 ==> r
            == Ok::<usize, CalculatorError>(number_end(chars@, start as int) as usize),
{
    let mut end = start;
    let mut dots: usize = 0;
    while end < chars.len() && (is_digit_char(chars[end]) || chars[end] == '.')
        invariant
            start <= end <= chars.len(),
            number_end(chars@, start as int) == number_end(chars@, end as int),
            dots == count_dots(chars@.subrange(start as int, end as int)),
            dots <= end - start,
        decreases chars.len() - end,
    {
        assert(chars@.subrange(start as int, end + 1).drop_last() =~= chars@.subrange(
            start as int,
            end as int,
        ));
        if chars[end] == '.' {
            dots = dots + 1;
        }
        end = end + 1;
    }
    if dots > 1 {
        Err(CalculatorError::DotWithoutANumber)
    } else {
        Ok(end)
    }
}

/// The characters of a text, one by one.
fn chars_of(text: &str) -> (r: Vec<char>)
    ensures
        r@ == text@,
{
    let n = text.unicode_len();
    let mut chars: Vec<char> = Vec::new();
    let mut i: usize = 0;
    while i < n
        invariant
            n == text@.len(),
            i <= n,
            chars@ == text@.subrange(0, i as int),
        decreases n - i,
    {
        chars.push(text.get_char(i));
        i = i + 1;
        assert(chars@ =~= text@.subrange(0, i as int));
    }
    assert(chars@ =~= text@);
    chars
}

/// Converts an infix expression to postfix order. An expression that
/// starts with neither a digit nor a minus starts from the previous answer.
pub fn to_postfix(infix_expression: &str) -> (r: Result<Vec<CalculatorCell>, CalculatorError>)
    ensures
        match postfix_of(infix_expression@) {
            Ok(cells) => r is Ok && cells_model(r->Ok_0@) == cells,
            Err(e) => r is Err && r->Err_0 == e,
        },
{
    let ghost s = infix_expression@;
    let chars = chars_of(infix_expression);
    let n = chars.len();
    let mut output: Vec<CalculatorCell> = Vec::new();
    let mut stack: Vec<StackEntry> = Vec::new();
    if n > 0 && !is_digit_char(chars[0]) && chars[0] != '-' {
        output.push(CalculatorCell::Number(Operand::Answer));
    }
    assert(cells_model(output@) =~= leading_output(s));
    let mut i: usize = 0;
    while i < n
        invariant
            s == infix_expression@,
            chars@ == s,
            n == s.len(),
            i <= n,
            convert(s, i as int, cells_model(output@), stack@) == postfix_of(s),
        decreases n - i,
    {
        let c = chars[i];
        let ghost emitted = cells_model(output@);
        if is_digit_char(c) {
            proof {
                lemma_number_end(s, i + 1);
            }
            match get_string_number(&chars, i) {
                Err(e) => {
                    return Err(e);
                },
                Ok(end) => {
                    let literal = infix_expression.substring_char(i, end).to_owned();
                    let cell = CalculatorCell::Number(Operand::Literal(literal));
                    proof {
                        lemma_cells_model_push(output@, cell);
                    }
                    output.push(cell);
                    i = end;
                },
            }
        } else if c == '.' {
            return Err(CalculatorError::DotWithoutANumber);
        } else if c == 'a' || c == 'p' || c == 'e' {
            let operand = if c == 'a' {
                Operand::Answer
            } else if c == 'p' {
                Operand::Pi
            } else {
                Operand::Euler
            };
            let cell = CalculatorCell::Number(operand);
            proof {
                lemma_cells_model_push(output@, cell);
            }
            output.push(cell);
            i = i + 1;
        } else if c == '(' {
            stack.push(StackEntry::Bracket);
            i = i + 1;
        } else if c == ')' {
            if !pop_to_bracket_operators(&mut output, &mut stack) {
                return Err(CalculatorError::ClosingBracketWithoutAPair);
            }
            i = i + 1;
        } else if c == '~' {
            // the unary minus is only ever written as `-`
            return Err(CalculatorError::UnknownSymbol(c));
        } else {
            match CalculatorOperator::try_from(c) {
                None => {
                    return Err(CalculatorError::UnknownSymbol(c));
                },
                Some(binary) => {
                    let unary_position = i == 0 || {
                        let previous = chars[i - 1];
                        previous == '+' || previous == '-' || previous == '*' || previous == '/'
                            || previous == '^' || previous == '('
                    };
                    let op = if c == '-' && unary_position {
                        CalculatorOperator::Inverse
                    } else {
                        binary
                    };
                    assert(op == operator_at(s, i as int));
                    pop_binding_operators(&mut output, &mut stack, op.precedence());
                    stack.push(StackEntry::Operator(op));
                    i = i + 1;
                },
            }
        }
    }
    if !pop_all_operators(&mut output, &mut stack) {
        return Err(CalculatorError::OpeningBracketWithoutAPair);
    }
    Ok(output)
}

/// A conversion result with one more previous answer before its first token.
pub open spec fn with_answer_first(r: Result<Seq<CellModel>, CalculatorError>) -> Result<
    Seq<CellModel>,
    CalculatorError,
> {
    match r {
        Ok(cells) => Ok(seq![CellModel::Number(OperandModel::Answer)] + cells),
        Err(e) => Err(e),
    }
}

proof fn lemma_number_end_after_answer(s: Seq<char>, i: int)
    requires
        0 <= i <= s.len(),
    ensures
        number_end(seq!['a'] + s, i + 1) == number_end(s, i) + 1,
    decreases s.len() - i,
{
    let t = seq!['a'] + s;
    if i < s.len() {
        assert(t[i + 1] == s[i]);
        if in_number(s[i]) {
            lemma_number_end_after_answer(s, i + 1);
        }
    }
}

proof fn lemma_convert_after_answer(
    s: Seq<char>,
    i: int,
    output: Seq<CellModel>,
    stack: Seq<StackEntry>,
)
    requires
        0 <= i <= s.len(),
        s.len() > 0 ==> s[0] != '-',
    ensures
        convert(seq!['a'] + s, i + 1, seq![CellModel::Number(OperandModel::Answer)] + output, stack)
            == with_answer_first(convert(s, i, output, stack)),
    decreases s.len() - i,
{
    let t = seq!['a'] + s;
    let answer = seq![CellModel::Number(OperandModel::Answer)];
    if i == s.len() {
        if let Some(rest) = pop_all(stack) {
            assert(answer + output + rest =~= answer + (output + rest));
        }
    } else {
        let c = s[i];
        assert(t[i + 1] == c);
        if is_digit(c) {
            let end = number_end(s, i);
            lemma_number_end_after_answer(s, i);
            lemma_number_end(s, i + 1);
            assert(t.subrange(i + 1, end + 1) =~= s.subrange(i, end));
            if count_dots(s.subrange(i, end)) <= 1 {
                let cell = CellModel::Number(OperandModel::Literal(s.subrange(i, end)));
                assert((answer + output).push(cell) =~= answer + output.push(cell));
                lemma_convert_after_answer(s, end, output.push(cell), stack);
            }
        } else if c == 'a' || c == 'p' || c == 'e' {
            let cell = CellModel::Number(
                if c == 'a' {
                    OperandModel::Answer
                } else if c == 'p' {
                    OperandModel::Pi
                } else {
                    OperandModel::Euler
                },
            );
            assert((answer + output).push(cell) =~= answer + output.push(cell));
            lemma_convert_after_answer(s, i + 1, output.push(cell), stack);
        } else if c == '(' {
            lemma_convert_after_answer(s, i + 1, output, stack.push(StackEntry::Bracket));
        } else if c == ')' {
            if let Some((popped, rest)) = pop_to_bracket(stack) {
                assert(answer + output + popped =~= answer + (output + popped));
                lemma_convert_after_answer(s, i + 1, output + popped, rest);
            }
        } else if spec_binary_operator(c) is Some {
            if i > 0 {
                assert(t[i] == s[i - 1]);
            }
            assert(operator_at(t, i + 1) == operator_at(s, i));
            let op = operator_at(s, i);
            let (popped, rest) = pop_binding(stack, op.spec_precedence());
            assert(answer + output + popped =~= answer + (output + popped));
            lemma_convert_after_answer(s, i + 1, output + popped, rest.push(StackEntry::Operator(op)));
        }
    }
}

/// An expression that starts with neither a digit nor a minus is read as if
/// it were preceded by `a`: both are rejected with the same error, or the
/// postfix form of the one with `a` has one more previous answer before all
/// the tokens of the other.
pub proof fn lemma_leading_answer(s: Seq<char>)
    requires
        s.len() > 0,
        !is_digit(s[0]),
        s[0] != '-',
    ensures
        postfix_of(seq!['a'] + s) == with_answer_first(postfix_of(s)),
{
    let t = seq!['a'] + s;
    assert(t[0] == 'a');
    let answer = seq![CellModel::Number(OperandModel::Answer)];
    assert(leading_output(t) == answer);
    assert(answer.push(CellModel::Number(OperandModel::Answer)) =~= answer + leading_output(s));
    lemma_convert_after_answer(s, 0, leading_output(s), seq![]);
}

} // verus!
