use vstd::prelude::*;
use crate::cell::{CellModel, OperandModel};
use crate::error::CalculatorError;
use crate::operator::{CalculatorOperator, StackEntry, spec_binary_operator};
use crate::postfix::{
    convert, count_dots, in_number, is_digit, leading_output, number_end, operator_at, pop_all,
    pop_binding, postfix_of,
};

verus! {

/// Among operators written one after the other, the one applied last: the
/// rightmost of lowest precedence.
pub open spec fn last_applied(ops: Seq<CalculatorOperator>) -> int
    decreases ops.len(),
{
    if ops.len() <= 1 {
        0
    } else {
        let m = last_applied(ops.drop_last());
        if ops.last().spec_precedence() <= ops[m].spec_precedence() {
            ops.len() - 1
        } else {
            m
        }
    }
}

/// The postfix form that the precedence rules give operands separated by
/// binary operators (`ops[i]` stands between `operands[i]` and
/// `operands[i + 1]`): the operator applied last takes as operands the
/// expressions on its left and on its right.
pub open spec fn tree_postfix(operands: Seq<CellModel>, ops: Seq<CalculatorOperator>) -> Seq<
    CellModel,
>
    decreases ops.len(),
    via tree_postfix_decreases
{
    if ops.len() == 0 {
        seq![operands[0]]
    } else {
        let j = last_applied(ops);
        tree_postfix(operands.subrange(0, j + 1), ops.subrange(0, j)) + tree_postfix(
            operands.subrange(j + 1, operands.len() as int),
            ops.subrange(j + 1, ops.len() as int),
        ) + seq![CellModel::Operator(ops[j])]
    }
}

#[via_fn]
proof fn tree_postfix_decreases(operands: Seq<CellModel>, ops: Seq<CalculatorOperator>) {
    if ops.len() > 0 {
        lemma_last_applied(ops);
    }
}

proof fn lemma_last_applied(ops: Seq<CalculatorOperator>)
    requires
        ops.len() > 0,
    ensures
        0 <= last_applied(ops) < ops.len(),
        forall|q: int|
            0 <= q < ops.len() ==> ops[last_applied(ops)].spec_precedence() <= (
            #[trigger] ops[q]).spec_precedence(),
        forall|q: int|
            last_applied(ops) < q < ops.len() ==> ops[last_applied(ops)].spec_precedence() < (
            #[trigger] ops[q]).spec_precedence(),
    decreases ops.len(),
{
    if ops.len() > 1 {
        let shorter = ops.drop_last();
        lemma_last_applied(shorter);
        let m = last_applied(shorter);
        let j = last_applied(ops);
        let n = ops.len() - 1;
        assert(shorter[m] == ops[m]);
        assert forall|q: int| 0 <= q < ops.len() implies ops[j].spec_precedence() <= (
        #[trigger] ops[q]).spec_precedence() by {
            if q < n {
                assert(shorter[q] == ops[q]);
            }
        }
        assert forall|q: int| j < q < ops.len() implies ops[j].spec_precedence() < (
        #[trigger] ops[q]).spec_precedence() by {
            if q < n {
                assert(shorter[q] == ops[q]);
            }
        }
    }
}

/// The conversion state after operand `t`: the output so far and the
/// operator stack.
spec fn scan(operands: Seq<CellModel>, ops: Seq<CalculatorOperator>, t: int) -> (
    Seq<CellModel>,
    Seq<StackEntry>,
)
    decreases t,
{
    if t <= 0 {
        (seq![operands[0]], seq![])
    } else {
        let (output, stack) = scan(operands, ops, t - 1);
        let op = ops[t - 1];
        let (popped, rest) = pop_binding(stack, op.spec_precedence());
        (output + popped + seq![operands[t]], rest.push(StackEntry::Operator(op)))
    }
}

/// Every entry is an operator of precedence at least `p`.
spec fn operators_at_least(stack: Seq<StackEntry>, p: u8) -> bool {
    forall|i: int|
        0 <= i < stack.len() ==> (#[trigger] stack[i] is Operator) && stack[i]->Operator_0.spec_precedence() >= p
}

proof fn lemma_scan_stack(operands: Seq<CellModel>, ops: Seq<CalculatorOperator>, t: int, p: u8)
    requires
        0 <= t <= ops.len(),
        forall|q: int| 0 <= q < t ==> (#[trigger] ops[q]).spec_precedence() >= p,
    ensures
        operators_at_least(scan(operands, ops, t).1, p),
    decreases t,
{
    if t > 0 {
        lemma_scan_stack(operands, ops, t - 1, p);
        let (output, stack) = scan(operands, ops, t - 1);
        let op = ops[t - 1];
        lemma_pop_binding_prefix(stack, op.spec_precedence());
        let rest = pop_binding(stack, op.spec_precedence()).1;
        assert forall|i: int| 0 <= i < rest.len() implies (#[trigger] rest[i] is Operator)
            && rest[i]->Operator_0.spec_precedence() >= p by {
            assert(rest[i] == stack[i]);
        }
        let next = rest.push(StackEntry::Operator(op));
        assert forall|i: int| 0 <= i < next.len() implies (#[trigger] next[i] is Operator)
            && next[i]->Operator_0.spec_precedence() >= p by {
            if i < rest.len() {
                assert(next[i] == rest[i]);
            }
        }
    }
}

proof fn lemma_pop_binding_prefix(stack: Seq<StackEntry>, p: u8)
    ensures
        pop_binding(stack, p).1.len() <= stack.len(),
        pop_binding(stack, p).1 == stack.subrange(0, pop_binding(stack, p).1.len() as int),
    decreases stack.len(),
{
    if stack.len() > 0 {
        lemma_pop_binding_prefix(stack.drop_last(), p);
        assert(stack.subrange(0, stack.len() as int) =~= stack);
        let rest = pop_binding(stack.drop_last(), p).1;
        assert(stack.drop_last().subrange(0, rest.len() as int) =~= stack.subrange(
            0,
            rest.len() as int,
        ));
    }
}

proof fn lemma_pop_binding_all(stack: Seq<StackEntry>, p: u8)
    requires
        operators_at_least(stack, p),
    ensures
        pop_all(stack) is Some,
        pop_binding(stack, p) == (pop_all(stack)->0, Seq::<StackEntry>::empty()),
    decreases stack.len(),
{
    if stack.len() > 0 {
        let shorter = stack.drop_last();
        assert(stack.last() == stack[stack.len() - 1]);
        assert forall|i: int| 0 <= i < shorter.len() implies (#[trigger] shorter[i] is Operator)
            && shorter[i]->Operator_0.spec_precedence() >= p by {
            assert(shorter[i] == stack[i]);
        }
        lemma_pop_binding_all(shorter, p);
    }
}

proof fn lemma_pop_binding_frame(base: Seq<StackEntry>, stack: Seq<StackEntry>, p: u8)
    requires
        base.len() > 0,
        base.last() is Operator,
        base.last()->Operator_0.spec_precedence() < p,
    ensures
        pop_binding(base + stack, p) == (pop_binding(stack, p).0, base + pop_binding(stack, p).1),
    decreases stack.len(),
{
    if stack.len() == 0 {
        assert(base + stack =~= base);
    } else {
        assert((base + stack).last() == stack.last());
        assert((base + stack).drop_last() =~= base + stack.drop_last());
        lemma_pop_binding_frame(base, stack.drop_last(), p);
    }
}

proof fn lemma_pop_all_frame(base: Seq<StackEntry>, stack: Seq<StackEntry>)
    requires
        pop_all(base) is Some,
        pop_all(stack) is Some,
    ensures
        pop_all(base + stack) == Some(pop_all(stack)->0 + pop_all(base)->0),
    decreases stack.len(),
{
    if stack.len() == 0 {
        assert(base + stack =~= base);
        assert(pop_all(stack)->0 + pop_all(base)->0 =~= pop_all(base)->0);
    } else {
        assert((base + stack).last() == stack.last());
        assert((base + stack).drop_last() =~= base + stack.drop_last());
        lemma_pop_all_frame(base, stack.drop_last());
        let op = stack.last()->Operator_0;
        assert(seq![CellModel::Operator(op)] + (pop_all(stack.drop_last())->0 + pop_all(base)->0)
            =~= (seq![CellModel::Operator(op)] + pop_all(stack.drop_last())->0) + pop_all(
            base,
        )->0);
    }
}

proof fn lemma_pop_all_single(o: CalculatorOperator)
    ensures
        pop_all(seq![StackEntry::Operator(o)]) == Some(seq![CellModel::Operator(o)]),
{
    let base = seq![StackEntry::Operator(o)];
    assert(base.drop_last() =~= Seq::<StackEntry>::empty());
    assert(pop_all(Seq::<StackEntry>::empty()) == Some(Seq::<CellModel>::empty()));
    assert(seq![CellModel::Operator(o)] + Seq::<CellModel>::empty() =~= seq![
        CellModel::Operator(o),
    ]);
}


proof fn lemma_scan_prefix(
    operands: Seq<CellModel>,
    ops: Seq<CalculatorOperator>,
    other_operands: Seq<CellModel>,
    other_ops: Seq<CalculatorOperator>,
    t: int,
)
    requires
        0 <= t,
        t < operands.len(),
        t < other_operands.len(),
        t <= ops.len(),
        t <= other_ops.len(),
        forall|q: int| 0 <= q <= t ==> #[trigger] operands[q] == other_operands[q],
        forall|q: int| 0 <= q < t ==> #[trigger] ops[q] == other_ops[q],
    ensures
        scan(operands, ops, t) == scan(other_operands, other_ops, t),
    decreases t,
{
    if t > 0 {
        lemma_scan_prefix(operands, ops, other_operands, other_ops, t - 1);
        assert(operands[t] == other_operands[t]);
        assert(ops[t - 1] == other_ops[t - 1]);
    } else {
        assert(operands[0] == other_operands[0]);
    }
}

/// Up to the operand right after the operator applied last, the conversion
/// has emitted the postfix form of the expression on its left, and its stack
/// holds that operator alone.
proof fn lemma_scan_left(
    operands: Seq<CellModel>,
    ops: Seq<CalculatorOperator>,
    j: int,
    left_postfix: Seq<CellModel>,
)
    requires
        operands.len() == ops.len() + 1,
        0 <= j < ops.len(),
        forall|q: int| 0 <= q < j ==> ops[j].spec_precedence() <= (#[trigger] ops[q]).spec_precedence(),
        ({
            let (output, stack) = scan(operands.subrange(0, j + 1), ops.subrange(0, j), j);
            &&& pop_all(stack) is Some
            &&& output + pop_all(stack)->0 == left_postfix
        }),
    ensures
        scan(operands, ops, j + 1) == (left_postfix + seq![operands[j + 1]], seq![
            StackEntry::Operator(ops[j]),
        ]),
{
    let o = ops[j];
    let left_operands = operands.subrange(0, j + 1);
    let left_ops = ops.subrange(0, j);
    lemma_scan_prefix(operands, ops, left_operands, left_ops, j);
    assert forall|q: int| 0 <= q < j implies (#[trigger] left_ops[q]).spec_precedence()
        >= o.spec_precedence() by {
        assert(left_ops[q] == ops[q]);
    }
    lemma_scan_stack(left_operands, left_ops, j, o.spec_precedence());
    let (left_output, left_stack) = scan(left_operands, left_ops, j);
    lemma_pop_binding_all(left_stack, o.spec_precedence());
    assert(Seq::<StackEntry>::empty().push(StackEntry::Operator(o)) =~= seq![
        StackEntry::Operator(o),
    ]);
}

proof fn lemma_scan_frame(
    operands: Seq<CellModel>,
    ops: Seq<CalculatorOperator>,
    j: int,
    base_output: Seq<CellModel>,
    u: int,
)
    requires
        operands.len() == ops.len() + 1,
        0 <= j < ops.len(),
        0 <= u,
        j + 1 + u <= ops.len(),
        forall|q: int|
            j < q < ops.len() ==> ops[j].spec_precedence() < (#[trigger] ops[q]).spec_precedence(),
        scan(operands, ops, j + 1) == (base_output + seq![operands[j + 1]], seq![
            StackEntry::Operator(ops[j]),
        ]),
    ensures
        ({
            let right_operands = operands.subrange(j + 1, operands.len() as int);
            let right_ops = ops.subrange(j + 1, ops.len() as int);
            scan(operands, ops, j + 1 + u) == (base_output + scan(
                right_operands,
                right_ops,
                u,
            ).0, seq![StackEntry::Operator(ops[j])] + scan(right_operands, right_ops, u).1)
        }),
    decreases u,
{
    let right_operands = operands.subrange(j + 1, operands.len() as int);
    let right_ops = ops.subrange(j + 1, ops.len() as int);
    let base = seq![StackEntry::Operator(ops[j])];
    if u == 0 {
        assert(right_operands[0] == operands[j + 1]);
        assert(base + Seq::<StackEntry>::empty() =~= base);
    } else {
        lemma_scan_frame(operands, ops, j, base_output, u - 1);
        let op = ops[j + u];
        assert(right_ops[u - 1] == op);
        assert(right_operands[u] == operands[j + 1 + u]);
        assert(ops[j].spec_precedence() < op.spec_precedence());
        let (output, stack) = scan(right_operands, right_ops, u - 1);
        let (popped, rest) = pop_binding(stack, op.spec_precedence());
        lemma_pop_binding_frame(base, stack, op.spec_precedence());
        assert(base_output + output + popped + seq![operands[j + 1 + u]] =~= base_output + (output
            + popped + seq![right_operands[u]]));
        assert((base + rest).push(StackEntry::Operator(op)) =~= base + rest.push(
            StackEntry::Operator(op),
        ));
    }
}

proof fn lemma_scan_tree(operands: Seq<CellModel>, ops: Seq<CalculatorOperator>)
    requires
        operands.len() == ops.len() + 1,
    ensures
        pop_all(scan(operands, ops, ops.len() as int).1) is Some,
        scan(operands, ops, ops.len() as int).0 + pop_all(scan(operands, ops, ops.len() as int).1)->0
            == tree_postfix(operands, ops),
    decreases ops.len(),
{
    if ops.len() == 0 {
        assert(seq![operands[0]] + Seq::<CellModel>::empty() =~= seq![operands[0]]);
    } else {
        lemma_last_applied(ops);
        let j = last_applied(ops);
        let o = ops[j];
        let left_operands = operands.subrange(0, j + 1);
        let left_ops = ops.subrange(0, j);
        let right_operands = operands.subrange(j + 1, operands.len() as int);
        let right_ops = ops.subrange(j + 1, ops.len() as int);
        lemma_scan_tree(left_operands, left_ops);
        lemma_scan_tree(right_operands, right_ops);
        lemma_scan_left(operands, ops, j, tree_postfix(left_operands, left_ops));
        let k = right_ops.len() as int;
        lemma_scan_frame(operands, ops, j, tree_postfix(left_operands, left_ops), k);
        let (right_output, right_stack) = scan(right_operands, right_ops, k);
        lemma_pop_all_single(o);
        lemma_pop_all_frame(seq![StackEntry::Operator(o)], right_stack);
        assert(tree_postfix(left_operands, left_ops) + right_output + (pop_all(right_stack)->0
            + seq![CellModel::Operator(o)]) =~= tree_postfix(left_operands, left_ops) + (
        right_output + pop_all(right_stack)->0) + seq![CellModel::Operator(o)]);
    }
}

/// The text of one operand: a named number (`a`, `p` or `e`), or digits
/// with at most one decimal point that start with a digit.
pub open spec fn is_operand_text(t: Seq<char>) -> bool {
    ||| t.len() == 1 && (t[0] == 'a' || t[0] == 'p' || t[0] == 'e')
    ||| t.len() >= 1 && is_digit(t[0]) && count_dots(t) <= 1 && forall|k: int|
        0 <= k < t.len() ==> in_number(#[trigger] t[k])
}

/// The token that an operand's text converts to.
pub open spec fn operand_cell(t: Seq<char>) -> CellModel {
    if t[0] == 'a' {
        CellModel::Number(OperandModel::Answer)
    } else if t[0] == 'p' {
        CellModel::Number(OperandModel::Pi)
    } else if t[0] == 'e' {
        CellModel::Number(OperandModel::Euler)
    } else {
        CellModel::Number(OperandModel::Literal(t))
    }
}

/// Operand texts with an operator character between each two of them:
/// `symbols[i]` stands between `texts[i]` and `texts[i + 1]`.
pub open spec fn join(texts: Seq<Seq<char>>, symbols: Seq<char>) -> Seq<char>
    decreases symbols.len(),
{
    if symbols.len() == 0 {
        texts[0]
    } else {
        join(texts.drop_last(), symbols.drop_last()) + seq![symbols.last()] + texts.last()
    }
}

/// The text of the first `t + 1` operands and the operators between them.
spec fn joined_prefix(texts: Seq<Seq<char>>, symbols: Seq<char>, t: int) -> Seq<char> {
    join(texts.subrange(0, t + 1), symbols.subrange(0, t))
}

/// Operand texts and operator characters that make a bracket-free
/// expression.
pub open spec fn is_bracket_free(texts: Seq<Seq<char>>, symbols: Seq<char>) -> bool {
    &&& texts.len() == symbols.len() + 1
    &&& forall|i: int| 0 <= i < texts.len() ==> is_operand_text(#[trigger] texts[i])
    &&& forall|i: int| 0 <= i < symbols.len() ==> spec_binary_operator(#[trigger] symbols[i]) is Some
}

proof fn lemma_joined_step(texts: Seq<Seq<char>>, symbols: Seq<char>, t: int)
    requires
        texts.len() == symbols.len() + 1,
        0 <= t < symbols.len(),
    ensures
        joined_prefix(texts, symbols, t + 1) == joined_prefix(texts, symbols, t) + seq![symbols[t]]
            + texts[t + 1],
{
    let a = texts.subrange(0, t + 2);
    let b = symbols.subrange(0, t + 1);
    assert(a.drop_last() =~= texts.subrange(0, t + 1));
    assert(b.drop_last() =~= symbols.subrange(0, t));
}

proof fn lemma_joined_last(texts: Seq<Seq<char>>, symbols: Seq<char>, t: int)
    requires
        is_bracket_free(texts, symbols),
        0 <= t <= symbols.len(),
    ensures
        joined_prefix(texts, symbols, t).len() >= texts[t].len() >= 1,
        joined_prefix(texts, symbols, t).last() == texts[t].last(),
{
    assert(is_operand_text(texts[t]));
    if t == 0 {
        assert(texts.subrange(0, 1)[0] == texts[0]);
    } else {
        lemma_joined_step(texts, symbols, t - 1);
    }
}

proof fn lemma_joined_prefix(texts: Seq<Seq<char>>, symbols: Seq<char>, t: int)
    requires
        texts.len() == symbols.len() + 1,
        0 <= t <= symbols.len(),
    ensures
        joined_prefix(texts, symbols, t).len() <= join(texts, symbols).len(),
        join(texts, symbols).subrange(0, joined_prefix(texts, symbols, t).len() as int)
            == joined_prefix(texts, symbols, t),
    decreases symbols.len() - t,
{
    let s = join(texts, symbols);
    if t == symbols.len() {
        assert(texts.subrange(0, t + 1) =~= texts);
        assert(symbols.subrange(0, t) =~= symbols);
        assert(s.subrange(0, s.len() as int) =~= s);
    } else {
        lemma_joined_prefix(texts, symbols, t + 1);
        lemma_joined_step(texts, symbols, t);
        let shorter = joined_prefix(texts, symbols, t);
        let longer = joined_prefix(texts, symbols, t + 1);
        assert(s.subrange(0, shorter.len() as int) =~= longer.subrange(0, shorter.len() as int));
        assert(longer.subrange(0, shorter.len() as int) =~= shorter);
    }
}

proof fn lemma_number_run(s: Seq<char>, i: int, end: int)
    requires
        0 <= i <= end <= s.len(),
        forall|k: int| i <= k < end ==> in_number(#[trigger] s[k]),
        end < s.len() ==> !in_number(s[end]),
    ensures
        number_end(s, i) == end,
    decreases end - i,
{
    if i < end {
        lemma_number_run(s, i + 1, end);
    }
}

/// An operand's text, followed by an operator or the end, converts to its
/// token.
proof fn lemma_convert_operand(
    s: Seq<char>,
    p: int,
    text: Seq<char>,
    output: Seq<CellModel>,
    stack: Seq<StackEntry>,
)
    requires
        is_operand_text(text),
        0 <= p,
        p + text.len() <= s.len(),
        s.subrange(p, p + text.len()) == text,
        p + text.len() < s.len() ==> spec_binary_operator(s[p + text.len()]) is Some,
    ensures
        convert(s, p, output, stack) == convert(
            s,
            p + text.len(),
            output.push(operand_cell(text)),
            stack,
        ),
{
    let end = p + text.len();
    assert(s[p] == text[0]);
    if is_digit(text[0]) {
        assert forall|k: int| p <= k < end implies in_number(#[trigger] s[k]) by {
            assert(s[k] == text[k - p]);
        }
        lemma_number_run(s, p, end);
    }
}

proof fn lemma_convert_scan(texts: Seq<Seq<char>>, symbols: Seq<char>, t: int)
    requires
        is_bracket_free(texts, symbols),
        0 <= t <= symbols.len(),
    ensures
        ({
            let s = join(texts, symbols);
            let operands = texts.map_values(|text: Seq<char>| operand_cell(text));
            let ops = symbols.map_values(|c: char| spec_binary_operator(c)->0);
            postfix_of(s) == convert(
                s,
                joined_prefix(texts, symbols, t).len() as int,
                leading_output(s) + scan(operands, ops, t).0,
                scan(operands, ops, t).1,
            )
        }),
    decreases t,
{
    let s = join(texts, symbols);
    let operands = texts.map_values(|text: Seq<char>| operand_cell(text));
    let ops = symbols.map_values(|c: char| spec_binary_operator(c)->0);
    let lead = leading_output(s);
    let here = joined_prefix(texts, symbols, t);
    lemma_joined_prefix(texts, symbols, t);
    assert(is_operand_text(texts[t]));
    assert(operands[t] == operand_cell(texts[t]));
    // what follows the operand `t`: the next operator, or the end
    if t < symbols.len() {
        lemma_joined_step(texts, symbols, t);
        lemma_joined_prefix(texts, symbols, t + 1);
        let next = joined_prefix(texts, symbols, t + 1);
        assert(s[here.len() as int] == next[here.len() as int]);
        assert(spec_binary_operator(symbols[t]) is Some);
    } else {
        assert(texts.subrange(0, t + 1) =~= texts);
        assert(symbols.subrange(0, t) =~= symbols);
    }
    if t == 0 {
        let text = texts[0];
        assert(texts.subrange(0, 1)[0] == text);
        assert(here == text);
        assert(s.subrange(0, text.len() as int) == text);
        lemma_convert_operand(s, 0, text, lead, Seq::<StackEntry>::empty());
        assert(lead.push(operand_cell(text)) =~= lead + seq![operands[0]]);
    } else {
        lemma_convert_scan(texts, symbols, t - 1);
        lemma_joined_step(texts, symbols, t - 1);
        lemma_joined_last(texts, symbols, t - 1);
        let before = joined_prefix(texts, symbols, t - 1);
        let q = before.len() as int;
        let text = texts[t];
        let (output, stack) = scan(operands, ops, t - 1);
        // the operator between the operands `t - 1` and `t`
        assert(here[q] == symbols[t - 1]);
        assert(s[q] == here[q]);
        assert(s[q - 1] == here[q - 1]);
        assert(here[q - 1] == before.last());
        let last = texts[t - 1].last();
        assert(last == texts[t - 1][texts[t - 1].len() - 1]);
        assert(in_number(last) || last == 'a' || last == 'p' || last == 'e');
        assert(spec_binary_operator(symbols[t - 1]) is Some);
        let op = ops[t - 1];
        assert(op == spec_binary_operator(symbols[t - 1])->0);
        assert(operator_at(s, q) == op);
        let (popped, rest) = pop_binding(stack, op.spec_precedence());
        let pushed = rest.push(StackEntry::Operator(op));
        assert(convert(s, q, lead + output, stack) == convert(s, q + 1, lead + output + popped, pushed));
        // the operand `t`
        assert forall|k: int| 0 <= k < text.len() implies #[trigger] s.subrange(q + 1, q + 1 + text.len())[k]
            == text[k] by {
            assert(s[q + 1 + k] == here[q + 1 + k]);
            assert(here[q + 1 + k] == text[k]);
        }
        assert(s.subrange(q + 1, q + 1 + text.len()) =~= text);
        lemma_convert_operand(s, q + 1, text, lead + output + popped, pushed);
        assert((lead + output + popped).push(operand_cell(text)) =~= lead + (output + popped
            + seq![operands[t]]));
    }
}

/// Every bracket-free expression, of literals, named numbers and binary
/// operators, converts to the postfix form of its precedence tree: the
/// operators are applied in the order that their precedence and grouping to
/// the left give, whatever their number. An expression that starts with a
/// named number also has the previous answer put before it.
pub proof fn lemma_precedence_tree(texts: Seq<Seq<char>>, symbols: Seq<char>)
    requires
        is_bracket_free(texts, symbols),
    ensures
        postfix_of(join(texts, symbols)) == Ok::<Seq<CellModel>, CalculatorError>(
            leading_output(join(texts, symbols)) + tree_postfix(
                texts.map_values(|text: Seq<char>| operand_cell(text)),
                symbols.map_values(|c: char| spec_binary_operator(c)->0),
            ),
        ),
{
    let s = join(texts, symbols);
    let operands = texts.map_values(|text: Seq<char>| operand_cell(text));
    let ops = symbols.map_values(|c: char| spec_binary_operator(c)->0);
    let k = symbols.len() as int;
    lemma_convert_scan(texts, symbols, k);
    lemma_joined_prefix(texts, symbols, k);
    assert(texts.subrange(0, k + 1) =~= texts);
    assert(symbols.subrange(0, k) =~= symbols);
    lemma_scan_tree(operands, ops);
    let (output, stack) = scan(operands, ops, k);
    assert(leading_output(s) + output + pop_all(stack)->0 =~= leading_output(s) + (output + pop_all(
        stack,
    )->0));
}

} // verus!
