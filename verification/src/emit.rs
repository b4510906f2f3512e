//! What the generator emits for each node of the syntax tree.

use crate::ast::NodeView;
use crate::instr::{
    arithmetic, escape, escape_condition, is_comparison, label_text, lemma_escape_negates,
    lemma_label_text_injective, render, Instr, Label, LabelKind,
};
use vstd::prelude::*;

verus! {

/// What generating a node adds: instructions, the number of labels it
/// takes, and whether it calls the print routine.
pub struct Emitted {
    pub code: Seq<Instr>,
    pub labels: nat,
    pub prints: bool,
}

impl Emitted {
    /// No instruction, no label, no printing.
    pub open spec fn nothing() -> Emitted {
        Emitted { code: Seq::empty(), labels: 0, prints: false }
    }

    /// Only the instructions `code`.
    pub open spec fn only(code: Seq<Instr>) -> Emitted {
        Emitted { code, labels: 0, prints: false }
    }

    /// Taking one label, with no instruction.
    pub open spec fn label() -> Emitted {
        Emitted { code: Seq::empty(), labels: 1, prints: false }
    }

    /// The call of the print routine.
    pub open spec fn print() -> Emitted {
        Emitted { code: seq![Instr::CallPrint], labels: 0, prints: true }
    }

    /// This followed by `next`.
    pub open spec fn followed_by(self, next: Emitted) -> Emitted {
        Emitted {
            code: self.code + next.code,
            labels: self.labels + next.labels,
            prints: self.prints || next.prints,
        }
    }

    /// This followed by the instructions `code`.
    pub open spec fn plus(self, code: Seq<Instr>) -> Emitted {
        self.followed_by(Emitted::only(code))
    }
}

/// The code that compares two operands, given the code of each: the right
/// one is computed first and waits on the stack; then `eax` holds the left
/// one, `ebx` the right one, and the flags their comparison.
pub open spec fn compare(lhs: Emitted, rhs: Emitted) -> Emitted {
    rhs.plus(seq![Instr::Push]).followed_by(lhs).plus(seq![Instr::Pop]).plus(
        seq![Instr::Compare],
    )
}

/// The code of an `if` block, given the code of the two sides of its
/// condition and of its body: the comparison, the jump that skips the body
/// when the condition fails, the body, and the label the jump goes to.
pub open spec fn if_code(lhs: Emitted, rhs: Emitted, op: Seq<char>, body: Emitted, next: nat) -> Emitted {
    let operands = compare(lhs, rhs);
    let end = Label { kind: LabelKind::EndIf, id: next + operands.labels };
    operands.followed_by(Emitted::label()).plus(seq![escape(op, end)]).followed_by(body).plus(
        seq![Instr::Mark(end)],
    )
}

/// The code of a `while` block, given the code of the two sides of its
/// condition and of its body: the entry label, the comparison, the jump
/// that leaves the loop when the condition fails, the body, the jump back
/// to the entry, and the exit label.
pub open spec fn while_code(
    lhs: Emitted,
    rhs: Emitted,
    op: Seq<char>,
    body: Emitted,
    next: nat,
) -> Emitted {
    let start = Label { kind: LabelKind::WhileStart, id: next };
    let end = Label { kind: LabelKind::WhileEnd, id: next + 1 };
    Emitted::label().followed_by(Emitted::label()).plus(seq![Instr::Mark(start)]).followed_by(
        compare(lhs, rhs),
    ).plus(seq![escape(op, end)]).followed_by(body).plus(seq![Instr::Jump(start)]).plus(
        seq![Instr::Mark(end)],
    )
}

/// The layout of an `if` block: the right side of the condition, saved on
/// the stack; the left side; the comparison; the jump to the end label,
/// taken when the condition fails; the body; the end label. So the body is
/// skipped when the condition is false, and entered when it is true.
pub proof fn lemma_if_layout(lhs: Emitted, rhs: Emitted, op: Seq<char>, body: Emitted, next: nat)
    ensures
        ({
            let end = Label { kind: LabelKind::EndIf, id: next + rhs.labels + lhs.labels };
            let block = if_code(lhs, rhs, op, body, next);
            &&& block.code == rhs.code + seq![Instr::Push] + lhs.code + seq![
                Instr::Pop,
                Instr::Compare,
                escape(op, end),
            ] + body.code + seq![Instr::Mark(end)]
            &&& block.labels == rhs.labels + lhs.labels + 1 + body.labels
        }),
{
    let end = Label { kind: LabelKind::EndIf, id: next + rhs.labels + lhs.labels };
    assert(if_code(lhs, rhs, op, body, next).code =~= rhs.code + seq![Instr::Push] + lhs.code
        + seq![Instr::Pop, Instr::Compare, escape(op, end)] + body.code + seq![Instr::Mark(end)]);
}

/// The layout of a `while` block: the entry label, before the condition;
/// the right side of the condition, saved on the stack; the left side; the
/// comparison; the jump to the exit label, taken when the condition fails;
/// the body; the jump back to the entry label; the exit label. So a
/// condition that is false at the first check skips the body entirely.
pub proof fn lemma_while_layout(
    lhs: Emitted,
    rhs: Emitted,
    op: Seq<char>,
    body: Emitted,
    next: nat,
)
    ensures
        ({
            let start = Label { kind: LabelKind::WhileStart, id: next };
            let end = Label { kind: LabelKind::WhileEnd, id: next + 1 };
            let block = while_code(lhs, rhs, op, body, next);
            &&& block.code == seq![Instr::Mark(start)] + rhs.code + seq![Instr::Push] + lhs.code
                + seq![Instr::Pop, Instr::Compare, escape(op, end)] + body.code + seq![
                Instr::Jump(start),
                Instr::Mark(end),
            ]
            &&& block.labels == 2 + rhs.labels + lhs.labels + body.labels
        }),
{
    let start = Label { kind: LabelKind::WhileStart, id: next };
    let end = Label { kind: LabelKind::WhileEnd, id: next + 1 };
    assert(while_code(lhs, rhs, op, body, next).code =~= seq![Instr::Mark(start)] + rhs.code
        + seq![Instr::Push] + lhs.code + seq![Instr::Pop, Instr::Compare, escape(op, end)]
        + body.code + seq![Instr::Jump(start), Instr::Mark(end)]);
}

/// What generating `node` adds when `next` labels have been taken before it.
pub open spec fn emit(node: NodeView, next: nat) -> Emitted
    decreases node,
{
    match node {
        NodeView::Assignment { var_name, expr } => emit(*expr, next).plus(
            seq![Instr::StoreVariable(var_name)],
        ),
        NodeView::ArrayAssignment { arr_name, position, value } => {
            let address = Emitted::only(seq![Instr::LoadAddress(arr_name)]);
            let at = emit(*position, next);
            let what = emit(*value, next + at.labels);
            address.followed_by(at).plus(seq![Instr::SaveIndex]).followed_by(what).plus(
                seq![Instr::StoreElement],
            )
        },
        NodeView::BinaryOperation { op, left, right } => {
            let rhs = emit(*right, next);
            let lhs = emit(*left, next + rhs.labels);
            rhs.plus(seq![Instr::Push]).followed_by(lhs).plus(seq![Instr::Pop]).plus(
                arithmetic(op),
            )
        },
        NodeView::Literal(value) => Emitted::only(seq![Instr::LoadLiteral(value)]),
        NodeView::Variable(name) => Emitted::only(seq![Instr::LoadVariable(name)]),
        NodeView::IfOperation { first_half, comparison_op, second_half, content } => {
            let rhs = emit(*second_half, next);
            let lhs = emit(*first_half, next + rhs.labels);
            let body = emit_block(content, next + rhs.labels + lhs.labels + 1);
            if_code(lhs, rhs, comparison_op, body, next)
        },
        NodeView::WhileOperation { first_half, comparison_op, second_half, content } => {
            let rhs = emit(*second_half, next + 2);
            let lhs = emit(*first_half, next + 2 + rhs.labels);
            let body = emit_block(content, next + 2 + rhs.labels + lhs.labels);
            while_code(lhs, rhs, comparison_op, body, next)
        },
        NodeView::Print(expr) => emit(*expr, next).followed_by(Emitted::print()),
        NodeView::Array { arr_name, index } => emit(*index, next).plus(
            seq![Instr::LoadAddress(arr_name)],
        ).plus(seq![Instr::LoadElement]),
        NodeView::Error => Emitted::only(seq![Instr::ErrorMarker]),
        _ => Emitted::nothing(),
    }
}

/// The code that compares the two halves of the condition of an `if` or
/// `while` header.
pub open spec fn condition_code(node: NodeView, next: nat) -> Emitted {
    match node {
        NodeView::IfOperation { first_half, comparison_op, second_half, content } => {
            let rhs = emit(*second_half, next);
            compare(emit(*first_half, next + rhs.labels), rhs)
        },
        NodeView::WhileOperation { first_half, comparison_op, second_half, content } => {
            let rhs = emit(*second_half, next);
            compare(emit(*first_half, next + rhs.labels), rhs)
        },
        _ => Emitted::nothing(),
    }
}

/// What generating the statements of a block adds, one after the other.
pub open spec fn emit_block(nodes: Seq<NodeView>, next: nat) -> Emitted
    decreases nodes,
{
    if nodes.len() == 0 {
        Emitted::nothing()
    } else {
        let before = emit_block(nodes.drop_last(), next);
        before.followed_by(emit(nodes.last(), next + before.labels))
    }
}

/// Whether the generator can lower `node`: it reaches no function
/// definition, end of definition or call. The size of an array declaration
/// is never visited.
pub open spec fn supported(node: NodeView) -> bool
    decreases node,
{
    match node {
        NodeView::Assignment { var_name, expr } => supported(*expr),
        NodeView::ArrayAssignment { arr_name, position, value } => supported(*position)
            && supported(*value),
        NodeView::BinaryOperation { op, left, right } => supported(*left) && supported(*right),
        NodeView::IfOperation { first_half, comparison_op, second_half, content } => supported(
            *first_half,
        ) && supported(*second_half) && block_supported(content),
        NodeView::WhileOperation { first_half, comparison_op, second_half, content } => supported(
            *first_half,
        ) && supported(*second_half) && block_supported(content),
        NodeView::Print(expr) => supported(*expr),
        NodeView::Array { arr_name, index } => supported(*index),
        NodeView::FunctionDef { .. } => false,
        NodeView::EndFunctionDef => false,
        NodeView::FuntionCall { .. } => false,
        _ => true,
    }
}

/// Whether the generator can lower every statement of a block.
pub open spec fn block_supported(nodes: Seq<NodeView>) -> bool
    decreases nodes,
{
    nodes.len() == 0 || (block_supported(nodes.drop_last()) && supported(nodes.last()))
}

/// The number of labels that generating `node` takes: one for each `if`
/// and two for each `while` that the generator reaches.
pub open spec fn label_count(node: NodeView) -> nat
    decreases node,
{
    match node {
        NodeView::Assignment { var_name, expr } => label_count(*expr),
        NodeView::ArrayAssignment { arr_name, position, value } => label_count(*position)
            + label_count(*value),
        NodeView::BinaryOperation { op, left, right } => label_count(*right) + label_count(*left),
        NodeView::IfOperation { first_half, comparison_op, second_half, content } => label_count(
            *second_half,
        ) + label_count(*first_half) + 1 + block_label_count(content),
        NodeView::WhileOperation { first_half, comparison_op, second_half, content } => 2
            + label_count(*second_half) + label_count(*first_half) + block_label_count(content),
        NodeView::Print(expr) => label_count(*expr),
        NodeView::Array { arr_name, index } => label_count(*index),
        _ => 0,
    }
}

/// The number of labels that generating a block takes.
pub open spec fn block_label_count(nodes: Seq<NodeView>) -> nat
    decreases nodes,
{
    if nodes.len() == 0 {
        0
    } else {
        block_label_count(nodes.drop_last()) + label_count(nodes.last())
    }
}

/// The number of labels a node takes does not depend on how many were
/// taken before it.
pub proof fn lemma_labels_taken(node: NodeView, next: nat)
    ensures
        emit(node, next).labels == label_count(node),
    decreases node,
{
    match node {
        NodeView::Assignment { var_name, expr } => {
            lemma_labels_taken(*expr, next);
        },
        NodeView::ArrayAssignment { arr_name, position, value } => {
            lemma_labels_taken(*position, next);
            lemma_labels_taken(*value, next + label_count(*position));
        },
        NodeView::BinaryOperation { op, left, right } => {
            lemma_labels_taken(*right, next);
            lemma_labels_taken(*left, next + label_count(*right));
        },
        NodeView::IfOperation { first_half, comparison_op, second_half, content } => {
            lemma_labels_taken(*second_half, next);
            lemma_labels_taken(*first_half, next + label_count(*second_half));
            lemma_block_labels_taken(
                content,
                next + label_count(*second_half) + label_count(*first_half) + 1,
            );
        },
        NodeView::WhileOperation { first_half, comparison_op, second_half, content } => {
            lemma_labels_taken(*second_half, next + 2);
            lemma_labels_taken(*first_half, next + 2 + label_count(*second_half));
            lemma_block_labels_taken(
                content,
                next + 2 + label_count(*second_half) + label_count(*first_half),
            );
        },
        NodeView::Print(expr) => {
            lemma_labels_taken(*expr, next);
        },
        NodeView::Array { arr_name, index } => {
            lemma_labels_taken(*index, next);
        },
        _ => {},
    }
}

/// The number of labels a block takes does not depend on how many were
/// taken before it.
pub proof fn lemma_block_labels_taken(nodes: Seq<NodeView>, next: nat)
    ensures
        emit_block(nodes, next).labels == block_label_count(nodes),
    decreases nodes,
{
    if nodes.len() > 0 {
        lemma_block_labels_taken(nodes.drop_last(), next);
        lemma_labels_taken(nodes.last(), next + block_label_count(nodes.drop_last()));
    }
}

/// Taking labels for more statements never takes fewer labels.
pub proof fn lemma_block_labels_grow(nodes: Seq<NodeView>, count: int, next: nat)
    requires
        0 <= count <= nodes.len(),
    ensures
        emit_block(nodes.take(count), next).labels <= emit_block(nodes, next).labels,
    decreases nodes.len() - count,
{
    if count == nodes.len() {
        assert(nodes.take(count) == nodes);
    } else {
        assert(nodes.take(count + 1).drop_last() == nodes.take(count));
        lemma_block_labels_grow(nodes, count + 1, next);
    }
}

/// A block with an unsupported statement among its first `count` is not
/// supported.
pub proof fn lemma_block_supported_prefix(nodes: Seq<NodeView>, count: int)
    requires
        0 <= count <= nodes.len(),
        !block_supported(nodes.take(count)),
    ensures
        !block_supported(nodes),
    decreases nodes.len() - count,
{
    if count == nodes.len() {
        assert(nodes.take(count) == nodes);
    } else {
        assert(nodes.take(count + 1).drop_last() == nodes.take(count));
        lemma_block_supported_prefix(nodes, count + 1);
    }
}

/// The label count of a block is at least that of its first `count`
/// statements.
pub proof fn lemma_block_label_count_grows(nodes: Seq<NodeView>, count: int)
    requires
        0 <= count <= nodes.len(),
    ensures
        block_label_count(nodes.take(count)) <= block_label_count(nodes),
    decreases nodes.len() - count,
{
    if count == nodes.len() {
        assert(nodes.take(count) == nodes);
    } else {
        assert(nodes.take(count + 1).drop_last() == nodes.take(count));
        lemma_block_label_count_grows(nodes, count + 1);
    }
}

/// Whether every label that `code` marks has a number from `low` up to,
/// but not including, `high`.
pub open spec fn marks_within(code: Seq<Instr>, low: nat, high: nat) -> bool {
    forall|i: int|
        0 <= i < code.len() && (#[trigger] code[i]) is Mark ==> low <= code[i]->Mark_0.id < high
}

/// Whether no two places of `code` mark labels of the same number.
pub open spec fn marks_distinct(code: Seq<Instr>) -> bool {
    forall|i: int, j: int|
        0 <= i < j < code.len() && (#[trigger] code[i]) is Mark && (#[trigger] code[j]) is Mark
            ==> code[i]->Mark_0.id != code[j]->Mark_0.id
}

/// Whether the labels that `emitted` marks are numbered from `next`, each
/// number once and none beyond the labels it takes.
pub open spec fn numbered(emitted: Emitted, next: nat) -> bool {
    marks_within(emitted.code, next, next + emitted.labels) && marks_distinct(emitted.code)
}

/// Code that marks labels from one range, next to code that marks labels
/// from a range apart from it, marks no number twice.
proof fn lemma_join_marks(
    a: Seq<Instr>,
    b: Seq<Instr>,
    low_a: nat,
    high_a: nat,
    low_b: nat,
    high_b: nat,
    low: nat,
    high: nat,
)
    requires
        marks_within(a, low_a, high_a),
        marks_distinct(a),
        marks_within(b, low_b, high_b),
        marks_distinct(b),
        high_a <= low_b || high_b <= low_a,
        low <= low_a && low <= low_b && high_a <= high && high_b <= high,
    ensures
        marks_within(a + b, low, high),
        marks_distinct(a + b),
{
    let c = a + b;
    assert forall|i: int| 0 <= i < c.len() && (#[trigger] c[i]) is Mark implies low
        <= c[i]->Mark_0.id < high by {
        if i < a.len() {
            assert(c[i] == a[i]);
        } else {
            assert(c[i] == b[i - a.len()]);
        }
    }
    assert forall|i: int, j: int|
        0 <= i < j < c.len() && (#[trigger] c[i]) is Mark && (#[trigger] c[j]) is Mark implies c[i]->Mark_0.id
        != c[j]->Mark_0.id by {
        if j < a.len() {
            assert(c[i] == a[i] && c[j] == a[j]);
        } else if i < a.len() {
            assert(c[i] == a[i] && c[j] == b[j - a.len()]);
        } else {
            assert(c[i] == b[i - a.len()] && c[j] == b[j - a.len()]);
        }
    }
}

/// What is numbered from `next`, followed by what is numbered from where
/// the first stopped, is numbered from `next`.
proof fn lemma_numbered_chain(first: Emitted, second: Emitted, next: nat)
    requires
        numbered(first, next),
        numbered(second, next + first.labels),
    ensures
        numbered(first.followed_by(second), next),
{
    lemma_join_marks(
        first.code,
        second.code,
        next,
        next + first.labels,
        next + first.labels,
        next + first.labels + second.labels,
        next,
        next + first.labels + second.labels,
    );
}

/// Whether `code` marks no label.
pub open spec fn marks_nothing(code: Seq<Instr>) -> bool {
    forall|i: int| 0 <= i < code.len() ==> !((#[trigger] code[i]) is Mark)
}

/// Following numbered code by code that marks no label keeps it numbered.
proof fn lemma_numbered_plus(first: Emitted, code: Seq<Instr>, next: nat)
    requires
        numbered(first, next),
        marks_nothing(code),
    ensures
        numbered(first.plus(code), next),
{
    lemma_numbered_chain(first, Emitted::only(code), next);
}

/// The comparison of two numbered operands is numbered.
proof fn lemma_compare_numbered(lhs: Emitted, rhs: Emitted, next: nat)
    requires
        numbered(rhs, next),
        numbered(lhs, next + rhs.labels),
    ensures
        numbered(compare(lhs, rhs), next),
{
    let a = rhs.plus(seq![Instr::Push]);
    lemma_numbered_plus(rhs, seq![Instr::Push], next);
    let b = a.followed_by(lhs);
    lemma_numbered_chain(a, lhs, next);
    let c = b.plus(seq![Instr::Pop]);
    lemma_numbered_plus(b, seq![Instr::Pop], next);
    lemma_numbered_plus(c, seq![Instr::Compare], next);
}

/// The code of an `if` block with numbered parts is numbered.
proof fn lemma_if_numbered(lhs: Emitted, rhs: Emitted, op: Seq<char>, body: Emitted, next: nat)
    requires
        numbered(rhs, next),
        numbered(lhs, next + rhs.labels),
        numbered(body, next + rhs.labels + lhs.labels + 1),
    ensures
        numbered(if_code(lhs, rhs, op, body, next), next),
{
    let operands = compare(lhs, rhs);
    let end = Label { kind: LabelKind::EndIf, id: next + operands.labels };
    let top = next + operands.labels + 1 + body.labels;
    lemma_compare_numbered(lhs, rhs, next);
    let head = operands.code + seq![escape(op, end)];
    lemma_join_marks(
        operands.code,
        seq![escape(op, end)],
        next,
        end.id,
        end.id,
        end.id,
        next,
        end.id,
    );
    let tail = body.code + seq![Instr::Mark(end)];
    lemma_join_marks(
        body.code,
        seq![Instr::Mark(end)],
        end.id + 1,
        top,
        end.id,
        end.id + 1,
        end.id,
        top,
    );
    lemma_join_marks(head, tail, next, end.id, end.id, top, next, top);
    assert(if_code(lhs, rhs, op, body, next).code =~= head + tail);
}

/// The code of a `while` block with numbered parts is numbered.
proof fn lemma_while_numbered(lhs: Emitted, rhs: Emitted, op: Seq<char>, body: Emitted, next: nat)
    requires
        numbered(rhs, next + 2),
        numbered(lhs, next + 2 + rhs.labels),
        numbered(body, next + 2 + rhs.labels + lhs.labels),
    ensures
        numbered(while_code(lhs, rhs, op, body, next), next),
{
    let start = Label { kind: LabelKind::WhileStart, id: next };
    let end = Label { kind: LabelKind::WhileEnd, id: next + 1 };
    let operands = compare(lhs, rhs);
    let top = next + 2 + operands.labels + body.labels;
    lemma_compare_numbered(lhs, rhs, next + 2);
    let a = operands.plus(seq![escape(op, end)]);
    lemma_numbered_plus(operands, seq![escape(op, end)], next + 2);
    let b = a.followed_by(body);
    lemma_numbered_chain(a, body, next + 2);
    let c = b.plus(seq![Instr::Jump(start)]);
    lemma_numbered_plus(b, seq![Instr::Jump(start)], next + 2);
    let tail = c.code + seq![Instr::Mark(end)];
    lemma_join_marks(
        c.code,
        seq![Instr::Mark(end)],
        next + 2,
        top,
        next + 1,
        next + 2,
        next + 1,
        top,
    );
    lemma_join_marks(seq![Instr::Mark(start)], tail, next, next + 1, next + 1, top, next, top);
    assert(while_code(lhs, rhs, op, body, next).code =~= seq![Instr::Mark(start)] + tail);
}

/// The labels that the code of a node marks are numbered from the count
/// of labels taken before it, each number once.
pub proof fn lemma_marks_numbered(node: NodeView, next: nat)
    ensures
        numbered(emit(node, next), next),
    decreases node,
{
    match node {
        NodeView::Assignment { var_name, expr } => {
            lemma_marks_numbered(*expr, next);
            lemma_numbered_plus(emit(*expr, next), seq![Instr::StoreVariable(var_name)], next);
        },
        NodeView::ArrayAssignment { arr_name, position, value } => {
            let address = Emitted::only(seq![Instr::LoadAddress(arr_name)]);
            let at = emit(*position, next);
            let what = emit(*value, next + at.labels);
            lemma_marks_numbered(*position, next);
            lemma_marks_numbered(*value, next + at.labels);
            lemma_numbered_chain(address, at, next);
            let a = address.followed_by(at);
            lemma_numbered_plus(a, seq![Instr::SaveIndex], next);
            let b = a.plus(seq![Instr::SaveIndex]);
            lemma_numbered_chain(b, what, next);
            lemma_numbered_plus(b.followed_by(what), seq![Instr::StoreElement], next);
        },
        NodeView::BinaryOperation { op, left, right } => {
            let rhs = emit(*right, next);
            let lhs = emit(*left, next + rhs.labels);
            lemma_marks_numbered(*right, next);
            lemma_marks_numbered(*left, next + rhs.labels);
            lemma_numbered_plus(rhs, seq![Instr::Push], next);
            let a = rhs.plus(seq![Instr::Push]);
            lemma_numbered_chain(a, lhs, next);
            let b = a.followed_by(lhs);
            lemma_numbered_plus(b, seq![Instr::Pop], next);
            lemma_numbered_plus(b.plus(seq![Instr::Pop]), arithmetic(op), next);
        },
        NodeView::IfOperation { first_half, comparison_op, second_half, content } => {
            let rhs = emit(*second_half, next);
            let lhs = emit(*first_half, next + rhs.labels);
            let body = emit_block(content, next + rhs.labels + lhs.labels + 1);
            lemma_marks_numbered(*second_half, next);
            lemma_marks_numbered(*first_half, next + rhs.labels);
            lemma_block_marks_numbered(content, next + rhs.labels + lhs.labels + 1);
            lemma_if_numbered(lhs, rhs, comparison_op, body, next);
        },
        NodeView::WhileOperation { first_half, comparison_op, second_half, content } => {
            let rhs = emit(*second_half, next + 2);
            let lhs = emit(*first_half, next + 2 + rhs.labels);
            let body = emit_block(content, next + 2 + rhs.labels + lhs.labels);
            lemma_marks_numbered(*second_half, next + 2);
            lemma_marks_numbered(*first_half, next + 2 + rhs.labels);
            lemma_block_marks_numbered(content, next + 2 + rhs.labels + lhs.labels);
            lemma_while_numbered(lhs, rhs, comparison_op, body, next);
        },
        NodeView::Print(expr) => {
            lemma_marks_numbered(*expr, next);
            lemma_numbered_chain(emit(*expr, next), Emitted::print(), next);
        },
        NodeView::Array { arr_name, index } => {
            lemma_marks_numbered(*index, next);
            let a = emit(*index, next);
            lemma_numbered_plus(a, seq![Instr::LoadAddress(arr_name)], next);
            lemma_numbered_plus(
                a.plus(seq![Instr::LoadAddress(arr_name)]),
                seq![Instr::LoadElement],
                next,
            );
        },
        _ => {},
    }
}

/// The labels that the code of a block marks are numbered from the count
/// of labels taken before it, each number once.
pub proof fn lemma_block_marks_numbered(nodes: Seq<NodeView>, next: nat)
    ensures
        numbered(emit_block(nodes, next), next),
    decreases nodes,
{
    if nodes.len() > 0 {
        let before = emit_block(nodes.drop_last(), next);
        lemma_block_marks_numbered(nodes.drop_last(), next);
        lemma_marks_numbered(nodes.last(), next + before.labels);
        lemma_numbered_chain(before, emit(nodes.last(), next + before.labels), next);
    }
}

/// No two labels of a program collide: two different places of the
/// generated code never define a label of the same name, whatever the
/// nesting of the blocks they belong to.
pub proof fn lemma_labels_never_collide(program: Seq<NodeView>, next: nat, i: int, j: int)
    requires
        0 <= i < j < emit_block(program, next).code.len(),
        emit_block(program, next).code[i] is Mark,
        emit_block(program, next).code[j] is Mark,
    ensures
        label_text(emit_block(program, next).code[i]->Mark_0) != label_text(
            emit_block(program, next).code[j]->Mark_0,
        ),
        render(emit_block(program, next).code[i]) != render(emit_block(program, next).code[j]),
{
    let code = emit_block(program, next).code;
    let a = code[i]->Mark_0;
    let b = code[j]->Mark_0;
    lemma_block_marks_numbered(program, next);
    if label_text(a) == label_text(b) {
        lemma_label_text_injective(a, b);
    }
    if render(code[i]) == render(code[j]) {
        reveal_strlit(":");
        assert(render(code[i]).drop_last() =~= label_text(a));
        assert(render(code[j]).drop_last() =~= label_text(b));
    }
}

/// Whether `code` calls the print routine.
pub open spec fn calls_print(code: Seq<Instr>) -> bool {
    exists|i: int| 0 <= i < code.len() && (#[trigger] code[i]) is CallPrint
}

/// Code in two parts calls the print routine exactly if one part does.
proof fn lemma_calls_print_join(first: Seq<Instr>, second: Seq<Instr>)
    ensures
        calls_print(first + second) == (calls_print(first) || calls_print(second)),
{
    let all = first + second;
    if calls_print(first) {
        let i = choose|i: int| 0 <= i < first.len() && (#[trigger] first[i]) is CallPrint;
        assert(all[i] == first[i]);
    }
    if calls_print(second) {
        let i = choose|i: int| 0 <= i < second.len() && (#[trigger] second[i]) is CallPrint;
        assert(all[first.len() + i] == second[i]);
    }
    if calls_print(all) {
        let i = choose|i: int| 0 <= i < all.len() && (#[trigger] all[i]) is CallPrint;
        if i < first.len() {
            assert(first[i] == all[i]);
        } else {
            assert(second[i - first.len()] == all[i]);
        }
    }
}

/// Whether `emitted` is marked as printing exactly if its code calls the
/// print routine.
pub open spec fn prints_as_called(emitted: Emitted) -> bool {
    emitted.prints == calls_print(emitted.code)
}

/// What is marked rightly, followed by what is marked rightly, is marked
/// rightly.
proof fn lemma_called_chain(first: Emitted, second: Emitted)
    requires
        prints_as_called(first),
        prints_as_called(second),
    ensures
        prints_as_called(first.followed_by(second)),
{
    lemma_calls_print_join(first.code, second.code);
}

/// Code that marks nothing but plain instructions does not print.
proof fn lemma_called_plus(first: Emitted, code: Seq<Instr>)
    requires
        prints_as_called(first),
        forall|i: int| 0 <= i < code.len() ==> !((#[trigger] code[i]) is CallPrint),
    ensures
        prints_as_called(first.plus(code)),
{
    lemma_calls_print_join(first.code, code);
}

/// The code of a node is marked as printing exactly if it calls the print
/// routine: the routine is part of the listing exactly if it is called.
pub proof fn lemma_prints_as_called(node: NodeView, next: nat)
    ensures
        prints_as_called(emit(node, next)),
    decreases node,
{
    match node {
        NodeView::Assignment { var_name, expr } => {
            lemma_prints_as_called(*expr, next);
            lemma_called_plus(emit(*expr, next), seq![Instr::StoreVariable(var_name)]);
        },
        NodeView::ArrayAssignment { arr_name, position, value } => {
            let address = Emitted::only(seq![Instr::LoadAddress(arr_name)]);
            let at = emit(*position, next);
            let what = emit(*value, next + at.labels);
            lemma_prints_as_called(*position, next);
            lemma_prints_as_called(*value, next + at.labels);
            lemma_called_chain(address, at);
            let a = address.followed_by(at);
            lemma_called_plus(a, seq![Instr::SaveIndex]);
            let b = a.plus(seq![Instr::SaveIndex]);
            lemma_called_chain(b, what);
            lemma_called_plus(b.followed_by(what), seq![Instr::StoreElement]);
        },
        NodeView::BinaryOperation { op, left, right } => {
            let rhs = emit(*right, next);
            let lhs = emit(*left, next + rhs.labels);
            lemma_prints_as_called(*right, next);
            lemma_prints_as_called(*left, next + rhs.labels);
            lemma_called_plus(rhs, seq![Instr::Push]);
            let a = rhs.plus(seq![Instr::Push]);
            lemma_called_chain(a, lhs);
            let b = a.followed_by(lhs);
            lemma_called_plus(b, seq![Instr::Pop]);
            lemma_called_plus(b.plus(seq![Instr::Pop]), arithmetic(op));
        },
        NodeView::IfOperation { first_half, comparison_op, second_half, content } => {
            let rhs = emit(*second_half, next);
            let lhs = emit(*first_half, next + rhs.labels);
            let body = emit_block(content, next + rhs.labels + lhs.labels + 1);
            lemma_prints_as_called(*second_half, next);
            lemma_prints_as_called(*first_half, next + rhs.labels);
            lemma_block_prints_as_called(content, next + rhs.labels + lhs.labels + 1);
            lemma_compare_called(lhs, rhs);
            let operands = compare(lhs, rhs);
            let end = Label { kind: LabelKind::EndIf, id: next + operands.labels };
            let a = operands.followed_by(Emitted::label());
            lemma_called_chain(operands, Emitted::label());
            let b = a.plus(seq![escape(comparison_op, end)]);
            lemma_called_plus(a, seq![escape(comparison_op, end)]);
            lemma_called_chain(b, body);
            lemma_called_plus(b.followed_by(body), seq![Instr::Mark(end)]);
        },
        NodeView::WhileOperation { first_half, comparison_op, second_half, content } => {
            let start = Label { kind: LabelKind::WhileStart, id: next };
            let end = Label { kind: LabelKind::WhileEnd, id: next + 1 };
            let rhs = emit(*second_half, next + 2);
            let lhs = emit(*first_half, next + 2 + rhs.labels);
            let body = emit_block(content, next + 2 + rhs.labels + lhs.labels);
            lemma_prints_as_called(*second_half, next + 2);
            lemma_prints_as_called(*first_half, next + 2 + rhs.labels);
            lemma_block_prints_as_called(content, next + 2 + rhs.labels + lhs.labels);
            lemma_compare_called(lhs, rhs);
            let operands = compare(lhs, rhs);
            let a = Emitted::label().followed_by(Emitted::label());
            lemma_called_chain(Emitted::label(), Emitted::label());
            let b = a.plus(seq![Instr::Mark(start)]);
            lemma_called_plus(a, seq![Instr::Mark(start)]);
            let c = b.followed_by(operands);
            lemma_called_chain(b, operands);
            let d = c.plus(seq![escape(comparison_op, end)]);
            lemma_called_plus(c, seq![escape(comparison_op, end)]);
            let e = d.followed_by(body);
            lemma_called_chain(d, body);
            let f = e.plus(seq![Instr::Jump(start)]);
            lemma_called_plus(e, seq![Instr::Jump(start)]);
            lemma_called_plus(f, seq![Instr::Mark(end)]);
        },
        NodeView::Print(expr) => {
            lemma_prints_as_called(*expr, next);
            assert(Emitted::print().code[0] is CallPrint);
            lemma_called_chain(emit(*expr, next), Emitted::print());
        },
        NodeView::Array { arr_name, index } => {
            lemma_prints_as_called(*index, next);
            let a = emit(*index, next);
            lemma_called_plus(a, seq![Instr::LoadAddress(arr_name)]);
            lemma_called_plus(
                a.plus(seq![Instr::LoadAddress(arr_name)]),
                seq![Instr::LoadElement],
            );
        },
        _ => {},
    }
}

/// The comparison of two operands that are marked rightly is marked
/// rightly.
proof fn lemma_compare_called(lhs: Emitted, rhs: Emitted)
    requires
        prints_as_called(lhs),
        prints_as_called(rhs),
    ensures
        prints_as_called(compare(lhs, rhs)),
{
    let a = rhs.plus(seq![Instr::Push]);
    lemma_called_plus(rhs, seq![Instr::Push]);
    let b = a.followed_by(lhs);
    lemma_called_chain(a, lhs);
    let c = b.plus(seq![Instr::Pop]);
    lemma_called_plus(b, seq![Instr::Pop]);
    lemma_called_plus(c, seq![Instr::Compare]);
}

/// The code of a block is marked as printing exactly if it calls the
/// print routine.
pub proof fn lemma_block_prints_as_called(nodes: Seq<NodeView>, next: nat)
    ensures
        prints_as_called(emit_block(nodes, next)),
    decreases nodes,
{
    if nodes.len() > 0 {
        let before = emit_block(nodes.drop_last(), next);
        lemma_block_prints_as_called(nodes.drop_last(), next);
        lemma_prints_as_called(nodes.last(), next + before.labels);
        lemma_called_chain(before, emit(nodes.last(), next + before.labels));
    }
}

/// The code of an `if` node whose comparison is one of the six: the
/// right side of the condition, saved on the stack; the left side; the
/// comparison of `eax`, the left side, with `ebx`, the right side; right
/// after it the one conditional jump of the header, under the negation of
/// the comparison, to the end label; the body; the end label.
pub proof fn lemma_if_emitted(
    first_half: NodeView,
    op: Seq<char>,
    second_half: NodeView,
    content: Seq<NodeView>,
    next: nat,
)
    requires
        is_comparison(op),
    ensures
        ({
            let node = NodeView::IfOperation {
                first_half: Box::new(first_half),
                comparison_op: op,
                second_half: Box::new(second_half),
                content,
            };
            let rhs = emit(second_half, next);
            let lhs = emit(first_half, next + rhs.labels);
            let end = Label { kind: LabelKind::EndIf, id: next + rhs.labels + lhs.labels };
            let body = emit_block(content, end.id + 1);
            &&& escape_condition(op).is_some()
            &&& emit(node, next).code == rhs.code + seq![Instr::Push] + lhs.code + seq![
                Instr::Pop,
                Instr::Compare,
                Instr::JumpIf(escape_condition(op).unwrap(), end),
            ] + body.code + seq![Instr::Mark(end)]
        }),
{
    let rhs = emit(second_half, next);
    let lhs = emit(first_half, next + rhs.labels);
    let body = emit_block(content, next + rhs.labels + lhs.labels + 1);
    lemma_escape_negates(op, 0, 0);
    lemma_if_layout(lhs, rhs, op, body, next);
}

/// The code of a `while` node whose comparison is one of the six: the
/// entry label; the right side of the condition, saved on the stack; the
/// left side; the comparison; right after it the one conditional jump of
/// the header, under the negation of the comparison, to the exit label;
/// the body; the jump back to the entry label; the exit label.
pub proof fn lemma_while_emitted(
    first_half: NodeView,
    op: Seq<char>,
    second_half: NodeView,
    content: Seq<NodeView>,
    next: nat,
)
    requires
        is_comparison(op),
    ensures
        ({
            let node = NodeView::WhileOperation {
                first_half: Box::new(first_half),
                comparison_op: op,
                second_half: Box::new(second_half),
                content,
            };
            let start = Label { kind: LabelKind::WhileStart, id: next };
            let end = Label { kind: LabelKind::WhileEnd, id: next + 1 };
            let rhs = emit(second_half, next + 2);
            let lhs = emit(first_half, next + 2 + rhs.labels);
            let body = emit_block(content, next + 2 + rhs.labels + lhs.labels);
            &&& escape_condition(op).is_some()
            &&& emit(node, next).code == seq![Instr::Mark(start)] + rhs.code + seq![Instr::Push]
                + lhs.code + seq![
                Instr::Pop,
                Instr::Compare,
                Instr::JumpIf(escape_condition(op).unwrap(), end),
            ] + body.code + seq![Instr::Jump(start), Instr::Mark(end)]
        }),
{
    let rhs = emit(second_half, next + 2);
    let lhs = emit(first_half, next + 2 + rhs.labels);
    let body = emit_block(content, next + 2 + rhs.labels + lhs.labels);
    lemma_escape_negates(op, 0, 0);
    lemma_while_layout(lhs, rhs, op, body, next);
}

/// The text of the jump that leaves a block: for each of the six
/// comparisons the mnemonic of its negation, then the name of the label.
pub proof fn lemma_escape_text(target: Label)
    ensures
        render(escape("=="@, target)) == "jne "@ + label_text(target),
        render(escape("=!"@, target)) == "je "@ + label_text(target),
        render(escape("<"@, target)) == "jge "@ + label_text(target),
        render(escape(">"@, target)) == "jle "@ + label_text(target),
        render(escape("=<"@, target)) == "jg "@ + label_text(target),
        render(escape("=>"@, target)) == "jl "@ + label_text(target),
{
    reveal_strlit("==");
    reveal_strlit("=!");
    reveal_strlit("<");
    reveal_strlit(">");
    reveal_strlit("=<");
    reveal_strlit("=>");
    assert("=="@[1] == '=');
    assert("=!"@[1] == '!');
    assert("=<"@[1] == '<');
    assert("=>"@[1] == '>');
    assert("<"@.len() == 1 && "<"@[0] == '<');
    assert(">"@.len() == 1 && ">"@[0] == '>');
    assert("=="@.len() == 2 && "=!"@.len() == 2 && "=<"@.len() == 2 && "=>"@.len() == 2);
}

} // verus!
