//! The lines that the generator appends for an `if` and for a `while`
//! block, and the freshness of the labels it takes.

use crate::assembler::AssemblerView;
use crate::ast::NodeView;
use crate::emit::{emit, emit_block, lemma_escape_text, lemma_if_emitted, lemma_while_emitted};
use crate::instr::{
    is_comparison, label_name, lemma_label_name_injective, render_all, Label, LabelKind,
};
use vstd::prelude::*;

verus! {

/// The mnemonic of the jump that is taken when the comparison `op` fails,
/// with the blank that follows it.
pub open spec fn negated_jump(op: Seq<char>) -> Seq<char> {
    if op == "=="@ {
        "jne "@
    } else if op == "=!"@ {
        "je "@
    } else if op == "<"@ {
        "jge "@
    } else if op == ">"@ {
        "jle "@
    } else if op == "=<"@ {
        "jg "@
    } else {
        "jl "@
    }
}

/// The lines that compare the two sides of a condition, given the lines
/// that compute each: the right side, pushed; the left side, which stays in
/// `eax`; the right side popped into `ebx`; the comparison.
pub open spec fn comparison_lines(left: Seq<Seq<char>>, right: Seq<Seq<char>>) -> Seq<Seq<char>> {
    right + seq!["push eax"@] + left + seq!["pop ebx"@, "cmp eax, ebx"@]
}

/// Whether `node` is a literal or the name of a scalar.
pub open spec fn is_leaf(node: NodeView) -> bool {
    node is Literal || node is Variable
}

/// The one line that loads a leaf into `eax`.
pub open spec fn load_line(node: NodeView) -> Seq<char> {
    match node {
        NodeView::Literal(value) => "mov eax, "@ + value,
        NodeView::Variable(name) => "mov eax, ["@ + name + "]"@,
        _ => Seq::empty(),
    }
}

/// The lines that generating an `if` block with one of the six comparisons
/// appends: the comparison of the two sides; right after `cmp eax, ebx`
/// the one conditional jump of the header, whose mnemonic is that of the
/// negated comparison and whose target is the end label; the body; and
/// after the body the line of the end label.
pub proof fn lemma_if_lines(
    view: AssemblerView,
    first_half: NodeView,
    op: Seq<char>,
    second_half: NodeView,
    content: Seq<NodeView>,
)
    requires
        is_comparison(op),
    ensures
        ({
            let node = NodeView::IfOperation {
                first_half: Box::new(first_half),
                comparison_op: op,
                second_half: Box::new(second_half),
                content,
            };
            let rhs = emit(second_half, view.labels);
            let lhs = emit(first_half, view.labels + rhs.labels);
            let number = view.labels + rhs.labels + lhs.labels;
            let end = label_name("endif"@, number);
            let body = emit_block(content, number + 1);
            view.after(emit(node, view.labels)).code == view.code + comparison_lines(
                render_all(lhs.code),
                render_all(rhs.code),
            ) + seq![negated_jump(op) + end] + render_all(body.code) + seq![end + ":"@]
        }),
{
    let next = view.labels;
    let node = NodeView::IfOperation {
        first_half: Box::new(first_half),
        comparison_op: op,
        second_half: Box::new(second_half),
        content,
    };
    let rhs = emit(second_half, next);
    let lhs = emit(first_half, next + rhs.labels);
    let end = Label { kind: LabelKind::EndIf, id: next + rhs.labels + lhs.labels };
    let body = emit_block(content, end.id + 1);
    lemma_if_emitted(first_half, op, second_half, content, next);
    lemma_escape_text(end);
    let code = emit(node, next).code;
    let lines = comparison_lines(render_all(lhs.code), render_all(rhs.code)) + seq![
        negated_jump(op) + label_name("endif"@, end.id),
    ] + render_all(body.code) + seq![label_name("endif"@, end.id) + ":"@];
    assert(render_all(code) =~= lines);
    assert(view.code + render_all(code) =~= view.code + comparison_lines(
        render_all(lhs.code),
        render_all(rhs.code),
    ) + seq![negated_jump(op) + label_name("endif"@, end.id)] + render_all(body.code) + seq![
        label_name("endif"@, end.id) + ":"@,
    ]);
}

/// The lines that generating a `while` block with one of the six
/// comparisons appends: first the line of the entry label, before every
/// line of the condition; the comparison of the two sides; right after
/// `cmp eax, ebx` the one conditional jump of the header, whose mnemonic
/// is that of the negated comparison and whose target is the exit label;
/// the body; the jump back to the entry label; and last the line of the
/// exit label, which is another label than the entry.
pub proof fn lemma_while_lines(
    view: AssemblerView,
    first_half: NodeView,
    op: Seq<char>,
    second_half: NodeView,
    content: Seq<NodeView>,
)
    requires
        is_comparison(op),
    ensures
        ({
            let node = NodeView::WhileOperation {
                first_half: Box::new(first_half),
                comparison_op: op,
                second_half: Box::new(second_half),
                content,
            };
            let entry = label_name("while_start"@, view.labels);
            let exit = label_name("while_end"@, view.labels + 1);
            let rhs = emit(second_half, view.labels + 2);
            let lhs = emit(first_half, view.labels + 2 + rhs.labels);
            let body = emit_block(content, view.labels + 2 + rhs.labels + lhs.labels);
            let after = view.after(emit(node, view.labels)).code;
            &&& after == view.code + seq![entry + ":"@] + comparison_lines(
                render_all(lhs.code),
                render_all(rhs.code),
            ) + seq![negated_jump(op) + exit] + render_all(body.code) + seq![
                "jmp "@ + entry,
                exit + ":"@,
            ]
            &&& after[view.code.len() as int] == entry + ":"@
            &&& after[after.len() - 2] == "jmp "@ + entry
            &&& after.last() == exit + ":"@
            &&& entry != exit
        }),
{
    let next = view.labels;
    let node = NodeView::WhileOperation {
        first_half: Box::new(first_half),
        comparison_op: op,
        second_half: Box::new(second_half),
        content,
    };
    let start = Label { kind: LabelKind::WhileStart, id: next };
    let end = Label { kind: LabelKind::WhileEnd, id: next + 1 };
    let entry = label_name("while_start"@, next);
    let exit = label_name("while_end"@, next + 1);
    let rhs = emit(second_half, next + 2);
    let lhs = emit(first_half, next + 2 + rhs.labels);
    let body = emit_block(content, next + 2 + rhs.labels + lhs.labels);
    lemma_while_emitted(first_half, op, second_half, content, next);
    lemma_escape_text(end);
    let code = emit(node, next).code;
    let lines = seq![entry + ":"@] + comparison_lines(render_all(lhs.code), render_all(rhs.code))
        + seq![negated_jump(op) + exit] + render_all(body.code) + seq![
        "jmp "@ + entry,
        exit + ":"@,
    ];
    assert(render_all(code) =~= lines);
    let after = view.after(emit(node, next)).code;
    assert(after =~= view.code + seq![entry + ":"@] + comparison_lines(
        render_all(lhs.code),
        render_all(rhs.code),
    ) + seq![negated_jump(op) + exit] + render_all(body.code) + seq!["jmp "@ + entry, exit + ":"@]);
    if entry == exit {
        lemma_label_name_injective("while_start"@, next, "while_end"@, next + 1);
    }
}

/// The header of a block that compares two leaves is six lines: the load
/// of the right side, its push, the load of the left side, the pop, the
/// comparison, and the conditional jump.
pub proof fn lemma_leaves_compared(first_half: NodeView, second_half: NodeView, next: nat)
    requires
        is_leaf(first_half),
        is_leaf(second_half),
    ensures
        emit(first_half, next).labels == 0,
        emit(second_half, next).labels == 0,
        comparison_lines(
            render_all(emit(first_half, next).code),
            render_all(emit(second_half, next).code),
        ) == seq![
            load_line(second_half),
            "push eax"@,
            load_line(first_half),
            "pop ebx"@,
            "cmp eax, ebx"@,
        ],
{
    let left = render_all(emit(first_half, next).code);
    let right = render_all(emit(second_half, next).code);
    assert(left =~= seq![load_line(first_half)]);
    assert(right =~= seq![load_line(second_half)]);
    assert(comparison_lines(left, right) =~= seq![
        load_line(second_half),
        "push eax"@,
        load_line(first_half),
        "pop ebx"@,
        "cmp eax, ebx"@,
    ]);
}

/// A label taken later differs from every label taken earlier, whatever
/// the stems of the two: the number of labels taken so far is part of the
/// name and grows with every label.
pub proof fn lemma_later_label_differs(
    base: Seq<char>,
    later: nat,
    earlier_base: Seq<char>,
    earlier: nat,
)
    requires
        earlier < later,
    ensures
        label_name(base, later) != label_name(earlier_base, earlier),
{
    if label_name(base, later) == label_name(earlier_base, earlier) {
        lemma_label_name_injective(base, later, earlier_base, earlier);
    }
}

} // verus!
