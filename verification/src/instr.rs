//! The instructions of the generated program and their text.

use crate::text::{decimal_text, is_digit, lemma_decimal_injective, lemma_decimal_shape};
use vstd::prelude::*;

verus! {

/// What a generated label marks.
pub enum LabelKind {
    EndIf,
    WhileStart,
    WhileEnd,
}

/// A generated label: what it marks and the number that makes it unique.
pub struct Label {
    pub kind: LabelKind,
    pub id: nat,
}

/// The condition of a conditional jump, as left by `cmp eax, ebx`.
pub enum Condition {
    Equal,
    NotEqual,
    Less,
    LessOrEqual,
    Greater,
    GreaterOrEqual,
}

/// One line of the instruction stream.
pub enum Instr {
    /// `mov eax, <literal>`
    LoadLiteral(Seq<char>),
    /// `mov eax, [<name>]`
    LoadVariable(Seq<char>),
    /// `mov [<name>], eax`
    StoreVariable(Seq<char>),
    /// `lea esi, [<name>]`
    LoadAddress(Seq<char>),
    /// `mov ecx, eax`
    SaveIndex,
    /// `mov [esi + ecx*4], eax`
    StoreElement,
    /// `mov eax, [esi + eax*4]`
    LoadElement,
    /// `push eax`
    Push,
    /// `pop ebx`
    Pop,
    /// `add eax, ebx`
    Add,
    /// `sub eax, ebx`
    Sub,
    /// `imul eax, ebx`
    Mul,
    /// `mov edx, 0`
    ClearHigh,
    /// `div ebx`
    Div,
    /// `mov eax, edx`
    TakeRemainder,
    /// `cmp eax, ebx`
    Compare,
    /// `j<cc> <label>`
    JumpIf(Condition, Label),
    /// `jmp <label>`
    Jump(Label),
    /// `<label>:`
    Mark(Label),
    /// `call print_eax`
    CallPrint,
    /// The diagnostic left in place of an unknown binary operator.
    UnknownOperator,
    /// The diagnostic left in place of an unknown comparison.
    UnknownComparison,
    /// The diagnostic left in place of an error node.
    ErrorMarker,
}

/// The stem of a label's name.
pub open spec fn label_base(kind: LabelKind) -> Seq<char> {
    match kind {
        LabelKind::EndIf => "endif"@,
        LabelKind::WhileStart => "while_start"@,
        LabelKind::WhileEnd => "while_end"@,
    }
}

/// The name made of a stem and a number.
pub open spec fn label_name(base: Seq<char>, id: nat) -> Seq<char> {
    base + "_"@ + decimal_text(id)
}

/// The name of a label as it stands in the listing.
pub open spec fn label_text(label: Label) -> Seq<char> {
    label_name(label_base(label.kind), label.id)
}

/// The mnemonic of the jump taken under `condition`.
pub open spec fn jump_mnemonic(condition: Condition) -> Seq<char> {
    match condition {
        Condition::Equal => "je "@,
        Condition::NotEqual => "jne "@,
        Condition::Less => "jl "@,
        Condition::LessOrEqual => "jle "@,
        Condition::Greater => "jg "@,
        Condition::GreaterOrEqual => "jge "@,
    }
}

/// The text of one instruction.
pub open spec fn render(instr: Instr) -> Seq<char> {
    match instr {
        Instr::LoadLiteral(value) => "mov eax, "@ + value,
        Instr::LoadVariable(name) => "mov eax, ["@ + name + "]"@,
        Instr::StoreVariable(name) => "mov ["@ + name + "], eax"@,
        Instr::LoadAddress(name) => "lea esi, ["@ + name + "]"@,
        Instr::SaveIndex => "mov ecx, eax"@,
        Instr::StoreElement => "mov [esi + ecx*4], eax"@,
        Instr::LoadElement => "mov eax, [esi + eax*4]"@,
        Instr::Push => "push eax"@,
        Instr::Pop => "pop ebx"@,
        Instr::Add => "add eax, ebx"@,
        Instr::Sub => "sub eax, ebx"@,
        Instr::Mul => "imul eax, ebx"@,
        Instr::ClearHigh => "mov edx, 0"@,
        Instr::Div => "div ebx"@,
        Instr::TakeRemainder => "mov eax, edx"@,
        Instr::Compare => "cmp eax, ebx"@,
        Instr::JumpIf(condition, label) => jump_mnemonic(condition) + label_text(label),
        Instr::Jump(label) => "jmp "@ + label_text(label),
        Instr::Mark(label) => label_text(label) + ":"@,
        Instr::CallPrint => "call print_eax"@,
        Instr::UnknownOperator => "; Unknown binary operator"@,
        Instr::UnknownComparison => "; Unknown comparison"@,
        Instr::ErrorMarker => "; Error node encountered"@,
    }
}

/// The text of each instruction, in order.
pub open spec fn render_all(code: Seq<Instr>) -> Seq<Seq<char>> {
    Seq::new(code.len(), |i: int| render(code[i]))
}

/// The instructions that combine `eax` (left operand) with `ebx` (right
/// operand) under the binary operator `op`.
pub open spec fn arithmetic(op: Seq<char>) -> Seq<Instr> {
    if op == "+"@ {
        seq![Instr::Add]
    } else if op == "-"@ {
        seq![Instr::Sub]
    } else if op == "*"@ {
        seq![Instr::Mul]
    } else if op == "/"@ {
        seq![Instr::ClearHigh, Instr::Div]
    } else if op == "%"@ {
        seq![Instr::ClearHigh, Instr::Div, Instr::TakeRemainder]
    } else {
        seq![Instr::UnknownOperator]
    }
}

/// The condition under which control leaves a block guarded by the
/// comparison `op`: the negation of the comparison.
pub open spec fn escape_condition(op: Seq<char>) -> Option<Condition> {
    if op == "=="@ {
        Some(Condition::NotEqual)
    } else if op == "=!"@ {
        Some(Condition::Equal)
    } else if op == "<"@ {
        Some(Condition::GreaterOrEqual)
    } else if op == ">"@ {
        Some(Condition::LessOrEqual)
    } else if op == "=<"@ {
        Some(Condition::Greater)
    } else if op == "=>"@ {
        Some(Condition::Less)
    } else {
        None
    }
}

/// The instruction that leaves a block guarded by `op` for `target`.
pub open spec fn escape(op: Seq<char>, target: Label) -> Instr {
    match escape_condition(op) {
        Some(condition) => Instr::JumpIf(condition, target),
        None => Instr::UnknownComparison,
    }
}

/// Names made of a stem and a number differ when the stems or the numbers
/// differ.
pub proof fn lemma_label_name_injective(base1: Seq<char>, id1: nat, base2: Seq<char>, id2: nat)
    requires
        label_name(base1, id1) == label_name(base2, id2),
    ensures
        base1 == base2,
        id1 == id2,
{
    reveal_strlit("_");
    let d1 = decimal_text(id1);
    let d2 = decimal_text(id2);
    let name = label_name(base1, id1);
    let other = label_name(base2, id2);
    lemma_decimal_shape(id1);
    lemma_decimal_shape(id2);
    assert(name.len() == base1.len() + 1 + d1.len());
    assert(other.len() == base2.len() + 1 + d2.len());
    assert(name[base1.len() as int] == '_');
    assert(other[base2.len() as int] == '_');
    if d1.len() < d2.len() {
        let at = base1.len() as int;
        assert(other[at] == d2[at - base2.len() - 1]);
        assert(is_digit(d2[at - base2.len() - 1]));
        assert(false);
    }
    if d2.len() < d1.len() {
        let at = base2.len() as int;
        assert(name[at] == d1[at - base1.len() - 1]);
        assert(is_digit(d1[at - base1.len() - 1]));
        assert(false);
    }
    assert(base1.len() == base2.len());
    assert(d1 =~= d2) by {
        assert forall|i: int| 0 <= i < d1.len() implies d1[i] == d2[i] by {
            assert(name[base1.len() + 1 + i] == d1[i]);
            assert(other[base2.len() + 1 + i] == d2[i]);
        }
    }
    assert(base1 =~= base2) by {
        assert forall|i: int| 0 <= i < base1.len() implies base1[i] == base2[i] by {
            assert(name[i] == base1[i]);
            assert(other[i] == base2[i]);
        }
    }
    lemma_decimal_injective(id1, id2);
}

/// Two labels with the same name are the same label.
pub proof fn lemma_label_text_injective(a: Label, b: Label)
    requires
        label_text(a) == label_text(b),
    ensures
        a == b,
{
    lemma_label_name_injective(label_base(a.kind), a.id, label_base(b.kind), b.id);
    reveal_strlit("endif");
    reveal_strlit("while_start");
    reveal_strlit("while_end");
    assert("endif"@.len() == 5);
    assert("while_start"@.len() == 11);
    assert("while_end"@.len() == 9);
}

/// Whether `op` is one of the six comparison operators of the language.
pub open spec fn is_comparison(op: Seq<char>) -> bool {
    op == "=="@ || op == "=!"@ || op == "<"@ || op == ">"@ || op == "=<"@ || op == "=>"@
}

/// Whether the comparison `op` holds of `a` (left) and `b` (right).
pub open spec fn comparison_holds(op: Seq<char>, a: int, b: int) -> bool
    recommends
        is_comparison(op),
{
    if op == "=="@ {
        a == b
    } else if op == "=!"@ {
        a != b
    } else if op == "<"@ {
        a < b
    } else if op == ">"@ {
        a > b
    } else if op == "=<"@ {
        a <= b
    } else {
        a >= b
    }
}

/// Whether a jump under `condition` is taken after `a` was compared with
/// `b` as signed numbers.
pub open spec fn jump_taken(condition: Condition, a: int, b: int) -> bool {
    match condition {
        Condition::Equal => a == b,
        Condition::NotEqual => a != b,
        Condition::Less => a < b,
        Condition::LessOrEqual => a <= b,
        Condition::Greater => a > b,
        Condition::GreaterOrEqual => a >= b,
    }
}

/// Each of the six comparison operators has an escape jump, and that jump
/// is taken exactly when the comparison does not hold: control skips the
/// guarded block when the condition is false and falls into it when the
/// condition is true.
pub proof fn lemma_escape_negates(op: Seq<char>, a: int, b: int)
    requires
        is_comparison(op),
    ensures
        escape_condition(op).is_some(),
        jump_taken(escape_condition(op).unwrap(), a, b) == !comparison_holds(op, a, b),
{
    reveal_strlit("==");
    reveal_strlit("=!");
    reveal_strlit("<");
    reveal_strlit(">");
    reveal_strlit("=<");
    reveal_strlit("=>");
    assert("=="@[1] == '=');
    assert("=!"@[1] == '!');
    assert("=<"@[1] == '<');
    assert("=>"@[1] == '>');
    assert("<"@.len() == 1 && "<"@[0] == '<');
    assert(">"@.len() == 1 && ">"@[0] == '>');
    assert("=="@.len() == 2 && "=!"@.len() == 2 && "=<"@.len() == 2 && "=>"@.len() == 2);
}

/// A text that is none of the six comparison operators has no escape jump:
/// the generator leaves a diagnostic in its place.
pub proof fn lemma_escape_unknown(op: Seq<char>, target: Label)
    requires
        !is_comparison(op),
    ensures
        escape_condition(op).is_none(),
        escape(op, target) == Instr::UnknownComparison,
{
}

/// Whether `op` is one of the five binary operators that the generator
/// has instructions for.
pub open spec fn is_arithmetic(op: Seq<char>) -> bool {
    op == "+"@ || op == "-"@ || op == "*"@ || op == "/"@ || op == "%"@
}

/// A text that is none of the five binary operators of the generator has
/// no instructions: the generator leaves a diagnostic in their place.
pub proof fn lemma_arithmetic_unknown(op: Seq<char>)
    requires
        !is_arithmetic(op),
    ensures
        arithmetic(op) == seq![Instr::UnknownOperator],
{
}

} // verus!
