//! A model of the target machine, and the proof that the generated code
//! computes on it what the syntax tree says.
//!
//! Numbers are 32 bits wide and wrap around. Scalars are cells found by
//! their name; an array is a run of cells found by its name and an index.
//! A call of the print routine is taken for what the routine is proved to
//! do: it writes the number in `eax`, and comes back with `ecx`, `edx` and
//! the stack as they were.

use crate::ast::NodeView;
use crate::emit::{
    compare, emit, emit_block, if_code, lemma_if_layout, lemma_while_layout, marks_distinct,
    while_code, Emitted,
};
use crate::instr::{
    arithmetic, comparison_holds, escape, is_comparison, jump_taken, lemma_escape_negates, Instr,
    Label, LabelKind,
};
use crate::text::{is_numeral, numeral_value};
use vstd::prelude::*;

verus! {

/// One more than the largest number a register holds.
pub open spec fn word() -> int {
    0x1_0000_0000
}

/// The number that is left of `n` in a register.
pub open spec fn wrap(n: int) -> int {
    n % word()
}

/// The number in a register read as a signed number.
pub open spec fn signed(n: int) -> int {
    if n >= 0x8000_0000 {
        n - word()
    } else {
        n
    }
}

/// What the code can see and change outside the registers.
pub struct Memory {
    /// The scalars, by name.
    pub cells: Map<Seq<char>, int>,
    /// The arrays, by name.
    pub arrays: Map<Seq<char>, Seq<int>>,
    /// The operand stack, its top last.
    pub stack: Seq<int>,
    /// The numbers printed so far.
    pub printed: Seq<int>,
}

/// The state of the machine.
pub struct Machine {
    pub eax: int,
    pub ebx: int,
    pub ecx: int,
    pub edx: int,
    /// The array whose address `esi` holds.
    pub esi: Seq<char>,
    /// The two numbers compared last.
    pub compared: (int, int),
    pub memory: Memory,
}

impl Machine {
    /// The machine with `value` in `eax`.
    pub open spec fn with_eax(self, value: int) -> Machine {
        Machine { eax: value, ..self }
    }

    /// The machine with the memory `memory`.
    pub open spec fn with_memory(self, memory: Memory) -> Machine {
        Machine { memory, ..self }
    }

    /// The machine after one instruction that is no jump; nothing if the
    /// instruction faults: a literal that is no number, a name without
    /// storage, an index outside its array, a pop from an empty stack, a
    /// division by zero. A label and a diagnostic do nothing. A call of
    /// the print routine prints the number in `eax` and leaves one in
    /// `eax` and in `ebx`, as the last system call of the routine does.
    pub open spec fn execute(self, instr: Instr) -> Option<Machine> {
        let memory = self.memory;
        match instr {
            Instr::LoadLiteral(text) => if is_numeral(text) {
                Some(self.with_eax(wrap(numeral_value(text) as int)))
            } else {
                None
            },
            Instr::LoadVariable(name) => if memory.cells.dom().contains(name) {
                Some(self.with_eax(memory.cells[name]))
            } else {
                None
            },
            Instr::StoreVariable(name) => if memory.cells.dom().contains(name) {
                Some(
                    self.with_memory(
                        Memory { cells: memory.cells.insert(name, self.eax), ..memory },
                    ),
                )
            } else {
                None
            },
            Instr::LoadAddress(name) => if memory.arrays.dom().contains(name) {
                Some(Machine { esi: name, ..self })
            } else {
                None
            },
            Instr::SaveIndex => Some(Machine { ecx: self.eax, ..self }),
            Instr::StoreElement => if memory.arrays.dom().contains(self.esi) && 0 <= self.ecx
                < memory.arrays[self.esi].len() {
                Some(
                    self.with_memory(
                        Memory {
                            arrays: memory.arrays.insert(
                                self.esi,
                                memory.arrays[self.esi].update(self.ecx, self.eax),
                            ),
                            ..memory
                        },
                    ),
                )
            } else {
                None
            },
            Instr::LoadElement => if memory.arrays.dom().contains(self.esi) && 0 <= self.eax
                < memory.arrays[self.esi].len() {
                Some(self.with_eax(memory.arrays[self.esi][self.eax]))
            } else {
                None
            },
            Instr::Push => Some(
                self.with_memory(Memory { stack: memory.stack.push(self.eax), ..memory }),
            ),
            Instr::Pop => if memory.stack.len() > 0 {
                Some(
                    Machine {
                        ebx: memory.stack.last(),
                        memory: Memory { stack: memory.stack.drop_last(), ..memory },
                        ..self
                    },
                )
            } else {
                None
            },
            Instr::Add => Some(self.with_eax(wrap(self.eax + self.ebx))),
            Instr::Sub => Some(self.with_eax(wrap(self.eax - self.ebx))),
            Instr::Mul => Some(self.with_eax(wrap(self.eax * self.ebx))),
            Instr::ClearHigh => Some(Machine { edx: 0, ..self }),
            Instr::Div => {
                let dividend = self.edx * word() + self.eax;
                if self.ebx != 0 && 0 <= dividend / self.ebx < word() {
                    Some(Machine { eax: dividend / self.ebx, edx: dividend % self.ebx, ..self })
                } else {
                    None
                }
            },
            Instr::TakeRemainder => Some(self.with_eax(self.edx)),
            Instr::Compare => Some(Machine { compared: (self.eax, self.ebx), ..self }),
            Instr::CallPrint => Some(
                Machine {
                    eax: 1,
                    ebx: 1,
                    memory: Memory { printed: memory.printed.push(self.eax), ..memory },
                    ..self
                },
            ),
            Instr::Mark(label) => Some(self),
            Instr::UnknownOperator => Some(self),
            Instr::UnknownComparison => Some(self),
            Instr::ErrorMarker => Some(self),
            Instr::Jump(label) => None,
            Instr::JumpIf(condition, label) => None,
        }
    }

    /// The machine after the instructions of `code`, none of them a jump,
    /// one after the other; nothing if one of them faults.
    pub open spec fn run(self, code: Seq<Instr>) -> Option<Machine>
        decreases code.len(),
    {
        if code.len() == 0 {
            Some(self)
        } else {
            match self.execute(code[0]) {
                Some(next) => next.run(code.skip(1)),
                None => None,
            }
        }
    }
}

/// Running two pieces of code in a row is running the first, then the
/// second.
pub proof fn lemma_run_append(machine: Machine, first: Seq<Instr>, second: Seq<Instr>)
    ensures
        machine.run(first + second) == match machine.run(first) {
            Some(middle) => middle.run(second),
            None => None,
        },
    decreases first.len(),
{
    let all = first + second;
    if first.len() == 0 {
        assert(all == second);
    } else {
        assert(all[0] == first[0]);
        assert(all.skip(1) == first.skip(1) + second);
        match machine.execute(first[0]) {
            Some(next) => {
                lemma_run_append(next, first.skip(1), second);
            },
            None => {},
        }
    }
}

/// Running one instruction is executing it.
pub proof fn lemma_run_one(machine: Machine, instr: Instr)
    ensures
        machine.run(seq![instr]) == machine.execute(instr),
{
    reveal_with_fuel(Machine::run, 2);
    assert(seq![instr].skip(1).len() == 0);
}

/// What the binary operator `op` makes of two numbers; nothing for a
/// division by zero and for a text that is no operator of the generator.
pub open spec fn apply(op: Seq<char>, left: int, right: int) -> Option<int> {
    if op == "+"@ {
        Some(wrap(left + right))
    } else if op == "-"@ {
        Some(wrap(left - right))
    } else if op == "*"@ {
        Some(wrap(left * right))
    } else if op == "/"@ {
        if right != 0 {
            Some(left / right)
        } else {
            None
        }
    } else if op == "%"@ {
        if right != 0 {
            Some(left % right)
        } else {
            None
        }
    } else {
        None
    }
}

/// The number that the expression `tree` stands for in `memory`: a literal
/// for its number, a name for what its cell holds, an indexed read for
/// what the array holds at the index, an operation for what its operator
/// makes of its operands. Nothing if the tree is no such expression, or
/// names no storage, or indexes outside its array, or divides by zero.
pub open spec fn value(tree: NodeView, memory: Memory) -> Option<int>
    decreases tree,
{
    match tree {
        NodeView::Literal(text) => if is_numeral(text) {
            Some(wrap(numeral_value(text) as int))
        } else {
            None
        },
        NodeView::Variable(name) => if memory.cells.dom().contains(name) {
            Some(memory.cells[name])
        } else {
            None
        },
        NodeView::Array { arr_name, index } => match value(*index, memory) {
            Some(at) => if memory.arrays.dom().contains(arr_name) && 0 <= at
                < memory.arrays[arr_name].len() {
                Some(memory.arrays[arr_name][at])
            } else {
                None
            },
            None => None,
        },
        NodeView::BinaryOperation { op, left, right } => match (
            value(*left, memory),
            value(*right, memory),
        ) {
            (Some(a), Some(b)) => apply(op, a, b),
            _ => None,
        },
        _ => None,
    }
}

/// Whether every cell of `memory` holds a number of 32 bits.
pub open spec fn in_range(memory: Memory) -> bool {
    &&& forall|name: Seq<char>| #[trigger]
        memory.cells.dom().contains(name) ==> 0 <= memory.cells[name] < word()
    &&& forall|name: Seq<char>, i: int|
        memory.arrays.dom().contains(name) && 0 <= i < memory.arrays[name].len() ==> 0
            <= #[trigger] memory.arrays[name][i] < word()
}

/// The instructions of a binary operator combine the left operand in
/// `eax` with the right operand in `ebx` as the operator says.
pub proof fn lemma_arithmetic_computes(op: Seq<char>, machine: Machine)
    requires
        apply(op, machine.eax, machine.ebx).is_some(),
        0 <= machine.eax < word(),
        0 <= machine.ebx < word(),
    ensures
        machine.run(arithmetic(op)) matches Some(after) && after.eax == apply(
            op,
            machine.eax,
            machine.ebx,
        ).unwrap() && after.memory == machine.memory && after.ecx == machine.ecx && after.esi
            == machine.esi,
{
    reveal_with_fuel(Machine::run, 4);
    let code = arithmetic(op);
    if op == "+"@ || op == "-"@ || op == "*"@ {
        assert(code.skip(1).len() == 0);
    } else {
        assert(0 * word() + machine.eax == machine.eax);
        assert(0 <= machine.eax / machine.ebx <= machine.eax) by (nonlinear_arith)
            requires
                0 <= machine.eax,
                0 < machine.ebx,
        ;
        assert(code.skip(1)[0] == Instr::Div);
        if op == "/"@ {
            assert(code.skip(1).skip(1).len() == 0);
        } else {
            assert(code.skip(1).skip(1)[0] == Instr::TakeRemainder);
            assert(code.skip(1).skip(1).skip(1).len() == 0);
        }
    }
}

/// The value of an expression depends on the cells and the arrays only.
pub proof fn lemma_value_of_storage(tree: NodeView, first: Memory, second: Memory)
    requires
        first.cells == second.cells,
        first.arrays == second.arrays,
    ensures
        value(tree, first) == value(tree, second),
    decreases tree,
{
    match tree {
        NodeView::Array { arr_name, index } => {
            lemma_value_of_storage(*index, first, second);
        },
        NodeView::BinaryOperation { op, left, right } => {
            lemma_value_of_storage(*left, first, second);
            lemma_value_of_storage(*right, first, second);
        },
        _ => {},
    }
}

/// The value of an expression is a number of 32 bits.
pub proof fn lemma_value_in_range(tree: NodeView, memory: Memory)
    requires
        in_range(memory),
        value(tree, memory).is_some(),
    ensures
        0 <= value(tree, memory).unwrap() < word(),
    decreases tree,
{
    match tree {
        NodeView::Array { arr_name, index } => {
            lemma_value_in_range(*index, memory);
        },
        NodeView::BinaryOperation { op, left, right } => {
            lemma_value_in_range(*left, memory);
            lemma_value_in_range(*right, memory);
            let a = value(*left, memory).unwrap();
            let b = value(*right, memory).unwrap();
            if op == "+"@ || op == "-"@ || op == "*"@ {
            } else if op == "/"@ {
                assert(0 <= a / b <= a) by (nonlinear_arith)
                    requires
                        0 <= a,
                        0 < b,
                ;
            } else {
                assert(0 <= a % b < b) by (nonlinear_arith)
                    requires
                        0 <= a,
                        0 < b,
                ;
            }
        },
        _ => {},
    }
}

/// Whether every indexed read in `tree` reads the array `name`.
pub open spec fn reads_only(tree: NodeView, name: Seq<char>) -> bool
    decreases tree,
{
    match tree {
        NodeView::Array { arr_name, index } => arr_name == name && reads_only(*index, name),
        NodeView::BinaryOperation { op, left, right } => reads_only(*left, name) && reads_only(
            *right,
            name,
        ),
        _ => true,
    }
}

/// Whether `after` is `before` with `result` computed into `eax`: the
/// memory and `ecx` are as they were.
pub open spec fn computed(before: Machine, after: Option<Machine>, result: int) -> bool {
    match after {
        Some(after) => after.eax == result && after.memory == before.memory && after.ecx
            == before.ecx,
        None => false,
    }
}

/// The code of an expression computes its value into `eax` and leaves the
/// memory, the stack among it, as it was. The address register is left
/// alone too by an expression whose indexed reads all read the array it
/// points to.
pub proof fn lemma_expression_computes(tree: NodeView, next: nat, machine: Machine)
    requires
        in_range(machine.memory),
        value(tree, machine.memory).is_some(),
    ensures
        computed(
            machine,
            machine.run(emit(tree, next).code),
            value(tree, machine.memory).unwrap(),
        ),
        reads_only(tree, machine.esi) ==> machine.run(emit(tree, next).code).unwrap().esi
            == machine.esi,
    decreases tree,
{
    let memory = machine.memory;
    match tree {
        NodeView::Literal(text) => {
            lemma_run_one(machine, Instr::LoadLiteral(text));
        },
        NodeView::Variable(name) => {
            lemma_run_one(machine, Instr::LoadVariable(name));
        },
        NodeView::Array { arr_name, index } => {
            let inner = emit(*index, next);
            let at = value(*index, memory).unwrap();
            lemma_expression_computes(*index, next, machine);
            let indexed = machine.run(inner.code).unwrap();
            let load = seq![Instr::LoadAddress(arr_name)];
            let read = seq![Instr::LoadElement];
            lemma_run_append(machine, inner.code + load, read);
            lemma_run_append(machine, inner.code, load);
            lemma_run_one(indexed, Instr::LoadAddress(arr_name));
            let addressed = indexed.execute(Instr::LoadAddress(arr_name)).unwrap();
            lemma_run_one(addressed, Instr::LoadElement);
            assert(emit(tree, next).code == inner.code + load + read);
        },
        NodeView::BinaryOperation { op, left, right } => {
            let rhs = emit(*right, next);
            let lhs = emit(*left, next + rhs.labels);
            let a = value(*left, memory).unwrap();
            let b = value(*right, memory).unwrap();
            lemma_value_in_range(*left, memory);
            lemma_value_in_range(*right, memory);
            lemma_expression_computes(*right, next, machine);
            let first = machine.run(rhs.code).unwrap();
            lemma_run_one(first, Instr::Push);
            let pushed = first.execute(Instr::Push).unwrap();
            lemma_value_of_storage(*left, memory, pushed.memory);
            lemma_expression_computes(*left, next + rhs.labels, pushed);
            let second = pushed.run(lhs.code).unwrap();
            lemma_run_one(second, Instr::Pop);
            let popped = second.execute(Instr::Pop).unwrap();
            assert(popped.memory.stack == memory.stack);
            assert(popped.memory == memory);
            lemma_arithmetic_computes(op, popped);
            let push = seq![Instr::Push];
            let pop = seq![Instr::Pop];
            let combine = arithmetic(op);
            assert(emit(tree, next).code == rhs.code + push + lhs.code + pop + combine);
            lemma_run_append(machine, rhs.code + push + lhs.code + pop, combine);
            lemma_run_append(machine, rhs.code + push + lhs.code, pop);
            lemma_run_append(machine, rhs.code + push, lhs.code);
            lemma_run_append(machine, rhs.code, push);
        },
        _ => {},
    }
}

/// The code of an assignment stores the value of its expression in the
/// cell of its name.
pub proof fn lemma_assignment_stores(
    name: Seq<char>,
    expr: NodeView,
    next: nat,
    machine: Machine,
)
    requires
        in_range(machine.memory),
        value(expr, machine.memory).is_some(),
        machine.memory.cells.dom().contains(name),
    ensures
        ({
            let node = NodeView::Assignment { var_name: name, expr: Box::new(expr) };
            let result = value(expr, machine.memory).unwrap();
            let memory = machine.memory;
            machine.run(emit(node, next).code) matches Some(after) && after.memory == (Memory {
                cells: memory.cells.insert(name, result),
                ..memory
            })
        }),
{
    let node = NodeView::Assignment { var_name: name, expr: Box::new(expr) };
    let code = emit(expr, next).code;
    lemma_expression_computes(expr, next, machine);
    lemma_run_append(machine, code, seq![Instr::StoreVariable(name)]);
    lemma_run_one(machine.run(code).unwrap(), Instr::StoreVariable(name));
    assert(emit(node, next).code == code + seq![Instr::StoreVariable(name)]);
}

/// The code of a print statement prints the value of its expression.
pub proof fn lemma_print_prints(expr: NodeView, next: nat, machine: Machine)
    requires
        in_range(machine.memory),
        value(expr, machine.memory).is_some(),
    ensures
        ({
            let node = NodeView::Print(Box::new(expr));
            let result = value(expr, machine.memory).unwrap();
            let memory = machine.memory;
            machine.run(emit(node, next).code) matches Some(after) && after.memory == (Memory {
                printed: memory.printed.push(result),
                ..memory
            })
        }),
{
    let node = NodeView::Print(Box::new(expr));
    let code = emit(expr, next).code;
    lemma_expression_computes(expr, next, machine);
    lemma_run_append(machine, code, seq![Instr::CallPrint]);
    lemma_run_one(machine.run(code).unwrap(), Instr::CallPrint);
    assert(emit(node, next).code == code + seq![Instr::CallPrint]);
}

/// The code of an assignment to an array element stores the value at the
/// index, provided that neither the index nor the value reads another
/// array: the address of the array is taken first and not saved while the
/// two are computed.
pub proof fn lemma_element_stored(
    name: Seq<char>,
    position: NodeView,
    element: NodeView,
    next: nat,
    machine: Machine,
)
    requires
        in_range(machine.memory),
        value(position, machine.memory).is_some(),
        value(element, machine.memory).is_some(),
        machine.memory.arrays.dom().contains(name),
        0 <= value(position, machine.memory).unwrap() < machine.memory.arrays[name].len(),
        reads_only(position, name),
        reads_only(element, name),
    ensures
        ({
            let node = NodeView::ArrayAssignment {
                arr_name: name,
                position: Box::new(position),
                value: Box::new(element),
            };
            let at = value(position, machine.memory).unwrap();
            let result = value(element, machine.memory).unwrap();
            let memory = machine.memory;
            machine.run(emit(node, next).code) matches Some(after) && after.memory == (Memory {
                arrays: memory.arrays.insert(name, memory.arrays[name].update(at, result)),
                ..memory
            })
        }),
{
    let node = NodeView::ArrayAssignment {
        arr_name: name,
        position: Box::new(position),
        value: Box::new(element),
    };
    let address = seq![Instr::LoadAddress(name)];
    let index = emit(position, next);
    let save = seq![Instr::SaveIndex];
    let what = emit(element, next + index.labels);
    let store = seq![Instr::StoreElement];
    lemma_run_one(machine, Instr::LoadAddress(name));
    let addressed = machine.execute(Instr::LoadAddress(name)).unwrap();
    lemma_expression_computes(position, next, addressed);
    let indexed = addressed.run(index.code).unwrap();
    lemma_run_one(indexed, Instr::SaveIndex);
    let saved = indexed.execute(Instr::SaveIndex).unwrap();
    lemma_expression_computes(element, next + index.labels, saved);
    let valued = saved.run(what.code).unwrap();
    lemma_run_one(valued, Instr::StoreElement);
    assert(emit(node, next).code == address + index.code + save + what.code + store);
    lemma_run_append(machine, address + index.code + save + what.code, store);
    lemma_run_append(machine, address + index.code + save, what.code);
    lemma_run_append(machine, address + index.code, save);
    lemma_run_append(machine, address, index.code);
}

/// Whether `code` holds no jump.
pub open spec fn straight(code: Seq<Instr>) -> bool {
    forall|i: int|
        0 <= i < code.len() ==> !((#[trigger] code[i]) is Jump) && !(code[i] is JumpIf)
}

/// Two pieces of code without a jump make code without a jump.
proof fn lemma_straight_join(first: Seq<Instr>, second: Seq<Instr>)
    requires
        straight(first),
        straight(second),
    ensures
        straight(first + second),
{
    let all = first + second;
    assert forall|i: int| 0 <= i < all.len() implies !((#[trigger] all[i]) is Jump) && !(all[i]
        is JumpIf) by {
        if i < first.len() {
            assert(all[i] == first[i]);
        } else {
            assert(all[i] == second[i - first.len()]);
        }
    }
}

/// The code of an expression holds no jump.
pub proof fn lemma_expression_straight(tree: NodeView, next: nat, memory: Memory)
    requires
        value(tree, memory).is_some(),
    ensures
        straight(emit(tree, next).code),
    decreases tree,
{
    match tree {
        NodeView::Array { arr_name, index } => {
            lemma_expression_straight(*index, next, memory);
            let inner = emit(*index, next).code;
            lemma_straight_join(inner, seq![Instr::LoadAddress(arr_name)]);
            lemma_straight_join(inner + seq![Instr::LoadAddress(arr_name)], seq![Instr::LoadElement]);
        },
        NodeView::BinaryOperation { op, left, right } => {
            let rhs = emit(*right, next);
            let lhs = emit(*left, next + rhs.labels);
            lemma_expression_straight(*right, next, memory);
            lemma_expression_straight(*left, next + rhs.labels, memory);
            lemma_straight_join(rhs.code, seq![Instr::Push]);
            lemma_straight_join(rhs.code + seq![Instr::Push], lhs.code);
            lemma_straight_join(rhs.code + seq![Instr::Push] + lhs.code, seq![Instr::Pop]);
            lemma_straight_join(
                rhs.code + seq![Instr::Push] + lhs.code + seq![Instr::Pop],
                arithmetic(op),
            );
        },
        _ => {},
    }
}

/// The code of a comparison leaves the value of the left side in `eax`,
/// that of the right side in `ebx`, and the two compared; it holds no
/// jump and leaves the memory as it was.
pub proof fn lemma_comparison_compares(left: NodeView, right: NodeView, next: nat, machine: Machine)
    requires
        in_range(machine.memory),
        value(left, machine.memory).is_some(),
        value(right, machine.memory).is_some(),
    ensures
        ({
            let rhs = emit(right, next);
            let lhs = emit(left, next + rhs.labels);
            let code = compare(lhs, rhs).code;
            &&& straight(code)
            &&& machine.run(code) matches Some(after) && after.memory == machine.memory
                && after.compared == (
                value(left, machine.memory).unwrap(),
                value(right, machine.memory).unwrap(),
            )
        }),
{
    let memory = machine.memory;
    let rhs = emit(right, next);
    let lhs = emit(left, next + rhs.labels);
    let push = seq![Instr::Push];
    let pop = seq![Instr::Pop];
    let cmp = seq![Instr::Compare];
    lemma_expression_straight(right, next, memory);
    lemma_expression_straight(left, next + rhs.labels, memory);
    lemma_straight_join(rhs.code, push);
    lemma_straight_join(rhs.code + push, lhs.code);
    lemma_straight_join(rhs.code + push + lhs.code, pop);
    lemma_straight_join(rhs.code + push + lhs.code + pop, cmp);
    lemma_expression_computes(right, next, machine);
    let first = machine.run(rhs.code).unwrap();
    lemma_run_one(first, Instr::Push);
    let pushed = first.execute(Instr::Push).unwrap();
    lemma_value_of_storage(left, memory, pushed.memory);
    lemma_expression_computes(left, next + rhs.labels, pushed);
    let second = pushed.run(lhs.code).unwrap();
    lemma_run_one(second, Instr::Pop);
    let popped = second.execute(Instr::Pop).unwrap();
    assert(popped.memory.stack == memory.stack);
    assert(popped.memory == memory);
    lemma_run_one(popped, Instr::Compare);
    assert(compare(lhs, rhs).code == rhs.code + push + lhs.code + pop + cmp);
    lemma_run_append(machine, rhs.code + push + lhs.code + pop, cmp);
    lemma_run_append(machine, rhs.code + push + lhs.code, pop);
    lemma_run_append(machine, rhs.code + push, lhs.code);
    lemma_run_append(machine, rhs.code, push);
}

/// The position of the first mark of `label` in `code` at or after
/// `from`.
pub open spec fn locate_from(code: Seq<Instr>, label: Label, from: int) -> Option<int>
    decreases code.len() - from,
{
    if from < 0 || from >= code.len() {
        None
    } else if code[from] == Instr::Mark(label) {
        Some(from)
    } else {
        locate_from(code, label, from + 1)
    }
}

/// The position that `label` marks in `code`.
pub open spec fn locate(code: Seq<Instr>, label: Label) -> Option<int> {
    locate_from(code, label, 0)
}

/// A machine at a position of its program.
pub struct Running {
    pub at: int,
    pub machine: Machine,
}

/// One step of the program `code`: a jump goes to its label, a
/// conditional jump does so if its condition holds of the two numbers
/// compared last, read as signed numbers; every other instruction is
/// executed and followed by the next one. Nothing outside the program, at
/// a fault, and at a jump to a label that is marked nowhere.
pub open spec fn step(code: Seq<Instr>, now: Running) -> Option<Running> {
    if now.at < 0 || now.at >= code.len() {
        None
    } else {
        match code[now.at] {
            Instr::Jump(label) => match locate(code, label) {
                Some(at) => Some(Running { at, machine: now.machine }),
                None => None,
            },
            Instr::JumpIf(condition, label) => if jump_taken(
                condition,
                signed(now.machine.compared.0),
                signed(now.machine.compared.1),
            ) {
                match locate(code, label) {
                    Some(at) => Some(Running { at, machine: now.machine }),
                    None => None,
                }
            } else {
                Some(Running { at: now.at + 1, machine: now.machine })
            },
            other => match now.machine.execute(other) {
                Some(machine) => Some(Running { at: now.at + 1, machine }),
                None => None,
            },
        }
    }
}

/// `count` steps of the program `code`.
pub open spec fn steps(code: Seq<Instr>, now: Running, count: nat) -> Option<Running>
    decreases count,
{
    if count == 0 {
        Some(now)
    } else {
        match step(code, now) {
            Some(next) => steps(code, next, (count - 1) as nat),
            None => None,
        }
    }
}

/// Steps in two runs are the steps of the first run, then those of the
/// second.
pub proof fn lemma_steps_add(code: Seq<Instr>, now: Running, first: nat, second: nat)
    ensures
        steps(code, now, first + second) == match steps(code, now, first) {
            Some(middle) => steps(code, middle, second),
            None => None,
        },
    decreases first,
{
    if first > 0 {
        match step(code, now) {
            Some(next) => {
                lemma_steps_add(code, next, (first - 1) as nat, second);
            },
            None => {},
        }
    }
}

/// Where every label is marked once, a label is found where it is marked.
pub proof fn lemma_locate_marked(code: Seq<Instr>, label: Label, at: int)
    requires
        0 <= at < code.len(),
        code[at] == Instr::Mark(label),
        marks_distinct(code),
    ensures
        locate(code, label) == Some(at),
{
    lemma_locate_from(code, label, at, 0);
}

/// A label that is marked once is found from any position before its mark.
proof fn lemma_locate_from(code: Seq<Instr>, label: Label, at: int, from: int)
    requires
        0 <= from <= at < code.len(),
        code[at] == Instr::Mark(label),
        marks_distinct(code),
    ensures
        locate_from(code, label, from) == Some(at),
    decreases at - from,
{
    if from < at {
        if code[from] == Instr::Mark(label) {
            assert(code[from] is Mark && code[at] is Mark);
            assert(false);
        }
        lemma_locate_from(code, label, at, from + 1);
    }
}

/// Code without a jump that stands in a program runs there as it runs
/// alone, instruction after instruction.
pub proof fn lemma_steps_straight(
    code: Seq<Instr>,
    at: int,
    segment: Seq<Instr>,
    machine: Machine,
)
    requires
        0 <= at,
        at + segment.len() <= code.len(),
        code.subrange(at, at + segment.len()) == segment,
        straight(segment),
        machine.run(segment).is_some(),
    ensures
        steps(code, Running { at, machine }, segment.len()) == Some(
            Running { at: at + segment.len(), machine: machine.run(segment).unwrap() },
        ),
    decreases segment.len(),
{
    if segment.len() > 0 {
        assert(code[at] == segment[0]);
        let next = machine.execute(segment[0]).unwrap();
        let rest = segment.skip(1);
        assert(code.subrange(at + 1, at + 1 + rest.len()) == rest);
        assert forall|i: int| 0 <= i < rest.len() implies !((#[trigger] rest[i]) is Jump) && !(
        rest[i] is JumpIf) by {
            assert(rest[i] == segment[i + 1]);
        }
        lemma_steps_straight(code, at + 1, rest, next);
    }
}

/// Whether the comparison `op` holds of two numbers in registers, read as
/// signed numbers.
pub open spec fn holds(op: Seq<char>, left: int, right: int) -> bool {
    comparison_holds(op, signed(left), signed(right))
}

/// An `if` block decides as its condition says. From the start of the
/// block, the program computes both sides of the condition and compares
/// them; then it stands at the start of the body if the condition holds,
/// and at the end label, past the body, if it does not. The memory is as
/// it was.
pub proof fn lemma_if_decides(
    code: Seq<Instr>,
    at: int,
    left: NodeView,
    op: Seq<char>,
    right: NodeView,
    body: Emitted,
    next: nat,
    machine: Machine,
)
    requires
        0 <= at,
        at + if_code(
            emit(left, next + emit(right, next).labels),
            emit(right, next),
            op,
            body,
            next,
        ).code.len() <= code.len(),
        code.subrange(
            at,
            at + if_code(
                emit(left, next + emit(right, next).labels),
                emit(right, next),
                op,
                body,
                next,
            ).code.len(),
        ) == if_code(
            emit(left, next + emit(right, next).labels),
            emit(right, next),
            op,
            body,
            next,
        ).code,
        marks_distinct(code),
        is_comparison(op),
        in_range(machine.memory),
        value(left, machine.memory).is_some(),
        value(right, machine.memory).is_some(),
    ensures
        ({
            let rhs = emit(right, next);
            let lhs = emit(left, next + rhs.labels);
            let condition = compare(lhs, rhs).code;
            let body_at = at + condition.len() + 1;
            let end_at = body_at + body.code.len();
            let end = Label { kind: LabelKind::EndIf, id: next + rhs.labels + lhs.labels };
            &&& code[end_at] == Instr::Mark(end)
            &&& code.subrange(body_at, end_at) == body.code
            &&& steps(code, Running { at, machine }, (condition.len() + 1) as nat) matches Some(
                now,
            ) && now.machine.memory == machine.memory && now.at == if holds(
                op,
                value(left, machine.memory).unwrap(),
                value(right, machine.memory).unwrap(),
            ) {
                body_at
            } else {
                end_at
            }
        }),
{
    let rhs = emit(right, next);
    let lhs = emit(left, next + rhs.labels);
    let block = if_code(lhs, rhs, op, body, next).code;
    let condition = compare(lhs, rhs).code;
    let end = Label { kind: LabelKind::EndIf, id: next + rhs.labels + lhs.labels };
    let jump = escape(op, end);
    let a = value(left, machine.memory).unwrap();
    let b = value(right, machine.memory).unwrap();
    lemma_if_layout(lhs, rhs, op, body, next);
    assert(block =~= condition + seq![jump] + body.code + seq![Instr::Mark(end)]);
    let jump_at = at + condition.len();
    let body_at = jump_at + 1;
    let end_at = body_at + body.code.len();
    assert(code[jump_at] == block[jump_at - at]);
    assert(code[end_at] == block[end_at - at]);
    assert(code.subrange(body_at, end_at) =~= body.code) by {
        assert forall|i: int| 0 <= i < body.code.len() implies code[body_at + i]
            == body.code[i] by {
            assert(code[body_at + i] == block[body_at + i - at]);
        }
    }
    assert(code.subrange(at, at + condition.len()) =~= condition) by {
        assert forall|i: int| 0 <= i < condition.len() implies code[at + i] == condition[i] by {
            assert(code[at + i] == block[i]);
        }
    }
    lemma_comparison_compares(left, right, next, machine);
    lemma_steps_straight(code, at, condition, machine);
    let compared = machine.run(condition).unwrap();
    let before = Running { at: jump_at, machine: compared };
    lemma_escape_negates(op, signed(a), signed(b));
    lemma_locate_marked(code, end, end_at);
    lemma_steps_add(code, Running { at, machine }, condition.len(), 1);
    reveal_with_fuel(steps, 2);
}

/// A `while` block decides as its condition says. From its entry label,
/// the program computes both sides of the condition and compares them;
/// then it stands at the start of the body if the condition holds, and at
/// the exit label, past the body and the jump back, if it does not: a
/// condition that fails at the first check skips the body entirely. The
/// jump after the body goes back to the entry label, before the
/// condition.
pub proof fn lemma_while_decides(
    code: Seq<Instr>,
    at: int,
    left: NodeView,
    op: Seq<char>,
    right: NodeView,
    body: Emitted,
    next: nat,
    machine: Machine,
)
    requires
        0 <= at,
        at + while_code(
            emit(left, next + 2 + emit(right, next + 2).labels),
            emit(right, next + 2),
            op,
            body,
            next,
        ).code.len() <= code.len(),
        code.subrange(
            at,
            at + while_code(
                emit(left, next + 2 + emit(right, next + 2).labels),
                emit(right, next + 2),
                op,
                body,
                next,
            ).code.len(),
        ) == while_code(
            emit(left, next + 2 + emit(right, next + 2).labels),
            emit(right, next + 2),
            op,
            body,
            next,
        ).code,
        marks_distinct(code),
        is_comparison(op),
        in_range(machine.memory),
        value(left, machine.memory).is_some(),
        value(right, machine.memory).is_some(),
    ensures
        ({
            let rhs = emit(right, next + 2);
            let lhs = emit(left, next + 2 + rhs.labels);
            let condition = compare(lhs, rhs).code;
            let body_at = at + 1 + condition.len() + 1;
            let back_at = body_at + body.code.len();
            let end_at = back_at + 1;
            let start = Label { kind: LabelKind::WhileStart, id: next };
            let end = Label { kind: LabelKind::WhileEnd, id: next + 1 };
            &&& code[at] == Instr::Mark(start)
            &&& code[back_at] == Instr::Jump(start)
            &&& code[end_at] == Instr::Mark(end)
            &&& code.subrange(body_at, back_at) == body.code
            &&& steps(code, Running { at, machine }, (condition.len() + 2) as nat) matches Some(
                now,
            ) && now.machine.memory == machine.memory && now.at == if holds(
                op,
                value(left, machine.memory).unwrap(),
                value(right, machine.memory).unwrap(),
            ) {
                body_at
            } else {
                end_at
            }
            &&& forall|any: Machine|
                #[trigger] step(code, Running { at: back_at, machine: any }) == Some(
                    Running { at, machine: any },
                )
        }),
{
    let rhs = emit(right, next + 2);
    let lhs = emit(left, next + 2 + rhs.labels);
    let block = while_code(lhs, rhs, op, body, next).code;
    let condition = compare(lhs, rhs).code;
    let start = Label { kind: LabelKind::WhileStart, id: next };
    let end = Label { kind: LabelKind::WhileEnd, id: next + 1 };
    let jump = escape(op, end);
    let a = value(left, machine.memory).unwrap();
    let b = value(right, machine.memory).unwrap();
    lemma_while_layout(lhs, rhs, op, body, next);
    assert(block =~= seq![Instr::Mark(start)] + condition + seq![jump] + body.code + seq![
        Instr::Jump(start),
        Instr::Mark(end),
    ]);
    let condition_at = at + 1;
    let jump_at = condition_at + condition.len();
    let body_at = jump_at + 1;
    let back_at = body_at + body.code.len();
    let end_at = back_at + 1;
    assert(code[at] == block[0]);
    assert(code[jump_at] == block[jump_at - at]);
    assert(code[back_at] == block[back_at - at]);
    assert(code[end_at] == block[end_at - at]);
    assert(code.subrange(body_at, back_at) =~= body.code) by {
        assert forall|i: int| 0 <= i < body.code.len() implies code[body_at + i]
            == body.code[i] by {
            assert(code[body_at + i] == block[body_at + i - at]);
        }
    }
    assert(code.subrange(condition_at, condition_at + condition.len()) =~= condition) by {
        assert forall|i: int| 0 <= i < condition.len() implies code[condition_at + i]
            == condition[i] by {
            assert(code[condition_at + i] == block[i + 1]);
        }
    }
    lemma_comparison_compares(left, right, next + 2, machine);
    lemma_steps_straight(code, condition_at, condition, machine);
    lemma_escape_negates(op, signed(a), signed(b));
    lemma_locate_marked(code, end, end_at);
    lemma_locate_marked(code, start, at);
    let entered = Running { at: condition_at, machine };
    assert(step(code, Running { at, machine }) == Some(entered));
    lemma_steps_add(code, Running { at, machine }, 1, (condition.len() + 1) as nat);
    lemma_steps_add(code, entered, condition.len(), 1);
    reveal_with_fuel(steps, 2);
}

/// What the statement `node` makes of `memory`, with at most `fuel` passes
/// through any loop: an assignment sets a cell, an assignment to an
/// element sets it, a print statement prints, an `if` block performs its
/// body if its condition holds, a `while` block performs its body until
/// its condition fails. Declarations, markers and the start and end nodes
/// do nothing. Nothing for any other node, for an expression without a
/// value, for storage that is not there, for an assignment to an element
/// that reads another array, and for a loop that needs more fuel.
pub open spec fn perform(node: NodeView, memory: Memory, fuel: nat) -> Option<Memory>
    decreases fuel, node, 0nat,
{
    match node {
        NodeView::Assignment { var_name, expr } => match value(*expr, memory) {
            Some(result) => if memory.cells.dom().contains(var_name) {
                Some(Memory { cells: memory.cells.insert(var_name, result), ..memory })
            } else {
                None
            },
            None => None,
        },
        NodeView::ArrayAssignment { arr_name, position, value: element } => match (
            value(*position, memory),
            value(*element, memory),
        ) {
            (Some(at), Some(result)) => if memory.arrays.dom().contains(arr_name) && 0 <= at
                < memory.arrays[arr_name].len() && reads_only(*position, arr_name) && reads_only(
                *element,
                arr_name,
            ) {
                Some(
                    Memory {
                        arrays: memory.arrays.insert(
                            arr_name,
                            memory.arrays[arr_name].update(at, result),
                        ),
                        ..memory
                    },
                )
            } else {
                None
            },
            _ => None,
        },
        NodeView::Print(expr) => match value(*expr, memory) {
            Some(result) => Some(Memory { printed: memory.printed.push(result), ..memory }),
            None => None,
        },
        NodeView::IfOperation { first_half, comparison_op, second_half, content } => match (
            value(*first_half, memory),
            value(*second_half, memory),
        ) {
            (Some(left), Some(right)) => if !is_comparison(comparison_op) {
                None
            } else if holds(comparison_op, left, right) {
                perform_block(content, memory, fuel)
            } else {
                Some(memory)
            },
            _ => None,
        },
        NodeView::WhileOperation { first_half, comparison_op, second_half, content } => match (
            value(*first_half, memory),
            value(*second_half, memory),
        ) {
            (Some(left), Some(right)) => if !is_comparison(comparison_op) || fuel == 0 {
                None
            } else if holds(comparison_op, left, right) {
                match perform_block(content, memory, (fuel - 1) as nat) {
                    Some(after) => perform(node, after, (fuel - 1) as nat),
                    None => None,
                }
            } else {
                Some(memory)
            },
            _ => None,
        },
        NodeView::ArrayDeclaration { .. } => Some(memory),
        NodeView::EndIf => Some(memory),
        NodeView::EndWhile => Some(memory),
        NodeView::Start => Some(memory),
        NodeView::End => Some(memory),
        _ => None,
    }
}

/// What the statements `nodes`, one after the other, make of `memory`.
pub open spec fn perform_block(nodes: Seq<NodeView>, memory: Memory, fuel: nat) -> Option<Memory>
    decreases fuel, nodes, 1nat,
{
    if nodes.len() == 0 {
        Some(memory)
    } else {
        match perform_block(nodes.drop_last(), memory, fuel) {
            Some(before) => perform(nodes.last(), before, fuel),
            None => None,
        }
    }
}

/// Whether `segment` stands in `code` at position `at`.
pub open spec fn placed(code: Seq<Instr>, at: int, segment: Seq<Instr>) -> bool {
    0 <= at && at + segment.len() <= code.len() && code.subrange(at, at + segment.len())
        == segment
}

/// A part of code that stands in a program stands there at its place in
/// the code.
pub proof fn lemma_placed_part(
    code: Seq<Instr>,
    at: int,
    segment: Seq<Instr>,
    from: int,
    part: Seq<Instr>,
)
    requires
        placed(code, at, segment),
        placed(segment, from, part),
    ensures
        placed(code, at + from, part),
{
    assert(code.subrange(at + from, at + from + part.len()) =~= part) by {
        assert forall|i: int| 0 <= i < part.len() implies code[at + from + i] == part[i] by {
            assert(code[at + from + i] == segment[from + i]);
            assert(segment.subrange(from, from + part.len())[i] == segment[from + i]);
        }
    }
}

/// Whether the program `code`, from position `at` with the machine
/// `machine`, reaches position `to` with the memory `memory`, all in
/// range, in `count` steps.
pub open spec fn reaches(
    code: Seq<Instr>,
    at: int,
    machine: Machine,
    count: nat,
    to: int,
    memory: Memory,
) -> bool {
    match steps(code, Running { at, machine }, count) {
        Some(now) => now.at == to && now.machine.memory == memory && in_range(memory),
        None => false,
    }
}

/// Reaching a position, and another from there, is reaching the other.
pub proof fn lemma_reaches_on(
    code: Seq<Instr>,
    at: int,
    machine: Machine,
    first: nat,
    middle: int,
    second: nat,
    to: int,
    memory: Memory,
)
    requires
        steps(code, Running { at, machine }, first).is_some(),
        steps(code, Running { at, machine }, first).unwrap().at == middle,
        reaches(
            code,
            middle,
            steps(code, Running { at, machine }, first).unwrap().machine,
            second,
            to,
            memory,
        ),
    ensures
        reaches(code, at, machine, first + second, to, memory),
{
    lemma_steps_add(code, Running { at, machine }, first, second);
}

/// Code without a jump that stands in a program reaches its end with the
/// memory it leaves when run alone.
proof fn lemma_straight_reaches(code: Seq<Instr>, at: int, segment: Seq<Instr>, machine: Machine)
    requires
        placed(code, at, segment),
        straight(segment),
        machine.run(segment).is_some(),
        in_range(machine.run(segment).unwrap().memory),
    ensures
        reaches(
            code,
            at,
            machine,
            segment.len(),
            at + segment.len(),
            machine.run(segment).unwrap().memory,
        ),
{
    lemma_steps_straight(code, at, segment, machine);
}

/// The compiled statement does what the statement means: where the code
/// of `node` stands in a program whose labels are each marked once, the
/// program runs from the start of that code to its end, and the memory
/// then is what the statement makes of the memory before. The number of
/// steps it takes is returned.
pub proof fn lemma_statement_runs(
    code: Seq<Instr>,
    at: int,
    node: NodeView,
    next: nat,
    machine: Machine,
    fuel: nat,
) -> (count: nat)
    requires
        placed(code, at, emit(node, next).code),
        marks_distinct(code),
        in_range(machine.memory),
        perform(node, machine.memory, fuel).is_some(),
    ensures
        reaches(
            code,
            at,
            machine,
            count,
            at + emit(node, next).code.len(),
            perform(node, machine.memory, fuel).unwrap(),
        ),
    decreases fuel, node, 0nat,
{
    let memory = machine.memory;
    let segment = emit(node, next).code;
    match node {
        NodeView::Assignment { var_name, expr } => {
            lemma_assignment_stores(var_name, *expr, next, machine);
            lemma_expression_straight(*expr, next, memory);
            lemma_value_in_range(*expr, memory);
            lemma_straight_join(emit(*expr, next).code, seq![Instr::StoreVariable(var_name)]);
            lemma_straight_reaches(code, at, segment, machine);
            segment.len()
        },
        NodeView::ArrayAssignment { arr_name, position, value: element } => {
            let index = emit(*position, next);
            let what = emit(*element, next + index.labels);
            lemma_element_stored(arr_name, *position, *element, next, machine);
            lemma_expression_straight(*position, next, memory);
            lemma_expression_straight(*element, next + index.labels, memory);
            lemma_value_in_range(*element, memory);
            let address = seq![Instr::LoadAddress(arr_name)];
            let save = seq![Instr::SaveIndex];
            let store = seq![Instr::StoreElement];
            lemma_straight_join(address, index.code);
            lemma_straight_join(address + index.code, save);
            lemma_straight_join(address + index.code + save, what.code);
            lemma_straight_join(address + index.code + save + what.code, store);
            assert(segment == address + index.code + save + what.code + store);
            lemma_straight_reaches(code, at, segment, machine);
            segment.len()
        },
        NodeView::Print(expr) => {
            lemma_print_prints(*expr, next, machine);
            lemma_expression_straight(*expr, next, memory);
            lemma_straight_join(emit(*expr, next).code, seq![Instr::CallPrint]);
            lemma_straight_reaches(code, at, segment, machine);
            segment.len()
        },
        NodeView::IfOperation { first_half, comparison_op, second_half, content } => {
            let rhs = emit(*second_half, next);
            let lhs = emit(*first_half, next + rhs.labels);
            let body = emit_block(content, next + rhs.labels + lhs.labels + 1);
            let condition = compare(lhs, rhs).code;
            let decide = (condition.len() + 1) as nat;
            let body_at = at + condition.len() + 1;
            let end_at = body_at + body.code.len();
            lemma_if_layout(lhs, rhs, comparison_op, body, next);
            lemma_if_decides(
                code,
                at,
                *first_half,
                comparison_op,
                *second_half,
                body,
                next,
                machine,
            );
            let decided = steps(code, Running { at, machine }, decide).unwrap();
            let left = value(*first_half, memory).unwrap();
            let right = value(*second_half, memory).unwrap();
            reveal_with_fuel(steps, 2);
            if holds(comparison_op, left, right) {
                let inside = lemma_block_runs(
                    code,
                    body_at,
                    content,
                    next + rhs.labels + lhs.labels + 1,
                    decided.machine,
                    fuel,
                );
                let result = perform_block(content, memory, fuel).unwrap();
                let ended = steps(code, Running { at: body_at, machine: decided.machine }, inside).unwrap();
                assert(reaches(code, end_at, ended.machine, 1, end_at + 1, result));
                lemma_reaches_on(
                    code,
                    body_at,
                    decided.machine,
                    inside,
                    end_at,
                    1,
                    end_at + 1,
                    result,
                );
                lemma_reaches_on(code, at, machine, decide, body_at, inside + 1, end_at + 1, result);
                decide + inside + 1
            } else {
                assert(reaches(code, end_at, decided.machine, 1, end_at + 1, memory));
                lemma_reaches_on(code, at, machine, decide, end_at, 1, end_at + 1, memory);
                decide + 1
            }
        },
        NodeView::WhileOperation { first_half, comparison_op, second_half, content } => {
            let rhs = emit(*second_half, next + 2);
            let lhs = emit(*first_half, next + 2 + rhs.labels);
            let body = emit_block(content, next + 2 + rhs.labels + lhs.labels);
            let condition = compare(lhs, rhs).code;
            let decide = (condition.len() + 2) as nat;
            let body_at = at + 1 + condition.len() + 1;
            let back_at = body_at + body.code.len();
            let end_at = back_at + 1;
            lemma_while_layout(lhs, rhs, comparison_op, body, next);
            lemma_while_decides(
                code,
                at,
                *first_half,
                comparison_op,
                *second_half,
                body,
                next,
                machine,
            );
            let decided = steps(code, Running { at, machine }, decide).unwrap();
            let left = value(*first_half, memory).unwrap();
            let right = value(*second_half, memory).unwrap();
            reveal_with_fuel(steps, 2);
            if holds(comparison_op, left, right) {
                let inside = lemma_block_runs(
                    code,
                    body_at,
                    content,
                    next + 2 + rhs.labels + lhs.labels,
                    decided.machine,
                    (fuel - 1) as nat,
                );
                let once = perform_block(content, memory, (fuel - 1) as nat).unwrap();
                let ended = steps(code, Running { at: body_at, machine: decided.machine }, inside).unwrap();
                let result = perform(node, once, (fuel - 1) as nat).unwrap();
                assert(step(code, Running { at: back_at, machine: ended.machine }) == Some(
                    Running { at, machine: ended.machine },
                ));
                let again = lemma_statement_runs(code, at, node, next, ended.machine, (fuel - 1) as nat);
                lemma_reaches_on(code, back_at, ended.machine, 1, at, again, end_at + 1, result);
                lemma_reaches_on(
                    code,
                    body_at,
                    decided.machine,
                    inside,
                    back_at,
                    1 + again,
                    end_at + 1,
                    result,
                );
                lemma_reaches_on(
                    code,
                    at,
                    machine,
                    decide,
                    body_at,
                    inside + 1 + again,
                    end_at + 1,
                    result,
                );
                decide + inside + 1 + again
            } else {
                assert(reaches(code, end_at, decided.machine, 1, end_at + 1, memory));
                lemma_reaches_on(code, at, machine, decide, end_at, 1, end_at + 1, memory);
                decide + 1
            }
        },
        _ => {
            assert(segment.len() == 0);
            0
        },
    }
}

/// The compiled block does what the block means: see
/// `lemma_statement_runs`.
pub proof fn lemma_block_runs(
    code: Seq<Instr>,
    at: int,
    nodes: Seq<NodeView>,
    next: nat,
    machine: Machine,
    fuel: nat,
) -> (count: nat)
    requires
        placed(code, at, emit_block(nodes, next).code),
        marks_distinct(code),
        in_range(machine.memory),
        perform_block(nodes, machine.memory, fuel).is_some(),
    ensures
        reaches(
            code,
            at,
            machine,
            count,
            at + emit_block(nodes, next).code.len(),
            perform_block(nodes, machine.memory, fuel).unwrap(),
        ),
    decreases fuel, nodes, 1nat,
{
    if nodes.len() == 0 {
        0
    } else {
        let before = emit_block(nodes.drop_last(), next);
        let last = emit(nodes.last(), next + before.labels);
        let all = emit_block(nodes, next).code;
        assert(all == before.code + last.code);
        assert(placed(all, 0, before.code)) by {
            assert(all.subrange(0, before.code.len() as int) =~= before.code);
        }
        assert(placed(all, before.code.len() as int, last.code)) by {
            assert(all.subrange(before.code.len() as int, all.len() as int) =~= last.code);
        }
        lemma_placed_part(code, at, all, 0, before.code);
        lemma_placed_part(code, at, all, before.code.len() as int, last.code);
        let first = lemma_block_runs(code, at, nodes.drop_last(), next, machine, fuel);
        let middle = steps(code, Running { at, machine }, first).unwrap();
        let second = lemma_statement_runs(
            code,
            at + before.code.len(),
            nodes.last(),
            next + before.labels,
            middle.machine,
            fuel,
        );
        lemma_reaches_on(
            code,
            at,
            machine,
            first,
            at + before.code.len(),
            second,
            at + all.len(),
            perform_block(nodes, machine.memory, fuel).unwrap(),
        );
        first + second
    }
}

/// The compiled program does what the program means: run from its first
/// instruction, the code of a program reaches its end, and the memory then
/// is what the statements of the program make of the memory before.
pub proof fn lemma_program_runs(program: Seq<NodeView>, machine: Machine, fuel: nat) -> (count:
    nat)
    requires
        in_range(machine.memory),
        perform_block(program, machine.memory, fuel).is_some(),
    ensures
        reaches(
            emit_block(program, 0).code,
            0,
            machine,
            count,
            emit_block(program, 0).code.len() as int,
            perform_block(program, machine.memory, fuel).unwrap(),
        ),
{
    let code = emit_block(program, 0).code;
    crate::emit::lemma_block_marks_numbered(program, 0);
    assert(code.subrange(0, code.len() as int) =~= code);
    lemma_block_runs(code, 0, program, 0, machine, fuel)
}

} // verus!
