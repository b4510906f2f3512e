//! The code generator: lowers the syntax tree to stack-machine assembly for
//! 32-bit x86. Every value passes through `eax`; the right operand of a
//! binary operation or comparison waits on the stack while the left one is
//! computed.

use crate::ast::{boxed_views, node_views, ASTNode, NodeView, AST};
use crate::emit::{
    block_label_count, block_supported, condition_code, emit, emit_block, label_count,
    lemma_block_label_count_grows, lemma_block_labels_grow, lemma_block_labels_taken,
    lemma_block_supported_prefix, lemma_labels_taken, supported, Emitted,
};
use crate::instr::{arithmetic, escape, label_name, label_text, render, render_all, Instr, Label, LabelKind};
use crate::symbol_table::{EntryView, SymbolTable};
use crate::text::{decimal, decimal_text, join2, join3, same_text, texts};
use vstd::prelude::*;

verus! {

/// The routine that prints `eax` in base ten, followed by a newline.
pub open spec fn print_routine_text() -> Seq<char> {
    "print_eax:\n"@ + "push ecx\n"@ + "push edx\n"@ + "mov edi, buffer + 11\n"@
        + "mov byte [edi], 0\n"@ + "mov ebx, 10\n"@ + ".convert_loop:\n"@ + "dec edi\n"@
        + "xor edx, edx\n"@ + "div ebx\n"@ + "add dl, '0'\n"@ + "mov [edi], dl\n"@
        + "test eax, eax\n"@ + "jnz .convert_loop\n"@ + "mov eax, 4\n"@ + "mov ebx, 1\n"@
        + "mov ecx, edi\n"@ + "mov edx, buffer + 11\n"@ + "sub edx, edi\n"@ + "int 0x80\n"@
        + "mov eax, 4\n"@ + "mov ebx, 1\n"@ + "mov ecx, newline\n"@ + "mov edx, 1\n"@
        + "int 0x80\n"@ + "pop edx\n"@ + "pop ecx\n"@ + "ret\n"@
}

/// The data section: one zero-initialised cell for each scalar.
pub open spec fn data_lines(entries: Seq<EntryView>) -> Seq<Seq<char>>
    decreases entries.len(),
{
    if entries.len() == 0 {
        Seq::empty()
    } else {
        let before = data_lines(entries.drop_last());
        let entry = entries.last();
        if entry.is_scalar() {
            before.push(entry.name + " dd 0"@)
        } else {
            before
        }
    }
}

/// The reserved blocks of the arrays: one for each array, of its length.
pub open spec fn array_lines(entries: Seq<EntryView>) -> Seq<Seq<char>>
    decreases entries.len(),
{
    if entries.len() == 0 {
        Seq::empty()
    } else {
        let before = array_lines(entries.drop_last());
        let entry = entries.last();
        if !entry.is_scalar() && entry.is_array() {
            before.push(entry.name + " resd "@ + decimal_text(entry.array_size))
        } else {
            before
        }
    }
}

/// Every scalar of the table has its cell in the data section.
pub proof fn lemma_scalar_has_cell(entries: Seq<EntryView>, i: int)
    requires
        0 <= i < entries.len(),
        entries[i].is_scalar(),
    ensures
        data_lines(entries).contains(entries[i].name + " dd 0"@),
    decreases entries.len(),
{
    let before = data_lines(entries.drop_last());
    if i == entries.len() - 1 {
        assert(before.push(entries[i].name + " dd 0"@).last() == entries[i].name + " dd 0"@);
    } else {
        assert(entries.drop_last()[i] == entries[i]);
        lemma_scalar_has_cell(entries.drop_last(), i);
        let at = choose|at: int|
            0 <= at < before.len() && before[at] == entries[i].name + " dd 0"@;
        assert(data_lines(entries)[at] == before[at]);
    }
}

/// Every array of the table has its block, of the declared length, in the
/// uninitialised section.
pub proof fn lemma_array_has_block(entries: Seq<EntryView>, i: int)
    requires
        0 <= i < entries.len(),
        entries[i].is_array(),
        !entries[i].is_scalar(),
    ensures
        bss_lines(entries).contains(
            entries[i].name + " resd "@ + decimal_text(entries[i].array_size),
        ),
    decreases entries.len(),
{
    let line = entries[i].name + " resd "@ + decimal_text(entries[i].array_size);
    lemma_array_line(entries, i);
    let at = choose|at: int| 0 <= at < array_lines(entries).len() && array_lines(entries)[at] == line;
    assert(bss_lines(entries)[at] == line);
}

/// Every array of the table has its line among the lines of the arrays.
proof fn lemma_array_line(entries: Seq<EntryView>, i: int)
    requires
        0 <= i < entries.len(),
        entries[i].is_array(),
        !entries[i].is_scalar(),
    ensures
        array_lines(entries).contains(
            entries[i].name + " resd "@ + decimal_text(entries[i].array_size),
        ),
    decreases entries.len(),
{
    let line = entries[i].name + " resd "@ + decimal_text(entries[i].array_size);
    let before = array_lines(entries.drop_last());
    if i == entries.len() - 1 {
        assert(before.push(line).last() == line);
    } else {
        assert(entries.drop_last()[i] == entries[i]);
        lemma_array_line(entries.drop_last(), i);
        let at = choose|at: int| 0 <= at < before.len() && before[at] == line;
        assert(array_lines(entries)[at] == before[at]);
    }
}

/// The uninitialised section: the arrays, then the scratch buffer of the
/// print routine.
pub open spec fn bss_lines(entries: Seq<EntryView>) -> Seq<Seq<char>> {
    array_lines(entries).push("buffer resb 12"@)
}

/// The lines of a section as one text, each line ended by a newline.
pub open spec fn lines_text(lines: Seq<Seq<char>>) -> Seq<char>
    decreases lines.len(),
{
    if lines.len() == 0 {
        Seq::empty()
    } else {
        lines_text(lines.drop_last()) + lines.last() + "\n"@
    }
}

/// Why no code was generated.
#[derive(Debug, PartialEq, Eq, Structural, Clone, Copy)]
pub enum GenError {
    /// The tree holds a function definition, an end of definition or a
    /// call where the generator would reach it: there is no code for these.
    Unsupported,
    /// The tree needs more labels than the label counter can number.
    LabelOverflow,
}

/// The code generator: the program, the sections generated so far and the
/// number of labels taken.
pub struct Assembler {
    tree: AST,
    data_section: Vec<String>,
    bss_section: Vec<String>,
    functions: Vec<String>,
    start: Vec<String>,
    label_counter: usize,
}

/// The mathematical value of a generator.
pub struct AssemblerView {
    pub tree: Seq<NodeView>,
    pub data: Seq<Seq<char>>,
    pub bss: Seq<Seq<char>>,
    pub routines: Seq<Seq<char>>,
    pub code: Seq<Seq<char>>,
    pub labels: nat,
}

impl AssemblerView {
    /// The generator after it has emitted `emitted`.
    pub open spec fn after(self, emitted: Emitted) -> AssemblerView {
        AssemblerView {
            tree: self.tree,
            data: self.data,
            bss: self.bss,
            routines: if emitted.prints && self.routines.len() == 0 {
                seq![print_routine_text()]
            } else {
                self.routines
            },
            code: self.code + render_all(emitted.code),
            labels: self.labels + emitted.labels,
        }
    }

    /// The complete listing: data, uninitialised storage, the instruction
    /// stream under `_start`, the exit sequence and the routines.
    pub open spec fn listing(self) -> Seq<char> {
        "section .data\n"@ + lines_text(self.data) + "newline db 0xA\n"@ + "\nsection .bss\n"@
            + lines_text(self.bss) + "\nsection .text\n"@ + "global _start\n"@ + "\n_start:\n"@
            + lines_text(self.code) + "\nmov eax, 1\n"@ + "xor ebx, ebx\n"@ + "int 0x80\n"@
            + lines_text(self.routines)
    }
}

impl View for Assembler {
    type V = AssemblerView;

    closed spec fn view(&self) -> AssemblerView {
        AssemblerView {
            tree: self.tree@,
            data: texts(self.data_section@),
            bss: texts(self.bss_section@),
            routines: texts(self.functions@),
            code: texts(self.start@),
            labels: self.label_counter as nat,
        }
    }
}

/// The print routine.
fn print_routine() -> (routine: String)
    ensures
        routine@ == print_routine_text(),
{
    let mut routine = String::from_str("print_eax:\n");
    routine.append("push ecx\n");
    routine.append("push edx\n");
    routine.append("mov edi, buffer + 11\n");
    routine.append("mov byte [edi], 0\n");
    routine.append("mov ebx, 10\n");
    routine.append(".convert_loop:\n");
    routine.append("dec edi\n");
    routine.append("xor edx, edx\n");
    routine.append("div ebx\n");
    routine.append("add dl, '0'\n");
    routine.append("mov [edi], dl\n");
    routine.append("test eax, eax\n");
    routine.append("jnz .convert_loop\n");
    routine.append("mov eax, 4\n");
    routine.append("mov ebx, 1\n");
    routine.append("mov ecx, edi\n");
    routine.append("mov edx, buffer + 11\n");
    routine.append("sub edx, edi\n");
    routine.append("int 0x80\n");
    routine.append("mov eax, 4\n");
    routine.append("mov ebx, 1\n");
    routine.append("mov ecx, newline\n");
    routine.append("mov edx, 1\n");
    routine.append("int 0x80\n");
    routine.append("pop edx\n");
    routine.append("pop ecx\n");
    routine.append("ret\n");
    routine
}

/// Appends to `text` each of `lines`, ended by a newline.
fn append_lines(text: &mut String, lines: &Vec<String>)
    ensures
        final(text)@ == old(text)@ + lines_text(texts(lines@)),
{
    let mut i: usize = 0;
    assert(texts(lines@).take(0) =~= Seq::<Seq<char>>::empty());
    while i < lines.len()
        invariant
            i <= lines.len(),
            text@ == old(text)@ + lines_text(texts(lines@).take(i as int)),
        decreases lines.len() - i,
    {
        proof {
            let all = texts(lines@);
            assert(all.take(i + 1).drop_last() =~= all.take(i as int));
            assert(all.take(i + 1).last() == lines@[i as int]@);
        }
        text.append(lines[i].as_str());
        text.append("\n");
        i += 1;
    }
    assert(texts(lines@).take(i as int) =~= texts(lines@));
}

impl Assembler {
    /// A generator for `tree`, with the storage declarations of the symbols
    /// in `symbol_table`. Leaves the table at the outermost level.
    pub fn new(tree: AST, symbol_table: &mut SymbolTable) -> (assembler: Self)
        ensures
            assembler@.tree == tree@,
            assembler@.data == data_lines(old(symbol_table)@.entries),
            assembler@.bss == bss_lines(old(symbol_table)@.entries),
            assembler@.routines == Seq::<Seq<char>>::empty(),
            assembler@.code == Seq::<Seq<char>>::empty(),
            assembler@.labels == 0,
            final(symbol_table)@ == old(symbol_table)@.at_top(),
    {
        let mut ds: Vec<String> = Vec::new();
        let mut bss: Vec<String> = Vec::new();
        let mut i: usize = 0;
        let ghost entries = symbol_table@.entries;
        assert(entries.take(0) =~= Seq::<EntryView>::empty());
        while i < symbol_table.len()
            invariant
                i <= symbol_table@.entries.len(),
                symbol_table@.entries == entries,
                texts(ds@) == data_lines(entries.take(i as int)),
                texts(bss@) == array_lines(entries.take(i as int)),
            decreases symbol_table@.entries.len() - i,
        {
            let symbol = symbol_table.entry(i);
            proof {
                assert(entries.take(i + 1).drop_last() =~= entries.take(i as int));
                assert(entries.take(i + 1).last() == entries[i as int]);
            }
            if same_text(symbol.kind().as_str(), "int") {
                let line = join2(symbol.name().as_str(), " dd 0");
                ds.push(line);
                assert(texts(ds@) =~= data_lines(entries.take(i as int)).push(line@));
            } else if same_text(symbol.kind().as_str(), "arr") {
                let size = decimal(symbol.length() as usize);
                let line = join3(symbol.name().as_str(), " resd ", size.as_str());
                bss.push(line);
                assert(texts(bss@) =~= array_lines(entries.take(i as int)).push(line@));
            }
            i += 1;
        }
        assert(entries.take(i as int) =~= entries);
        let buffer = String::from_str("buffer resb 12");
        bss.push(buffer);
        assert(texts(bss@) =~= array_lines(entries).push(buffer@));
        symbol_table.reset_level();
        let assembler = Assembler {
            tree,
            data_section: ds,
            bss_section: bss,
            functions: Vec::new(),
            start: Vec::new(),
            label_counter: 0,
        };
        assert(assembler@.routines =~= Seq::<Seq<char>>::empty());
        assert(assembler@.code =~= Seq::<Seq<char>>::empty());
        assembler
    }

    /// The complete listing as one text.
    pub fn listing(&self) -> (text: String)
        ensures
            text@ == self@.listing(),
    {
        let mut text = String::from_str("section .data\n");
        append_lines(&mut text, &self.data_section);
        text.append("newline db 0xA\n");
        text.append("\nsection .bss\n");
        append_lines(&mut text, &self.bss_section);
        text.append("\nsection .text\n");
        text.append("global _start\n");
        text.append("\n_start:\n");
        append_lines(&mut text, &self.start);
        text.append("\nmov eax, 1\n");
        text.append("xor ebx, ebx\n");
        text.append("int 0x80\n");
        append_lines(&mut text, &self.functions);
        text
    }

    /// The data section, one declaration per line.
    pub fn data_section(&self) -> (lines: &Vec<String>)
        ensures
            texts(lines@) == self@.data,
    {
        &self.data_section
    }

    /// The uninitialised section, one reservation per line.
    pub fn bss_section(&self) -> (lines: &Vec<String>)
        ensures
            texts(lines@) == self@.bss,
    {
        &self.bss_section
    }

    /// The instruction stream generated so far, one instruction per line.
    pub fn instructions(&self) -> (lines: &Vec<String>)
        ensures
            texts(lines@) == self@.code,
    {
        &self.start
    }

    /// The routines generated so far.
    pub fn routines(&self) -> (routines: &Vec<String>)
        ensures
            texts(routines@) == self@.routines,
    {
        &self.functions
    }

    /// The number of labels taken so far.
    pub fn labels_taken(&self) -> (count: usize)
        ensures
            count == self@.labels,
    {
        self.label_counter
    }
}

/// Whether `routines` holds the print routine once, or nothing.
pub open spec fn at_most_print_routine(routines: Seq<Seq<char>>) -> bool {
    routines.len() == 0 || routines == seq![print_routine_text()]
}

/// However often the emitted code prints, the generator holds the print
/// routine once afterwards; and it holds it only if it did before or the
/// emitted code prints.
pub proof fn lemma_print_routine_once(view: AssemblerView, emitted: Emitted)
    requires
        at_most_print_routine(view.routines),
    ensures
        at_most_print_routine(view.after(emitted).routines),
        emitted.prints ==> view.after(emitted).routines == seq![print_routine_text()],
        !emitted.prints ==> view.after(emitted).routines == view.routines,
{
}

/// Emitting one thing after another is emitting the two in sequence.
pub proof fn lemma_after_chain(view: AssemblerView, first: Emitted, second: Emitted)
    ensures
        view.after(first).after(second) == view.after(first.followed_by(second)),
{
    assert(view.after(first).after(second).code =~= view.after(
        first.followed_by(second),
    ).code);
}

/// Emitting nothing changes nothing.
pub proof fn lemma_after_nothing(view: AssemblerView)
    ensures
        view.after(Emitted::nothing()) == view,
{
    assert(view.after(Emitted::nothing()).code =~= view.code);
}

impl Assembler {
    /// Appends the line of one instruction to the instruction stream.
    fn put(&mut self, line: String, Ghost(instr): Ghost<Instr>)
        requires
            line@ == render(instr),
        ensures
            final(self)@ == old(self)@.after(Emitted::only(seq![instr])),
    {
        self.start.push(line);
        assert(self@.code =~= old(self)@.code + render_all(seq![instr]));
    }

    /// Appends the fixed line of one instruction to the instruction stream.
    fn put_str(&mut self, line: &str, Ghost(instr): Ghost<Instr>)
        requires
            line@ == render(instr),
        ensures
            final(self)@ == old(self)@.after(Emitted::only(seq![instr])),
    {
        self.put(String::from_str(line), Ghost(instr));
    }

    /// Takes the next label with the stem `base`.
    pub fn new_label(&mut self, base: &str) -> (label: String)
        requires
            old(self)@.labels < usize::MAX,
        ensures
            label@ == label_name(base@, old(self)@.labels),
            final(self)@ == old(self)@.after(Emitted::label()),
    {
        let number = decimal(self.label_counter);
        let label = join3(base, "_", number.as_str());
        self.label_counter += 1;
        assert(self@.code =~= old(self)@.code + render_all(Emitted::label().code));
        label
    }

    /// Passes over `count` label numbers, or over all that are left if
    /// there are fewer: the labels taken from now on do not collide with
    /// labels of those numbers in code from elsewhere.
    pub fn reserve_labels(&mut self, count: usize)
        ensures
            final(self)@ == (AssemblerView {
                labels: if old(self)@.labels + count <= usize::MAX {
                    (old(self)@.labels + count) as nat
                } else {
                    usize::MAX as nat
                },
                ..old(self)@
            }),
    {
        if count > usize::MAX - self.label_counter {
            self.label_counter = usize::MAX;
        } else {
            self.label_counter += count;
        }
    }

    /// Appends the instructions that combine the operands under `op`.
    fn put_arithmetic(&mut self, op: &String)
        ensures
            final(self)@ == old(self)@.after(Emitted::only(arithmetic(op@))),
    {
        let ghost before = self@;
        if same_text(op.as_str(), "+") {
            self.put_str("add eax, ebx", Ghost(Instr::Add));
        } else if same_text(op.as_str(), "-") {
            self.put_str("sub eax, ebx", Ghost(Instr::Sub));
        } else if same_text(op.as_str(), "*") {
            self.put_str("imul eax, ebx", Ghost(Instr::Mul));
        } else if same_text(op.as_str(), "/") {
            self.put_str("mov edx, 0", Ghost(Instr::ClearHigh));
            self.put_str("div ebx", Ghost(Instr::Div));
        } else if same_text(op.as_str(), "%") {
            self.put_str("mov edx, 0", Ghost(Instr::ClearHigh));
            self.put_str("div ebx", Ghost(Instr::Div));
            self.put_str("mov eax, edx", Ghost(Instr::TakeRemainder));
        } else {
            self.put_str("; Unknown binary operator", Ghost(Instr::UnknownOperator));
        }
        assert(self@.code =~= before.code + render_all(arithmetic(op@)));
    }

    /// Appends the jump that leaves a block guarded by `op` for the label
    /// named `target`.
    fn put_escape(&mut self, op: &String, target: &String, Ghost(label): Ghost<Label>)
        requires
            target@ == label_text(label),
        ensures
            final(self)@ == old(self)@.after(Emitted::only(seq![escape(op@, label)])),
    {
        let ghost instr = escape(op@, label);
        if same_text(op.as_str(), "==") {
            self.put(join2("jne ", target.as_str()), Ghost(instr));
        } else if same_text(op.as_str(), "=!") {
            self.put(join2("je ", target.as_str()), Ghost(instr));
        } else if same_text(op.as_str(), "<") {
            self.put(join2("jge ", target.as_str()), Ghost(instr));
        } else if same_text(op.as_str(), ">") {
            self.put(join2("jle ", target.as_str()), Ghost(instr));
        } else if same_text(op.as_str(), "=<") {
            self.put(join2("jg ", target.as_str()), Ghost(instr));
        } else if same_text(op.as_str(), "=>") {
            self.put(join2("jl ", target.as_str()), Ghost(instr));
        } else {
            self.put_str("; Unknown comparison", Ghost(instr));
        }
    }

    /// Generates the code that compares the two halves of the condition of
    /// an `if` or `while` header.
    fn emit_comparison(&mut self, node: &ASTNode) -> (operands: Ghost<Emitted>)
        requires
            node is IfOperation || node is WhileOperation,
            old(self)@.labels + condition_code(node@, old(self)@.labels).labels <= usize::MAX,
        ensures
            operands@ == condition_code(node@, old(self)@.labels),
            final(self)@ == old(self)@.after(operands@),
        decreases node, 0nat,
    {
        let ghost before = self@;
        let (left, right) = match node {
            ASTNode::IfOperation { first_half, second_half, .. } => (first_half, second_half),
            ASTNode::WhileOperation { first_half, second_half, .. } => (first_half, second_half),
            _ => { return Ghost(Emitted::nothing()); },
        };
        self.emit_node(right);
        let ghost mut acc = emit(right@, before.labels);
        self.put_str("push eax", Ghost(Instr::Push));
        proof {
            lemma_after_chain(before, acc, Emitted::only(seq![Instr::Push]));
            acc = acc.plus(seq![Instr::Push]);
        }
        self.emit_node(left);
        proof {
            let lhs = emit(left@, before.labels + emit(right@, before.labels).labels);
            lemma_after_chain(before, acc, lhs);
            acc = acc.followed_by(lhs);
        }
        self.put_str("pop ebx", Ghost(Instr::Pop));
        proof {
            lemma_after_chain(before, acc, Emitted::only(seq![Instr::Pop]));
            acc = acc.plus(seq![Instr::Pop]);
        }
        self.put_str("cmp eax, ebx", Ghost(Instr::Compare));
        proof {
            lemma_after_chain(before, acc, Emitted::only(seq![Instr::Compare]));
            acc = acc.plus(seq![Instr::Compare]);
        }
        Ghost(acc)
    }

    /// Generates the code of `node`.
    fn emit_node(&mut self, node: &ASTNode)
        requires
            old(self)@.labels + emit(node@, old(self)@.labels).labels <= usize::MAX,
        ensures
            final(self)@ == old(self)@.after(emit(node@, old(self)@.labels)),
        decreases node, 2nat,
    {
        let ghost before = self@;
        let ghost next = self@.labels;
        match node {
            ASTNode::Assignment { var_name, expr } => {
                self.emit_node(expr);
                let ghost store = Instr::StoreVariable(var_name@);
                self.put(join3("mov [", var_name.as_str(), "], eax"), Ghost(store));
                proof {
                    lemma_after_chain(before, emit(expr@, next), Emitted::only(seq![store]));
                }
            },
            ASTNode::ArrayAssignment { arr_name, position, value } => {
                self.emit_array_assignment(node);
            },
            ASTNode::BinaryOperation { op, left, right } => {
                self.emit_binary(node);
            },
            ASTNode::Literal(value) => {
                self.put(
                    join2("mov eax, ", value.as_str()),
                    Ghost(Instr::LoadLiteral(value@)),
                );
            },
            ASTNode::Variable(name) => {
                self.put(
                    join3("mov eax, [", name.as_str(), "]"),
                    Ghost(Instr::LoadVariable(name@)),
                );
            },
            ASTNode::IfOperation { first_half, comparison_op, second_half, content } => {
                self.emit_if(node);
            },
            ASTNode::WhileOperation { first_half, comparison_op, second_half, content } => {
                self.emit_while(node);
            },
            ASTNode::Print(expr) => {
                self.emit_node(expr);
                let ghost mid = self@;
                self.start.push(String::from_str("call print_eax"));
                if self.functions.len() == 0 {
                    let routine = print_routine();
                    self.functions.push(routine);
                    assert(self@.routines =~= seq![print_routine_text()]);
                }
                proof {
                    assert(self@.code =~= mid.code + render_all(Emitted::print().code));
                    assert(self@ == mid.after(Emitted::print()));
                    lemma_after_chain(before, emit(expr@, next), Emitted::print());
                }
            },
            ASTNode::Array { arr_name, index } => {
                self.emit_node(index);
                let ghost mut acc = emit(index@, next);
                let ghost address = Instr::LoadAddress(arr_name@);
                self.put(join3("lea esi, [", arr_name.as_str(), "]"), Ghost(address));
                proof {
                    lemma_after_chain(before, acc, Emitted::only(seq![address]));
                    acc = acc.plus(seq![address]);
                }
                self.put_str("mov eax, [esi + eax*4]", Ghost(Instr::LoadElement));
                proof {
                    lemma_after_chain(before, acc, Emitted::only(seq![Instr::LoadElement]));
                }
            },
            ASTNode::Error => {
                self.put_str("; Error node encountered", Ghost(Instr::ErrorMarker));
            },
            _ => {
                proof {
                    lemma_after_nothing(before);
                }
            },
        }
    }

    /// Generates the code of an array assignment.
    fn emit_array_assignment(&mut self, node: &ASTNode)
        requires
            node is ArrayAssignment,
            old(self)@.labels + emit(node@, old(self)@.labels).labels <= usize::MAX,
        ensures
            final(self)@ == old(self)@.after(emit(node@, old(self)@.labels)),
        decreases node, 1nat,
    {
        let ghost before = self@;
        let ghost next = self@.labels;
        if let ASTNode::ArrayAssignment { arr_name, position, value } = node {
            let ghost address = Instr::LoadAddress(arr_name@);
            self.put(join3("lea esi, [", arr_name.as_str(), "]"), Ghost(address));
            let ghost mut acc = Emitted::only(seq![address]);
            self.emit_node(position);
            proof {
                let at = emit(position@, next);
                lemma_after_chain(before, acc, at);
                acc = acc.followed_by(at);
            }
            self.put_str("mov ecx, eax", Ghost(Instr::SaveIndex));
            proof {
                lemma_after_chain(before, acc, Emitted::only(seq![Instr::SaveIndex]));
                acc = acc.plus(seq![Instr::SaveIndex]);
            }
            self.emit_node(value);
            proof {
                let what = emit(value@, next + emit(position@, next).labels);
                lemma_after_chain(before, acc, what);
                acc = acc.followed_by(what);
            }
            self.put_str("mov [esi + ecx*4], eax", Ghost(Instr::StoreElement));
            proof {
                lemma_after_chain(before, acc, Emitted::only(seq![Instr::StoreElement]));
            }
        }
    }

    /// Generates the code of a binary operation.
    fn emit_binary(&mut self, node: &ASTNode)
        requires
            node is BinaryOperation,
            old(self)@.labels + emit(node@, old(self)@.labels).labels <= usize::MAX,
        ensures
            final(self)@ == old(self)@.after(emit(node@, old(self)@.labels)),
        decreases node, 1nat,
    {
        let ghost before = self@;
        let ghost next = self@.labels;
        if let ASTNode::BinaryOperation { op, left, right } = node {
            self.emit_node(right);
            let ghost mut acc = emit(right@, next);
            self.put_str("push eax", Ghost(Instr::Push));
            proof {
                lemma_after_chain(before, acc, Emitted::only(seq![Instr::Push]));
                acc = acc.plus(seq![Instr::Push]);
            }
            self.emit_node(left);
            proof {
                let lhs = emit(left@, next + emit(right@, next).labels);
                lemma_after_chain(before, acc, lhs);
                acc = acc.followed_by(lhs);
            }
            self.put_str("pop ebx", Ghost(Instr::Pop));
            proof {
                lemma_after_chain(before, acc, Emitted::only(seq![Instr::Pop]));
                acc = acc.plus(seq![Instr::Pop]);
            }
            self.put_arithmetic(op);
            proof {
                lemma_after_chain(before, acc, Emitted::only(arithmetic(op@)));
            }
        }
    }

    /// Generates the code of an `if` block.
    fn emit_if(&mut self, node: &ASTNode)
        requires
            node is IfOperation,
            old(self)@.labels + emit(node@, old(self)@.labels).labels <= usize::MAX,
        ensures
            final(self)@ == old(self)@.after(emit(node@, old(self)@.labels)),
        decreases node, 1nat,
    {
        let ghost before = self@;
        let ghost next = self@.labels;
        if let ASTNode::IfOperation { first_half, comparison_op, second_half, content } = node {
            proof {
                assert(node@->IfOperation_content =~= boxed_views(content@));
            }
            let operands = self.emit_comparison(node);
            let ghost mut acc = operands@;
            let ghost end = Label { kind: LabelKind::EndIf, id: next + acc.labels };
            let endif_label = self.new_label("endif");
            proof {
                lemma_after_chain(before, acc, Emitted::label());
                acc = acc.followed_by(Emitted::label());
            }
            self.put_escape(comparison_op, &endif_label, Ghost(end));
            proof {
                let jump = Emitted::only(seq![escape(comparison_op@, end)]);
                lemma_after_chain(before, acc, jump);
                acc = acc.followed_by(jump);
            }
            self.emit_block(content);
            proof {
                let body = emit_block(boxed_views(content@), next + operands@.labels + 1);
                lemma_after_chain(before, acc, body);
                acc = acc.followed_by(body);
            }
            self.put(join2(endif_label.as_str(), ":"), Ghost(Instr::Mark(end)));
            proof {
                lemma_after_chain(before, acc, Emitted::only(seq![Instr::Mark(end)]));
            }
        }
    }

    /// Generates the code of a `while` block.
    fn emit_while(&mut self, node: &ASTNode)
        requires
            node is WhileOperation,
            old(self)@.labels + emit(node@, old(self)@.labels).labels <= usize::MAX,
        ensures
            final(self)@ == old(self)@.after(emit(node@, old(self)@.labels)),
        decreases node, 1nat,
    {
        let ghost before = self@;
        let ghost next = self@.labels;
        if let ASTNode::WhileOperation { first_half, comparison_op, second_half, content } = node {
            proof {
                assert(node@->WhileOperation_content =~= boxed_views(content@));
            }
            let ghost start = Label { kind: LabelKind::WhileStart, id: next };
            let ghost end = Label { kind: LabelKind::WhileEnd, id: next + 1 };
            let start_label = self.new_label("while_start");
            let ghost mut acc = Emitted::label();
            let end_label = self.new_label("while_end");
            proof {
                lemma_after_chain(before, acc, Emitted::label());
                acc = acc.followed_by(Emitted::label());
            }
            self.put(join2(start_label.as_str(), ":"), Ghost(Instr::Mark(start)));
            proof {
                lemma_after_chain(before, acc, Emitted::only(seq![Instr::Mark(start)]));
                acc = acc.plus(seq![Instr::Mark(start)]);
            }
            let operands = self.emit_comparison(node);
            proof {
                lemma_after_chain(before, acc, operands@);
                acc = acc.followed_by(operands@);
            }
            self.put_escape(comparison_op, &end_label, Ghost(end));
            proof {
                let jump = Emitted::only(seq![escape(comparison_op@, end)]);
                lemma_after_chain(before, acc, jump);
                acc = acc.followed_by(jump);
            }
            self.emit_block(content);
            proof {
                let body = emit_block(boxed_views(content@), next + 2 + operands@.labels);
                lemma_after_chain(before, acc, body);
                acc = acc.followed_by(body);
            }
            self.put(join2("jmp ", start_label.as_str()), Ghost(Instr::Jump(start)));
            proof {
                lemma_after_chain(before, acc, Emitted::only(seq![Instr::Jump(start)]));
                acc = acc.plus(seq![Instr::Jump(start)]);
            }
            self.put(join2(end_label.as_str(), ":"), Ghost(Instr::Mark(end)));
            proof {
                lemma_after_chain(before, acc, Emitted::only(seq![Instr::Mark(end)]));
            }
        }
    }

    /// Generates the code of the statements of a block, in order.
    fn emit_block(&mut self, block: &Vec<Box<ASTNode>>)
        requires
            old(self)@.labels + emit_block(boxed_views(block@), old(self)@.labels).labels
                <= usize::MAX,
        ensures
            final(self)@ == old(self)@.after(
                emit_block(boxed_views(block@), old(self)@.labels),
            ),
        decreases block,
    {
        let ghost before = self@;
        let ghost next = self@.labels;
        let ghost nodes = boxed_views(block@);
        let mut i: usize = 0;
        proof {
            assert(nodes.take(0) =~= Seq::<NodeView>::empty());
            lemma_after_nothing(before);
        }
        while i < block.len()
            invariant
                i <= block.len(),
                nodes == boxed_views(block@),
                next == before.labels,
                before.labels + emit_block(nodes, next).labels <= usize::MAX,
                self@ == before.after(emit_block(nodes.take(i as int), next)),
            decreases block.len() - i,
        {
            let ghost done = emit_block(nodes.take(i as int), next);
            proof {
                assert(nodes.take(i + 1).drop_last() =~= nodes.take(i as int));
                assert(nodes.take(i + 1).last() == block@[i as int]@);
                lemma_block_labels_grow(nodes, i + 1, next);
            }
            self.emit_node(&block[i]);
            proof {
                lemma_after_chain(before, done, emit(block@[i as int]@, next + done.labels));
            }
            i += 1;
        }
        assert(nodes.take(i as int) =~= nodes);
    }
}

/// The sum of two label counts, if it can be numbered.
fn add_counts(a: Option<usize>, b: Option<usize>) -> (sum: Option<usize>)
    ensures
        match sum {
            Some(n) => a.is_some() && b.is_some() && n == a.unwrap() + b.unwrap(),
            None => a.is_none() || b.is_none() || a.unwrap() + b.unwrap() > usize::MAX,
        },
{
    match (a, b) {
        (Some(x), Some(y)) => if x > usize::MAX - y {
            None
        } else {
            Some(x + y)
        },
        _ => None,
    }
}

impl Assembler {
    /// Whether the generator can lower `node`.
    pub fn is_supported(node: &ASTNode) -> (yes: bool)
        ensures
            yes == supported(node@),
        decreases node,
    {
        match node {
            ASTNode::Assignment { var_name: _, expr } => Self::is_supported(expr),
            ASTNode::ArrayAssignment { arr_name: _, position, value } => Self::is_supported(
                position,
            ) && Self::is_supported(value),
            ASTNode::BinaryOperation { op: _, left, right } => Self::is_supported(left)
                && Self::is_supported(right),
            ASTNode::IfOperation { first_half, comparison_op: _, second_half, content } => {
                proof {
                    assert(node@->IfOperation_content =~= boxed_views(content@));
                }
                Self::is_supported(first_half) && Self::is_supported(second_half)
                    && Self::is_block_supported(content)
            },
            ASTNode::WhileOperation { first_half, comparison_op: _, second_half, content } => {
                proof {
                    assert(node@->WhileOperation_content =~= boxed_views(content@));
                }
                Self::is_supported(first_half) && Self::is_supported(second_half)
                    && Self::is_block_supported(content)
            },
            ASTNode::Print(expr) => Self::is_supported(expr),
            ASTNode::Array { arr_name: _, index } => Self::is_supported(index),
            ASTNode::FunctionDef { .. } => false,
            ASTNode::EndFunctionDef => false,
            ASTNode::FuntionCall { .. } => false,
            _ => true,
        }
    }

    /// Whether the generator can lower every statement of `block`.
    pub fn is_block_supported(block: &Vec<Box<ASTNode>>) -> (yes: bool)
        ensures
            yes == block_supported(boxed_views(block@)),
        decreases block,
    {
        let ghost nodes = boxed_views(block@);
        let mut i: usize = 0;
        assert(nodes.take(0) =~= Seq::<NodeView>::empty());
        while i < block.len()
            invariant
                i <= block.len(),
                nodes == boxed_views(block@),
                block_supported(nodes.take(i as int)),
            decreases block.len() - i,
        {
            proof {
                assert(nodes.take(i + 1).drop_last() =~= nodes.take(i as int));
                assert(nodes.take(i + 1).last() == block@[i as int]@);
            }
            if !Self::is_supported(&block[i]) {
                proof {
                    lemma_block_supported_prefix(nodes, i + 1);
                }
                return false;
            }
            i += 1;
        }
        assert(nodes.take(i as int) =~= nodes);
        true
    }

    /// The number of labels that generating `node` takes, if it can be
    /// numbered.
    pub fn count_labels(node: &ASTNode) -> (count: Option<usize>)
        ensures
            match count {
                Some(n) => n == label_count(node@),
                None => label_count(node@) > usize::MAX,
            },
        decreases node,
    {
        match node {
            ASTNode::Assignment { var_name: _, expr } => Self::count_labels(expr),
            ASTNode::ArrayAssignment { arr_name: _, position, value } => add_counts(
                Self::count_labels(position),
                Self::count_labels(value),
            ),
            ASTNode::BinaryOperation { op: _, left, right } => add_counts(
                Self::count_labels(right),
                Self::count_labels(left),
            ),
            ASTNode::IfOperation { first_half, comparison_op: _, second_half, content } => {
                proof {
                    assert(node@->IfOperation_content =~= boxed_views(content@));
                }
                let halves = add_counts(
                    Self::count_labels(second_half),
                    Self::count_labels(first_half),
                );
                add_counts(add_counts(halves, Some(1)), Self::count_block_labels(content))
            },
            ASTNode::WhileOperation { first_half, comparison_op: _, second_half, content } => {
                proof {
                    assert(node@->WhileOperation_content =~= boxed_views(content@));
                }
                let halves = add_counts(
                    Self::count_labels(second_half),
                    Self::count_labels(first_half),
                );
                add_counts(add_counts(Some(2), halves), Self::count_block_labels(content))
            },
            ASTNode::Print(expr) => Self::count_labels(expr),
            ASTNode::Array { arr_name: _, index } => Self::count_labels(index),
            _ => Some(0),
        }
    }

    /// The number of labels that generating `block` takes, if it can be
    /// numbered.
    pub fn count_block_labels(block: &Vec<Box<ASTNode>>) -> (count: Option<usize>)
        ensures
            match count {
                Some(n) => n == block_label_count(boxed_views(block@)),
                None => block_label_count(boxed_views(block@)) > usize::MAX,
            },
        decreases block,
    {
        let ghost nodes = boxed_views(block@);
        let mut total: usize = 0;
        let mut i: usize = 0;
        assert(nodes.take(0) =~= Seq::<NodeView>::empty());
        while i < block.len()
            invariant
                i <= block.len(),
                nodes == boxed_views(block@),
                total == block_label_count(nodes.take(i as int)),
            decreases block.len() - i,
        {
            proof {
                assert(nodes.take(i + 1).drop_last() =~= nodes.take(i as int));
                assert(nodes.take(i + 1).last() == block@[i as int]@);
                lemma_block_label_count_grows(nodes, i + 1);
            }
            match add_counts(Some(total), Self::count_labels(&block[i])) {
                Some(sum) => {
                    total = sum;
                },
                None => {
                    return None;
                },
            }
            i += 1;
        }
        assert(nodes.take(i as int) =~= nodes);
        Some(total)
    }

    /// Generates the code of `node`, or nothing at all if the node cannot
    /// be lowered.
    pub fn generate_node(&mut self, node: &ASTNode) -> (done: Result<(), GenError>)
        ensures
            match done {
                Ok(_) => {
                    &&& supported(node@)
                    &&& old(self)@.labels + label_count(node@) <= usize::MAX
                    &&& final(self)@ == old(self)@.after(emit(node@, old(self)@.labels))
                },
                Err(GenError::Unsupported) => !supported(node@) && final(self)@ == old(self)@,
                Err(GenError::LabelOverflow) => {
                    &&& supported(node@)
                    &&& old(self)@.labels + label_count(node@) > usize::MAX
                    &&& final(self)@ == old(self)@
                },
            },
    {
        if !Self::is_supported(node) {
            return Err(GenError::Unsupported);
        }
        match add_counts(Some(self.label_counter), Self::count_labels(node)) {
            Some(_) => {
                proof {
                    lemma_labels_taken(node@, self@.labels);
                }
                self.emit_node(node);
                Ok(())
            },
            None => Err(GenError::LabelOverflow),
        }
    }

    /// Generates the code of the whole program, or nothing at all if some
    /// statement cannot be lowered.
    pub fn generate(&mut self) -> (done: Result<(), GenError>)
        ensures
            match done {
                Ok(_) => {
                    &&& block_supported(old(self)@.tree)
                    &&& old(self)@.labels + block_label_count(old(self)@.tree) <= usize::MAX
                    &&& final(self)@ == old(self)@.after(
                        emit_block(old(self)@.tree, old(self)@.labels),
                    )
                },
                Err(GenError::Unsupported) => {
                    !block_supported(old(self)@.tree) && final(self)@ == old(self)@
                },
                Err(GenError::LabelOverflow) => {
                    &&& block_supported(old(self)@.tree)
                    &&& old(self)@.labels + block_label_count(old(self)@.tree) > usize::MAX
                    &&& final(self)@ == old(self)@
                },
            },
    {
        let nodes = self.tree.get_nodes();
        let ghost tree = self@.tree;
        let ghost before = self@;
        let ghost next = self@.labels;
        let mut i: usize = 0;
        assert(tree.take(0) =~= Seq::<NodeView>::empty());
        while i < nodes.len()
            invariant
                i <= nodes.len(),
                node_views(nodes@) == tree,
                self@ == before,
                tree == before.tree,
                block_supported(tree.take(i as int)),
            decreases nodes.len() - i,
        {
            proof {
                assert(tree.take(i + 1).drop_last() =~= tree.take(i as int));
                assert(tree.take(i + 1).last() == nodes@[i as int]@);
            }
            if !Self::is_supported(&nodes[i]) {
                proof {
                    lemma_block_supported_prefix(tree, i + 1);
                }
                return Err(GenError::Unsupported);
            }
            i += 1;
        }
        assert(tree.take(i as int) =~= tree);
        let mut total: usize = self.label_counter;
        i = 0;
        while i < nodes.len()
            invariant
                i <= nodes.len(),
                node_views(nodes@) == tree,
                self@ == before,
                tree == before.tree,
                block_supported(tree),
                next == before.labels,
                total == next + block_label_count(tree.take(i as int)),
            decreases nodes.len() - i,
        {
            proof {
                assert(tree.take(i + 1).drop_last() =~= tree.take(i as int));
                assert(tree.take(i + 1).last() == nodes@[i as int]@);
                lemma_block_label_count_grows(tree, i + 1);
            }
            match add_counts(Some(total), Self::count_labels(&nodes[i])) {
                Some(sum) => {
                    total = sum;
                },
                None => {
                    return Err(GenError::LabelOverflow);
                },
            }
            i += 1;
        }
        assert(tree.take(i as int) =~= tree);
        i = 0;
        proof {
            lemma_after_nothing(before);
            lemma_block_labels_taken(tree, next);
        }
        while i < nodes.len()
            invariant
                i <= nodes.len(),
                node_views(nodes@) == tree,
                next == before.labels,
                before.labels + emit_block(tree, next).labels <= usize::MAX,
                self@ == before.after(emit_block(tree.take(i as int), next)),
            decreases nodes.len() - i,
        {
            let ghost done = emit_block(tree.take(i as int), next);
            proof {
                assert(tree.take(i + 1).drop_last() =~= tree.take(i as int));
                assert(tree.take(i + 1).last() == nodes@[i as int]@);
                lemma_block_labels_grow(tree, i + 1, next);
            }
            self.emit_node(&nodes[i]);
            proof {
                lemma_after_chain(before, done, emit(nodes@[i as int]@, next + done.labels));
            }
            i += 1;
        }
        assert(tree.take(i as int) =~= tree);
        Ok(())
    }
}

} // verus!
