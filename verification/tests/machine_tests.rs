//! Runs generated listings on a small model of the target machine and
//! looks at what they print.

use idk::assembler::Assembler;
use idk::ast::{ASTNode, AST};
use idk::compiler::compile;
use idk::symbol_table::SymbolTable;
use std::collections::HashMap;

/// A model of the part of a 32-bit x86 machine that the listings use.
struct Machine {
    registers: HashMap<String, u32>,
    memory: HashMap<u32, u8>,
    symbols: HashMap<String, u32>,
    stack: Vec<u32>,
    code: Vec<String>,
    labels: HashMap<String, usize>,
    compared: (u32, u32),
    zero: bool,
    output: Vec<u8>,
    steps: usize,
}

enum Place {
    Register(String),
    Low(String),
    Dword(u32),
    Byte(u32),
    Value(u32),
}

impl Machine {
    fn load(listing: &str) -> Machine {
        let mut machine = Machine {
            registers: HashMap::new(),
            memory: HashMap::new(),
            symbols: HashMap::new(),
            stack: Vec::new(),
            code: Vec::new(),
            labels: HashMap::new(),
            compared: (0, 0),
            zero: false,
            output: Vec::new(),
            steps: 0,
        };
        for name in ["eax", "ebx", "ecx", "edx", "esi", "edi"] {
            machine.registers.insert(name.to_string(), 0xdead_0000);
        }
        let mut next_address: u32 = 0x1000;
        let mut section = "";
        for line in listing.lines() {
            let line = line.trim();
            if line.is_empty() {
                continue;
            }
            if let Some(name) = line.strip_prefix("section ") {
                section = match name {
                    ".data" => "data",
                    ".bss" => "bss",
                    ".text" => "text",
                    other => panic!("unknown section {}", other),
                };
                continue;
            }
            match section {
                "data" | "bss" => {
                    let parts: Vec<&str> = line.split_whitespace().collect();
                    assert_eq!(parts.len(), 3, "declaration {:?}", line);
                    let (size, fill): (u32, Vec<u8>) = match parts[1] {
                        "dd" => (4, Machine::number(parts[2]).to_le_bytes().to_vec()),
                        "db" => (1, vec![Machine::number(parts[2]) as u8]),
                        "resd" => (4 * Machine::number(parts[2]), Vec::new()),
                        "resb" => (Machine::number(parts[2]), Vec::new()),
                        other => panic!("unknown directive {}", other),
                    };
                    assert!(
                        machine.symbols.insert(parts[0].to_string(), next_address).is_none(),
                        "{} is declared twice",
                        parts[0]
                    );
                    for (i, byte) in fill.iter().enumerate() {
                        machine.memory.insert(next_address + i as u32, *byte);
                    }
                    next_address += size + 16;
                }
                "text" => {
                    if line.starts_with("global ") {
                        continue;
                    }
                    if let Some(label) = line.strip_suffix(':') {
                        assert!(
                            machine.labels.insert(label.to_string(), machine.code.len()).is_none(),
                            "label {} is defined twice",
                            label
                        );
                    } else {
                        machine.code.push(line.to_string());
                    }
                }
                _ => panic!("line outside a section: {:?}", line),
            }
        }
        machine
    }

    fn number(text: &str) -> u32 {
        if let Some(hex) = text.strip_prefix("0x") {
            u32::from_str_radix(hex, 16).expect("hexadecimal number")
        } else {
            text.parse().expect("decimal number")
        }
    }

    fn register(&self, name: &str) -> u32 {
        *self.registers.get(name).unwrap_or_else(|| panic!("unknown register {}", name))
    }

    fn address(&self, text: &str) -> u32 {
        let text = text.trim();
        if let Some((base, scaled)) = text.split_once(" + ") {
            let base = self.address(base);
            let offset = if let Some((index, scale)) = scaled.split_once('*') {
                self.register(index).wrapping_mul(Machine::number(scale))
            } else {
                Machine::number(scaled)
            };
            return base.wrapping_add(offset);
        }
        if self.registers.contains_key(text) {
            return self.register(text);
        }
        *self.symbols.get(text).unwrap_or_else(|| panic!("unknown symbol {}", text))
    }

    fn place(&self, text: &str) -> Place {
        let text = text.trim();
        if let Some(inner) = text.strip_prefix("byte [") {
            return Place::Byte(self.address(inner.strip_suffix(']').expect("closing bracket")));
        }
        if let Some(inner) = text.strip_prefix('[') {
            return Place::Dword(self.address(inner.strip_suffix(']').expect("closing bracket")));
        }
        if self.registers.contains_key(text) {
            return Place::Register(text.to_string());
        }
        if text == "dl" {
            return Place::Low("edx".to_string());
        }
        if text.len() == 3 && text.starts_with('\'') && text.ends_with('\'') {
            return Place::Value(text.as_bytes()[1] as u32);
        }
        if text.starts_with(|c: char| c.is_ascii_digit()) {
            return Place::Value(Machine::number(text));
        }
        Place::Value(self.address(text))
    }

    fn byte(&self, address: u32) -> u8 {
        *self.memory.get(&address).unwrap_or(&0)
    }

    fn read(&self, place: &Place) -> u32 {
        match place {
            Place::Register(name) => self.register(name),
            Place::Low(name) => self.register(name) & 0xff,
            Place::Dword(address) => u32::from_le_bytes([
                self.byte(*address),
                self.byte(address + 1),
                self.byte(address + 2),
                self.byte(address + 3),
            ]),
            Place::Byte(address) => self.byte(*address) as u32,
            Place::Value(value) => *value,
        }
    }

    fn write(&mut self, place: &Place, value: u32, narrow: bool) {
        match place {
            Place::Register(name) => {
                self.registers.insert(name.clone(), value);
            }
            Place::Low(name) => {
                let old = self.register(name);
                self.registers.insert(name.clone(), (old & 0xffff_ff00) | (value & 0xff));
            }
            Place::Dword(address) if narrow => {
                self.memory.insert(*address, value as u8);
            }
            Place::Dword(address) => {
                for (i, byte) in value.to_le_bytes().iter().enumerate() {
                    self.memory.insert(address + i as u32, *byte);
                }
            }
            Place::Byte(address) => {
                self.memory.insert(*address, value as u8);
            }
            Place::Value(_) => panic!("cannot write to a value"),
        }
    }

    fn jump(&self, label: &str) -> usize {
        *self.labels.get(label.trim()).unwrap_or_else(|| panic!("unknown label {}", label))
    }

    /// Runs from `_start` until the program exits; gives what it printed.
    fn run(mut self) -> String {
        let mut pc = self.jump("_start");
        loop {
            self.steps += 1;
            assert!(self.steps < 1_000_000, "the program does not end");
            assert!(pc < self.code.len(), "execution ran off the end of the code");
            let line = self.code[pc].clone();
            pc += 1;
            if line.starts_with(';') {
                panic!("diagnostic in the code: {}", line);
            }
            let (mnemonic, operands) = line.split_once(' ').unwrap_or((line.as_str(), ""));
            let operands: Vec<&str> =
                if operands.is_empty() { Vec::new() } else { operands.split(',').collect() };
            match mnemonic {
                "mov" | "lea" => {
                    let target = self.place(operands[0]);
                    let source = self.place(operands[1]);
                    let narrow = matches!(source, Place::Low(_));
                    let value = match (mnemonic, &source) {
                        ("lea", Place::Dword(address)) => *address,
                        _ => self.read(&source),
                    };
                    self.write(&target, value, narrow);
                }
                "push" => {
                    let value = self.read(&self.place(operands[0]));
                    self.stack.push(value);
                }
                "pop" => {
                    let value = self.stack.pop().expect("pop from an empty stack");
                    let target = self.place(operands[0]);
                    self.write(&target, value, false);
                }
                "add" | "sub" | "imul" | "xor" => {
                    let target = self.place(operands[0]);
                    let a = self.read(&target);
                    let b = self.read(&self.place(operands[1]));
                    let value = match mnemonic {
                        "add" => a.wrapping_add(b),
                        "sub" => a.wrapping_sub(b),
                        "imul" => a.wrapping_mul(b),
                        _ => a ^ b,
                    };
                    self.write(&target, value, false);
                }
                "dec" => {
                    let target = self.place(operands[0]);
                    let value = self.read(&target).wrapping_sub(1);
                    self.write(&target, value, false);
                }
                "div" => {
                    let divisor = self.read(&self.place(operands[0])) as u64;
                    assert!(divisor != 0, "division by zero");
                    let dividend =
                        ((self.register("edx") as u64) << 32) | self.register("eax") as u64;
                    let quotient = dividend / divisor;
                    assert!(quotient <= u32::MAX as u64, "division overflow");
                    self.registers.insert("eax".to_string(), quotient as u32);
                    self.registers.insert("edx".to_string(), (dividend % divisor) as u32);
                }
                "cmp" => {
                    self.compared =
                        (self.read(&self.place(operands[0])), self.read(&self.place(operands[1])));
                    self.zero = self.compared.0 == self.compared.1;
                }
                "test" => {
                    let value =
                        self.read(&self.place(operands[0])) & self.read(&self.place(operands[1]));
                    self.zero = value == 0;
                }
                "jmp" => pc = self.jump(operands[0]),
                "je" | "jne" | "jl" | "jle" | "jg" | "jge" | "jnz" => {
                    let (a, b) = (self.compared.0 as i32, self.compared.1 as i32);
                    let taken = match mnemonic {
                        "je" => a == b,
                        "jne" => a != b,
                        "jl" => a < b,
                        "jle" => a <= b,
                        "jg" => a > b,
                        "jge" => a >= b,
                        _ => !self.zero,
                    };
                    if taken {
                        pc = self.jump(operands[0]);
                    }
                }
                "call" => {
                    self.stack.push(pc as u32);
                    pc = self.jump(operands[0]);
                }
                "ret" => pc = self.stack.pop().expect("return without a call") as usize,
                "int" => {
                    assert_eq!(operands[0].trim(), "0x80");
                    match self.register("eax") {
                        1 => {
                            assert!(self.stack.is_empty(), "the stack is not empty at the exit");
                            return String::from_utf8(self.output).expect("printable output");
                        }
                        4 => {
                            assert_eq!(self.register("ebx"), 1, "output goes to standard output");
                            let from = self.register("ecx");
                            for i in 0..self.register("edx") {
                                let byte = self.byte(from + i);
                                self.output.push(byte);
                            }
                        }
                        other => panic!("unknown system call {}", other),
                    }
                }
                other => panic!("unknown instruction {:?} in {:?}", other, line),
            }
        }
    }
}

fn output(source: &str) -> String {
    Machine::load(&compile(source).expect("compiles")).run()
}

fn lit(text: &str) -> ASTNode {
    ASTNode::Literal(text.to_string())
}

fn var(name: &str) -> ASTNode {
    ASTNode::Variable(name.to_string())
}

fn assign(name: &str, expr: ASTNode) -> ASTNode {
    ASTNode::Assignment { var_name: name.to_string(), expr: Box::new(expr) }
}

fn print(expr: ASTNode) -> ASTNode {
    ASTNode::Print(Box::new(expr))
}

fn bin(op: &str, left: ASTNode, right: ASTNode) -> ASTNode {
    ASTNode::BinaryOperation { op: op.to_string(), left: Box::new(left), right: Box::new(right) }
}

/// What the program of `nodes` prints, with the scalars `scalars` and the
/// arrays `arrays` declared.
fn output_of(scalars: &[&str], arrays: &[(&str, u32)], nodes: Vec<ASTNode>) -> String {
    let mut table = SymbolTable::new();
    for name in scalars {
        table.add_to_table(name.to_string(), "int".to_string(), 0);
    }
    for (name, length) in arrays {
        table.add_to_table(name.to_string(), "arr".to_string(), *length);
    }
    let mut assembler = Assembler::new(AST::new(nodes), &mut table);
    assembler.generate().expect("generates");
    Machine::load(&assembler.listing()).run()
}

#[test]
fn the_sum_of_two_and_three_prints_five() {
    assert_eq!(output("var x = 2; var y = 3; print (x + y);"), "5\n");
}

#[test]
fn printing_twice_prints_twice() {
    assert_eq!(output("var x = 2; var y = 3; print (x + y); print (x + y);"), "5\n5\n");
}

#[test]
fn numbers_are_printed_in_base_ten() {
    assert_eq!(output("print 0;"), "0\n");
    assert_eq!(output("print 7;"), "7\n");
    assert_eq!(output("print 10;"), "10\n");
    assert_eq!(output("print 255;"), "255\n");
    assert_eq!(output("print 255 * 255;"), "65025\n");
    assert_eq!(output("print 255 * 255 * 255 * 255;"), "4228250625\n");
    assert_eq!(output("print 0 - 1;"), "4294967295\n");
}

#[test]
fn an_empty_program_prints_nothing() {
    assert_eq!(output(""), "");
    assert_eq!(output("var x = 1;"), "");
}

#[test]
fn arithmetic_follows_precedence() {
    assert_eq!(output("print 2 + 3 * 4;"), "14\n");
    assert_eq!(output("print 2 * 3 + 4;"), "10\n");
    assert_eq!(output("print (2 + 3) * 4;"), "20\n");
    assert_eq!(output("print 20 - 6 / 2;"), "17\n");
}

#[test]
fn arithmetic_groups_from_the_left() {
    assert_eq!(output("print 10 - 3 - 4;"), "3\n");
    assert_eq!(output("print 10 - (3 - 4);"), "11\n");
    assert_eq!(output("print 100 / 10 / 5;"), "2\n");
    assert_eq!(output("print 100 / (10 / 5);"), "50\n");
    assert_eq!(output("print 8 / 4 * 2;"), "4\n");
}

#[test]
fn division_and_remainder() {
    assert_eq!(output("print 17 / 5;"), "3\n");
    assert_eq!(
        output_of(&[], &[], vec![print(bin("%", lit("17"), lit("5")))]),
        "2\n"
    );
}

#[test]
fn variables_hold_what_was_assigned_last() {
    assert_eq!(output("var x = 1; x = x + 1; x = x * 10; print x;"), "20\n");
    assert_eq!(output("var x; print x;"), "0\n");
    assert_eq!(output("var a = 7; var b = a; a = 9; print a; print b;"), "9\n7\n");
}

#[test]
fn an_if_block_runs_when_its_condition_holds() {
    assert_eq!(output("var a = 1; var b = 2; if a < b; print 111; endif; print 7;"), "111\n7\n");
}

#[test]
fn an_if_block_is_skipped_when_its_condition_fails() {
    assert_eq!(output("var a = 2; var b = 1; if a < b; print 111; endif; print 7;"), "7\n");
    assert_eq!(output("var a = 2; var b = 2; if a < b; print 111; endif; print 7;"), "7\n");
}

#[test]
fn each_comparison_runs_its_block_exactly_when_it_holds() {
    let holds: [(&str, fn(i32, i32) -> bool); 6] = [
        ("==", |a, b| a == b),
        ("=!", |a, b| a != b),
        ("<", |a, b| a < b),
        (">", |a, b| a > b),
        ("=<", |a, b| a <= b),
        ("=>", |a, b| a >= b),
    ];
    let values: [(&str, i32); 3] = [("1", 1), ("2", 2), ("3", 3)];
    for (op, holds) in holds {
        for (left, a) in values {
            for (right, b) in values {
                let block = ASTNode::IfOperation {
                    first_half: Box::new(lit(left)),
                    comparison_op: op.to_string(),
                    second_half: Box::new(lit(right)),
                    content: vec![Box::new(print(lit("1")))],
                };
                let expected = if holds(a, b) { "1\n2\n" } else { "2\n" };
                assert_eq!(
                    output_of(&[], &[], vec![block, print(lit("2"))]),
                    expected,
                    "{} {} {}",
                    left,
                    op,
                    right
                );
            }
        }
    }
}

#[test]
fn comparisons_are_signed() {
    // 0 - 1 is below 1 as a signed number.
    assert_eq!(output("var a = 0 - 1; if a < 1; print 1; endif;"), "1\n");
    assert_eq!(output("var a = 0 - 1; if a > 1; print 1; endif;"), "");
}

#[test]
fn a_while_block_runs_while_its_condition_holds() {
    assert_eq!(
        output("var i = 0; while i < 3; print i; i = i + 1; endwhile; print 9;"),
        "0\n1\n2\n9\n"
    );
    assert_eq!(
        output("var i = 1; var sum = 0; while i =< 10; sum = sum + i; i = i + 1; endwhile; print sum;"),
        "55\n"
    );
}

#[test]
fn a_while_block_whose_condition_fails_at_first_never_runs() {
    assert_eq!(output("var i = 5; while i < 3; print i; i = i + 1; endwhile; print 9;"), "9\n");
    assert_eq!(output("var i = 3; while i < 3; print i; endwhile; print i;"), "3\n");
}

#[test]
fn blocks_nest() {
    let source = "var i = 0; while i < 4; if i == 2; print 222; endif; if i > 2; print 133; endif; i = i + 1; endwhile;";
    assert_eq!(output(source), "222\n133\n");
    let source = "var i = 0; var n = 0; while i < 3; var j = 0; while j < 3; n = n + 1; j = j + 1; endwhile; i = i + 1; endwhile; print n;";
    assert_eq!(output(source), "9\n");
}

#[test]
fn sibling_blocks_do_not_share_labels() {
    let source = "var a = 1; if a == 2; print 1; endif; if a == 1; print 2; endif; if a == 1; print 3; endif;";
    assert_eq!(output(source), "2\n3\n");
}

#[test]
fn an_array_element_holds_what_was_assigned() {
    let nodes = vec![
        ASTNode::ArrayDeclaration { arr_name: "arr".to_string(), size: Box::new(lit("5")) },
        ASTNode::ArrayAssignment {
            arr_name: "arr".to_string(),
            position: Box::new(lit("2")),
            value: Box::new(lit("9")),
        },
        print(ASTNode::Array { arr_name: "arr".to_string(), index: Box::new(lit("2")) }),
    ];
    assert_eq!(output_of(&[], &[("arr", 5)], nodes), "9\n");
}

#[test]
fn array_elements_are_apart() {
    let store = |index: &str, value: &str| ASTNode::ArrayAssignment {
        arr_name: "arr".to_string(),
        position: Box::new(lit(index)),
        value: Box::new(lit(value)),
    };
    let read = |index: ASTNode| ASTNode::Array { arr_name: "arr".to_string(), index: Box::new(index) };
    let nodes = vec![
        store("0", "10"),
        store("1", "11"),
        store("4", "14"),
        assign("i", lit("1")),
        print(read(lit("0"))),
        print(read(var("i"))),
        print(read(lit("2"))),
        print(read(bin("+", var("i"), lit("3")))),
        assign("x", read(lit("4"))),
        print(var("x")),
    ];
    assert_eq!(output_of(&["i", "x"], &[("arr", 5)], nodes), "10\n11\n0\n14\n14\n");
}

#[test]
fn an_array_element_can_be_set_from_an_expression() {
    let nodes = vec![
        assign("i", lit("3")),
        ASTNode::ArrayAssignment {
            arr_name: "arr".to_string(),
            position: Box::new(bin("-", var("i"), lit("1"))),
            value: Box::new(bin("*", var("i"), lit("7"))),
        },
        print(ASTNode::Array { arr_name: "arr".to_string(), index: Box::new(lit("2")) }),
    ];
    assert_eq!(output_of(&["i"], &[("arr", 5)], nodes), "21\n");
}

#[test]
fn a_numeral_above_255_is_a_name_and_must_be_declared() {
    assert!(compile("print 256;").is_err());
    assert_eq!(output("var 256 = 1; print 256;"), "1\n");
}

#[test]
fn an_array_element_written_in_source_holds_what_was_assigned() {
    assert_eq!(output("var arr[5]; arr[2] = 9; print arr[2];"), "9\n");
    assert_eq!(
        output("var arr[5]; arr[0] = 10; arr[4] = 14; print arr[0]; print arr[1]; print arr[4];"),
        "10\n0\n14\n"
    );
}

#[test]
fn an_array_is_filled_and_summed_in_loops() {
    let source = "var arr[4]; var i = 0; while i < 4; arr[i] = i * i; i = i + 1; endwhile; \
                  var sum = 0; i = 0; while i < 4; var e = arr[i]; sum = sum + e; i = i + 1; endwhile; \
                  print sum;";
    assert_eq!(output(source), "14\n");
}

#[test]
fn an_array_element_decides_a_condition() {
    assert_eq!(output("var arr[2]; arr[1] = 7; if arr[1] > 5; print 1; endif; print 2;"), "1\n2\n");
    assert_eq!(output("var arr[2]; arr[1] = 3; if arr[1] > 5; print 1; endif; print 2;"), "2\n");
}

#[test]
fn each_side_of_a_condition_may_be_an_expression_in_brackets() {
    assert_eq!(output("var a = 1; var b = 2; if (a) < (b); print 1; endif; print 2;"), "1\n2\n");
    assert_eq!(
        output("var a = 1; var b = 2; if a + 2 < (b * 1); print 1; endif; print 2;"),
        "2\n"
    );
    assert_eq!(
        output("var i = 0; while (i + 1) * 2 < 7; print i; i = i + 1; endwhile;"),
        "0\n1\n2\n"
    );
}

#[test]
fn each_comparison_written_in_source_runs_its_block_exactly_when_it_holds() {
    let holds: [(&str, fn(i32, i32) -> bool); 6] = [
        ("==", |a, b| a == b),
        ("=!", |a, b| a != b),
        ("<", |a, b| a < b),
        (">", |a, b| a > b),
        ("=<", |a, b| a <= b),
        ("=>", |a, b| a >= b),
    ];
    for (op, holds) in holds {
        for a in 1..4 {
            for b in 1..4 {
                let source = format!("if {} {} {}; print 1; endif; print 2;", a, op, b);
                let expected = if holds(a, b) { "1\n2\n" } else { "2\n" };
                assert_eq!(output(&source), expected, "{}", source);
            }
        }
    }
}
