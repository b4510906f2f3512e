use idk::assembler::{Assembler, GenError};
use idk::ast::{ASTNode, AST};
use idk::symbol_table::SymbolTable;

fn lit(text: &str) -> ASTNode {
    ASTNode::Literal(text.to_string())
}

fn var(name: &str) -> ASTNode {
    ASTNode::Variable(name.to_string())
}

fn bin(op: &str, left: ASTNode, right: ASTNode) -> ASTNode {
    ASTNode::BinaryOperation { op: op.to_string(), left: Box::new(left), right: Box::new(right) }
}

fn assign(name: &str, expr: ASTNode) -> ASTNode {
    ASTNode::Assignment { var_name: name.to_string(), expr: Box::new(expr) }
}

fn print(expr: ASTNode) -> ASTNode {
    ASTNode::Print(Box::new(expr))
}

fn if_node(left: ASTNode, op: &str, right: ASTNode, content: Vec<ASTNode>) -> ASTNode {
    ASTNode::IfOperation {
        first_half: Box::new(left),
        comparison_op: op.to_string(),
        second_half: Box::new(right),
        content: content.into_iter().map(Box::new).collect(),
    }
}

fn while_node(left: ASTNode, op: &str, right: ASTNode, content: Vec<ASTNode>) -> ASTNode {
    ASTNode::WhileOperation {
        first_half: Box::new(left),
        comparison_op: op.to_string(),
        second_half: Box::new(right),
        content: content.into_iter().map(Box::new).collect(),
    }
}

fn assembler(nodes: Vec<ASTNode>) -> Assembler {
    let mut table = SymbolTable::new();
    Assembler::new(AST::new(nodes), &mut table)
}

/// The instructions generated for one node by a fresh generator.
fn code(node: ASTNode) -> Vec<String> {
    let mut assembler = assembler(Vec::new());
    assert_eq!(assembler.generate_node(&node), Ok(()));
    assembler.instructions().clone()
}

const PRINT_ROUTINE: &str = "print_eax:\npush ecx\npush edx\nmov edi, buffer + 11\nmov byte [edi], 0\nmov ebx, 10\n.convert_loop:\ndec edi\nxor edx, edx\ndiv ebx\nadd dl, '0'\nmov [edi], dl\ntest eax, eax\njnz .convert_loop\nmov eax, 4\nmov ebx, 1\nmov ecx, edi\nmov edx, buffer + 11\nsub edx, edi\nint 0x80\nmov eax, 4\nmov ebx, 1\nmov ecx, newline\nmov edx, 1\nint 0x80\npop edx\npop ecx\nret\n";

#[test]
fn a_new_generator_declares_the_storage() {
    let mut table = SymbolTable::new();
    table.add_to_table("x".to_string(), "int".to_string(), 0);
    table.add_to_table("arr".to_string(), "arr".to_string(), 5);
    table.up();
    table.add_to_table("y".to_string(), "int".to_string(), 0);
    table.add_to_table("f".to_string(), "func".to_string(), 0);
    table.add_to_table("big".to_string(), "arr".to_string(), 4294967295);
    let assembler = Assembler::new(AST::new(Vec::new()), &mut table);
    assert_eq!(assembler.data_section(), &["x dd 0", "y dd 0"]);
    assert_eq!(
        assembler.bss_section(),
        &["arr resd 5", "big resd 4294967295", "buffer resb 12"]
    );
    assert!(assembler.instructions().is_empty());
    assert!(assembler.routines().is_empty());
    assert_eq!(assembler.labels_taken(), 0);
    assert_eq!(table.level(), 0);
    assert_eq!(table.len(), 5);
}

#[test]
fn a_generator_for_no_symbols_has_only_the_scratch_buffer() {
    let assembler = assembler(Vec::new());
    assert!(assembler.data_section().is_empty());
    assert_eq!(assembler.bss_section(), &["buffer resb 12"]);
}

#[test]
fn leaves_load_the_accumulator() {
    assert_eq!(code(lit("7")), ["mov eax, 7"]);
    assert_eq!(code(var("x")), ["mov eax, [x]"]);
}

#[test]
fn an_assignment_stores_the_accumulator() {
    assert_eq!(code(assign("x", lit("1"))), ["mov eax, 1", "mov [x], eax"]);
}

#[test]
fn an_array_declaration_generates_nothing() {
    let node = ASTNode::ArrayDeclaration { arr_name: "a".to_string(), size: Box::new(lit("3")) };
    assert!(code(node).is_empty());
}

#[test]
fn an_array_assignment_scales_the_index() {
    let node = ASTNode::ArrayAssignment {
        arr_name: "arr".to_string(),
        position: Box::new(lit("2")),
        value: Box::new(lit("9")),
    };
    assert_eq!(
        code(node),
        ["lea esi, [arr]", "mov eax, 2", "mov ecx, eax", "mov eax, 9", "mov [esi + ecx*4], eax"]
    );
}

#[test]
fn an_array_read_scales_the_index() {
    let node = ASTNode::Array { arr_name: "arr".to_string(), index: Box::new(var("i")) };
    assert_eq!(code(node), ["mov eax, [i]", "lea esi, [arr]", "mov eax, [esi + eax*4]"]);
}

#[test]
fn a_binary_operation_computes_the_right_operand_first() {
    assert_eq!(
        code(bin("-", var("a"), lit("3"))),
        ["mov eax, 3", "push eax", "mov eax, [a]", "pop ebx", "sub eax, ebx"]
    );
}

#[test]
fn each_operator_has_its_instructions() {
    let tail = |op: &str| code(bin(op, lit("1"), lit("2")))[4..].to_vec();
    assert_eq!(tail("+"), ["add eax, ebx"]);
    assert_eq!(tail("-"), ["sub eax, ebx"]);
    assert_eq!(tail("*"), ["imul eax, ebx"]);
    assert_eq!(tail("/"), ["mov edx, 0", "div ebx"]);
    assert_eq!(tail("%"), ["mov edx, 0", "div ebx", "mov eax, edx"]);
}

#[test]
fn an_unknown_operator_leaves_a_diagnostic() {
    let tail = |op: &str| code(bin(op, lit("1"), lit("2")))[4..].to_vec();
    assert_eq!(tail("^"), ["; Unknown binary operator"]);
    assert_eq!(tail(""), ["; Unknown binary operator"]);
    assert_eq!(tail("++"), ["; Unknown binary operator"]);
}

#[test]
fn nested_operations_nest_on_the_stack() {
    assert_eq!(
        code(bin("+", lit("2"), bin("*", lit("3"), lit("4")))),
        [
            "mov eax, 4",
            "push eax",
            "mov eax, 3",
            "pop ebx",
            "imul eax, ebx",
            "push eax",
            "mov eax, 2",
            "pop ebx",
            "add eax, ebx",
        ]
    );
}

#[test]
fn an_if_block_jumps_over_its_body_on_the_negated_condition() {
    assert_eq!(
        code(if_node(var("a"), "<", var("b"), vec![assign("x", lit("1"))])),
        [
            "mov eax, [b]",
            "push eax",
            "mov eax, [a]",
            "pop ebx",
            "cmp eax, ebx",
            "jge endif_0",
            "mov eax, 1",
            "mov [x], eax",
            "endif_0:",
        ]
    );
}

#[test]
fn each_comparison_has_its_negated_jump() {
    let jump = |op: &str| code(if_node(lit("1"), op, lit("2"), vec![]))[5].clone();
    assert_eq!(jump("=="), "jne endif_0");
    assert_eq!(jump("=!"), "je endif_0");
    assert_eq!(jump("<"), "jge endif_0");
    assert_eq!(jump(">"), "jle endif_0");
    assert_eq!(jump("=<"), "jg endif_0");
    assert_eq!(jump("=>"), "jl endif_0");
}

#[test]
fn an_unknown_comparison_leaves_a_diagnostic() {
    let jump = |op: &str| code(if_node(lit("1"), op, lit("2"), vec![]))[5].clone();
    assert_eq!(jump("!="), "; Unknown comparison");
    assert_eq!(jump("<="), "; Unknown comparison");
    assert_eq!(jump(""), "; Unknown comparison");
    let lines = code(while_node(lit("1"), "<>", lit("2"), vec![]));
    assert_eq!(lines[6], "; Unknown comparison");
}

#[test]
fn a_while_block_has_entry_label_back_edge_and_exit_label() {
    assert_eq!(
        code(while_node(var("i"), "<", lit("3"), vec![assign("i", bin("+", var("i"), lit("1")))])),
        [
            "while_start_0:",
            "mov eax, 3",
            "push eax",
            "mov eax, [i]",
            "pop ebx",
            "cmp eax, ebx",
            "jge while_end_1",
            "mov eax, 1",
            "push eax",
            "mov eax, [i]",
            "pop ebx",
            "add eax, ebx",
            "mov [i], eax",
            "jmp while_start_0",
            "while_end_1:",
        ]
    );
}

#[test]
fn sibling_blocks_have_different_labels() {
    let mut assembler = assembler(Vec::new());
    let block = if_node(var("a"), "<", var("b"), vec![]);
    assert_eq!(assembler.generate_node(&block), Ok(()));
    assert_eq!(assembler.generate_node(&block), Ok(()));
    let lines = assembler.instructions();
    assert_eq!(lines[5], "jge endif_0");
    assert_eq!(lines[6], "endif_0:");
    assert_eq!(lines[12], "jge endif_1");
    assert_eq!(lines[13], "endif_1:");
    assert_eq!(assembler.labels_taken(), 2);
}

#[test]
fn nested_blocks_have_different_labels() {
    let inner_if = if_node(var("a"), "==", var("b"), vec![]);
    let inner_while = while_node(var("a"), ">", var("b"), vec![inner_if.clone()]);
    let outer = if_node(var("a"), "<", var("b"), vec![inner_while, inner_if]);
    let lines = code(outer);
    let labels: Vec<&String> = lines.iter().filter(|l| l.ends_with(':')).collect();
    assert_eq!(labels, ["while_start_1:", "endif_3:", "while_end_2:", "endif_4:", "endif_0:"]);
    let mut unique = labels.clone();
    unique.sort();
    unique.dedup();
    assert_eq!(unique.len(), labels.len());
}

#[test]
fn labels_in_a_long_program_never_collide() {
    let block = if_node(var("a"), "<", var("b"), vec![while_node(var("a"), "<", var("b"), vec![])]);
    let mut assembler = assembler(Vec::new());
    for _ in 0..40 {
        assert_eq!(assembler.generate_node(&block), Ok(()));
    }
    let mut labels: Vec<String> = assembler
        .instructions()
        .iter()
        .filter(|l| l.ends_with(':'))
        .cloned()
        .collect();
    assert_eq!(labels.len(), 120);
    labels.sort();
    labels.dedup();
    assert_eq!(labels.len(), 120);
    assert_eq!(assembler.labels_taken(), 120);
}

#[test]
fn new_label_counts_up() {
    let mut assembler = assembler(Vec::new());
    assert_eq!(assembler.new_label("endif"), "endif_0");
    assert_eq!(assembler.new_label("while_start"), "while_start_1");
    assert_eq!(assembler.new_label("x"), "x_2");
    for _ in 3..10 {
        assembler.new_label("endif");
    }
    assert_eq!(assembler.new_label("endif"), "endif_10");
    assert_eq!(assembler.labels_taken(), 11);
}

#[test]
fn print_calls_the_routine_and_emits_it_once() {
    let mut assembler = assembler(Vec::new());
    assert_eq!(assembler.generate_node(&print(lit("5"))), Ok(()));
    assert_eq!(assembler.instructions(), &["mov eax, 5", "call print_eax"]);
    assert_eq!(assembler.routines(), &[PRINT_ROUTINE]);
    assert_eq!(assembler.generate_node(&print(var("x"))), Ok(()));
    assert_eq!(assembler.generate_node(&print(var("y"))), Ok(()));
    assert_eq!(assembler.routines(), &[PRINT_ROUTINE]);
    assert_eq!(
        assembler.instructions(),
        &[
            "mov eax, 5",
            "call print_eax",
            "mov eax, [x]",
            "call print_eax",
            "mov eax, [y]",
            "call print_eax",
        ]
    );
}

#[test]
fn a_program_without_print_has_no_routine() {
    let mut assembler = assembler(vec![assign("x", lit("1"))]);
    assert_eq!(assembler.generate(), Ok(()));
    assert!(assembler.routines().is_empty());
}

#[test]
fn markers_and_sentinels_generate_nothing() {
    for node in [ASTNode::EndIf, ASTNode::EndWhile, ASTNode::Start, ASTNode::End] {
        assert!(code(node).is_empty());
    }
}

#[test]
fn an_error_node_leaves_a_diagnostic() {
    assert_eq!(code(ASTNode::Error), ["; Error node encountered"]);
    assert_eq!(code(assign("x", ASTNode::Error)), ["; Error node encountered", "mov [x], eax"]);
}

#[test]
fn function_nodes_are_unsupported() {
    let nodes = vec![
        ASTNode::FunctionDef { name: "f".to_string(), parameters: None },
        ASTNode::EndFunctionDef,
        ASTNode::FuntionCall { name: "f".to_string(), parameters: None },
    ];
    for node in nodes {
        let mut assembler = assembler(Vec::new());
        assert!(!Assembler::is_supported(&node));
        assert_eq!(assembler.generate_node(&node), Err(GenError::Unsupported));
        assert!(assembler.instructions().is_empty());
    }
}

#[test]
fn a_function_node_anywhere_the_generator_goes_is_unsupported() {
    let call = ASTNode::FuntionCall { name: "f".to_string(), parameters: None };
    let nodes = vec![
        assign("x", call.clone()),
        print(call.clone()),
        bin("+", lit("1"), call.clone()),
        if_node(lit("1"), "<", lit("2"), vec![assign("x", lit("1")), call.clone()]),
        while_node(call.clone(), "<", lit("2"), vec![]),
        if_node(lit("1"), "<", lit("2"), vec![while_node(lit("1"), "<", lit("2"), vec![call.clone()])]),
    ];
    for node in nodes {
        let mut assembler = assembler(Vec::new());
        assembler.new_label("endif");
        assert_eq!(assembler.generate_node(&node), Err(GenError::Unsupported));
        assert!(assembler.instructions().is_empty());
        assert!(assembler.routines().is_empty());
        assert_eq!(assembler.labels_taken(), 1);
    }
}

#[test]
fn the_size_of_an_array_declaration_is_not_visited() {
    let call = ASTNode::FuntionCall { name: "f".to_string(), parameters: None };
    let node = ASTNode::ArrayDeclaration { arr_name: "a".to_string(), size: Box::new(call) };
    assert!(Assembler::is_supported(&node));
    assert!(code(node).is_empty());
}

#[test]
fn count_labels_counts_one_per_if_and_two_per_while() {
    assert_eq!(Assembler::count_labels(&lit("1")), Some(0));
    assert_eq!(Assembler::count_labels(&if_node(lit("1"), "<", lit("2"), vec![])), Some(1));
    assert_eq!(Assembler::count_labels(&while_node(lit("1"), "<", lit("2"), vec![])), Some(2));
    let nested = if_node(
        lit("1"),
        "<",
        lit("2"),
        vec![
            while_node(lit("1"), "<", lit("2"), vec![if_node(lit("1"), "<", lit("2"), vec![])]),
            if_node(lit("1"), "<", lit("2"), vec![]),
        ],
    );
    assert_eq!(Assembler::count_labels(&nested), Some(5));
}

#[test]
fn generate_lowers_the_whole_program() {
    let mut assembler = assembler(vec![
        ASTNode::Start,
        assign("x", lit("2")),
        if_node(var("x"), "==", lit("2"), vec![print(var("x"))]),
    ]);
    assert_eq!(assembler.generate(), Ok(()));
    assert_eq!(
        assembler.instructions(),
        &[
            "mov eax, 2",
            "mov [x], eax",
            "mov eax, 2",
            "push eax",
            "mov eax, [x]",
            "pop ebx",
            "cmp eax, ebx",
            "jne endif_0",
            "mov eax, [x]",
            "call print_eax",
            "endif_0:",
        ]
    );
    assert_eq!(assembler.routines().len(), 1);
}

#[test]
fn generate_of_an_unsupported_program_generates_nothing() {
    let mut assembler = assembler(vec![
        assign("x", lit("2")),
        print(var("x")),
        ASTNode::FunctionDef { name: "f".to_string(), parameters: None },
    ]);
    assert_eq!(assembler.generate(), Err(GenError::Unsupported));
    assert!(assembler.instructions().is_empty());
    assert!(assembler.routines().is_empty());
}

#[test]
fn the_listing_of_an_empty_program() {
    let assembler = assembler(Vec::new());
    assert_eq!(
        assembler.listing(),
        "section .data\nnewline db 0xA\n\nsection .bss\nbuffer resb 12\n\nsection .text\nglobal _start\n\n_start:\n\nmov eax, 1\nxor ebx, ebx\nint 0x80\n"
    );
}

#[test]
fn the_listing_has_every_section_in_order() {
    let mut table = SymbolTable::new();
    table.add_to_table("x".to_string(), "int".to_string(), 0);
    table.add_to_table("arr".to_string(), "arr".to_string(), 3);
    let mut assembler = Assembler::new(AST::new(vec![print(var("x"))]), &mut table);
    assert_eq!(assembler.generate(), Ok(()));
    let expected = format!(
        "section .data\nx dd 0\nnewline db 0xA\n\nsection .bss\narr resd 3\nbuffer resb 12\n\nsection .text\nglobal _start\n\n_start:\nmov eax, [x]\ncall print_eax\n\nmov eax, 1\nxor ebx, ebx\nint 0x80\n{}\n",
        PRINT_ROUTINE
    );
    assert_eq!(assembler.listing(), expected);
}

#[test]
fn reserved_labels_are_passed_over() {
    let mut assembler = assembler(Vec::new());
    assembler.reserve_labels(40);
    assert_eq!(assembler.labels_taken(), 40);
    assert_eq!(assembler.generate_node(&if_node(lit("1"), "<", lit("2"), vec![])), Ok(()));
    assert_eq!(assembler.instructions()[5], "jge endif_40");
    assembler.reserve_labels(usize::MAX);
    assert_eq!(assembler.labels_taken(), usize::MAX);
}

#[test]
fn a_block_without_a_label_number_left_is_not_generated() {
    let mut assembler = assembler(vec![while_node(lit("1"), "<", lit("2"), vec![])]);
    assembler.reserve_labels(usize::MAX - 1);
    assert_eq!(
        assembler.generate_node(&while_node(lit("1"), "<", lit("2"), vec![])),
        Err(GenError::LabelOverflow)
    );
    assert_eq!(assembler.generate(), Err(GenError::LabelOverflow));
    assert!(assembler.instructions().is_empty());
    assert_eq!(assembler.labels_taken(), usize::MAX - 1);
    // One label is left: an `if` block fits, and then nothing with a label.
    assert_eq!(assembler.generate_node(&if_node(lit("1"), "<", lit("2"), vec![])), Ok(()));
    assert_eq!(assembler.labels_taken(), usize::MAX);
    assert_eq!(
        assembler.generate_node(&if_node(lit("1"), "<", lit("2"), vec![])),
        Err(GenError::LabelOverflow)
    );
    assert_eq!(assembler.generate_node(&assign("x", lit("1"))), Ok(()));
    // An unsupported node is reported first.
    let call = ASTNode::FuntionCall { name: "f".to_string(), parameters: None };
    assert_eq!(
        assembler.generate_node(&if_node(call, "<", lit("2"), vec![])),
        Err(GenError::Unsupported)
    );
}
