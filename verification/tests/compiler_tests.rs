use idk::ast::ASTNode;
use idk::compiler::{compile, contains_error, parse_program, CompileError};
use idk::token::{Token, TokenType};
use idk::tokenizer::tokenize;

const PRINT_ROUTINE: &str = "print_eax:\npush ecx\npush edx\nmov edi, buffer + 11\nmov byte [edi], 0\nmov ebx, 10\n.convert_loop:\ndec edi\nxor edx, edx\ndiv ebx\nadd dl, '0'\nmov [edi], dl\ntest eax, eax\njnz .convert_loop\nmov eax, 4\nmov ebx, 1\nmov ecx, edi\nmov edx, buffer + 11\nsub edx, edi\nint 0x80\nmov eax, 4\nmov ebx, 1\nmov ecx, newline\nmov edx, 1\nint 0x80\npop edx\npop ecx\nret\n";

fn lit(text: &str) -> ASTNode {
    ASTNode::Literal(text.to_string())
}

fn var(name: &str) -> ASTNode {
    ASTNode::Variable(name.to_string())
}

fn assign(name: &str, expr: ASTNode) -> ASTNode {
    ASTNode::Assignment { var_name: name.to_string(), expr: Box::new(expr) }
}

/// The lines between `_start:` and the exit sequence.
fn instructions(listing: &str) -> Vec<String> {
    let start = listing.find("\n_start:\n").expect("entry point") + "\n_start:\n".len();
    let end = listing.find("\nmov eax, 1\nxor ebx, ebx\nint 0x80\n").expect("exit sequence");
    if start > end {
        return Vec::new();
    }
    listing[start..end].lines().map(|l| l.to_string()).collect()
}

#[test]
fn the_sum_of_two_variables_is_compiled_and_printed() {
    let listing = compile("var x = 2; var y = 3; print (x + y);").expect("compiles");
    let expected = format!(
        "section .data\nx dd 0\ny dd 0\nnewline db 0xA\n\nsection .bss\nbuffer resb 12\n\nsection .text\nglobal _start\n\n_start:\nmov eax, 2\nmov [x], eax\nmov eax, 3\nmov [y], eax\nmov eax, [y]\npush eax\nmov eax, [x]\npop ebx\nadd eax, ebx\ncall print_eax\n\nmov eax, 1\nxor ebx, ebx\nint 0x80\n{}\n",
        PRINT_ROUTINE
    );
    assert_eq!(listing, expected);
}

#[test]
fn the_print_routine_is_there_once_however_often_it_is_called() {
    let listing = compile("var x = 2; print x; print x + 1; print (x); print 7;").expect("compiles");
    assert_eq!(listing.matches("print_eax:").count(), 1);
    assert_eq!(listing.matches(".convert_loop:").count(), 1);
    assert_eq!(listing.matches("call print_eax").count(), 4);
    assert_eq!(listing.matches(PRINT_ROUTINE).count(), 1);
}

#[test]
fn a_program_without_print_has_no_print_routine() {
    let listing = compile("var x = 2;").expect("compiles");
    assert_eq!(listing.matches("print_eax").count(), 0);
    assert!(listing.ends_with("\nmov eax, 1\nxor ebx, ebx\nint 0x80\n"));
}

#[test]
fn the_empty_program_compiles_to_the_bare_frame() {
    assert_eq!(
        compile("").expect("compiles"),
        "section .data\nnewline db 0xA\n\nsection .bss\nbuffer resb 12\n\nsection .text\nglobal _start\n\n_start:\n\nmov eax, 1\nxor ebx, ebx\nint 0x80\n"
    );
    assert_eq!(compile("   \n"), compile(""));
}

#[test]
fn the_exit_sequence_follows_the_instructions() {
    let listing = compile("var x = 1; x = x + 1;").expect("compiles");
    let text = listing.find("_start:").unwrap();
    let exit = listing.find("\nmov eax, 1\nxor ebx, ebx\nint 0x80\n").unwrap();
    let last = listing.rfind("mov [x], eax").unwrap();
    assert!(text < last && last < exit);
}

#[test]
fn each_scalar_has_one_cell() {
    let listing = compile("var a; var b = 1; var c = a + b;").expect("compiles");
    assert!(listing.starts_with("section .data\na dd 0\nb dd 0\nc dd 0\nnewline db 0xA\n"));
}

#[test]
fn an_if_block_is_compiled_with_its_body_inside() {
    let listing = compile("var a = 1; var b = 2; if a < b; a = 5; endif; b = 7;").expect("compiles");
    assert_eq!(
        instructions(&listing),
        [
            "mov eax, 1",
            "mov [a], eax",
            "mov eax, 2",
            "mov [b], eax",
            "mov eax, [b]",
            "push eax",
            "mov eax, [a]",
            "pop ebx",
            "cmp eax, ebx",
            "jge endif_0",
            "mov eax, 5",
            "mov [a], eax",
            "endif_0:",
            "mov eax, 7",
            "mov [b], eax",
        ]
    );
}

#[test]
fn a_while_block_is_compiled_as_a_loop() {
    let listing = compile("var i = 0; while i < 3; i = i + 1; endwhile;").expect("compiles");
    assert_eq!(
        instructions(&listing),
        [
            "mov eax, 0",
            "mov [i], eax",
            "while_start_0:",
            "mov eax, 3",
            "push eax",
            "mov eax, [i]",
            "pop ebx",
            "cmp eax, ebx",
            "jge while_end_1",
            "mov eax, 1",
            "push eax",
            "mov eax, [i]",
            "pop ebx",
            "add eax, ebx",
            "mov [i], eax",
            "jmp while_start_0",
            "while_end_1:",
        ]
    );
}

#[test]
fn two_sibling_if_blocks_have_two_labels() {
    let listing =
        compile("var a = 1; if a == 1; a = 2; endif; if a == 1; a = 3; endif;").expect("compiles");
    let lines = instructions(&listing);
    let labels: Vec<&String> = lines.iter().filter(|l| l.ends_with(':')).collect();
    assert_eq!(labels, ["endif_0:", "endif_1:"]);
    assert_eq!(lines.iter().filter(|l| l.as_str() == "jne endif_0").count(), 1);
    assert_eq!(lines.iter().filter(|l| l.as_str() == "jne endif_1").count(), 1);
}

#[test]
fn every_comparison_of_the_source_language_is_compiled() {
    let jump = |op: &str| {
        let source = format!("var a = 1; if a {} 2; endif;", op);
        instructions(&compile(&source).expect("compiles"))[7].clone()
    };
    assert_eq!(jump("=="), "jne endif_0");
    assert_eq!(jump("=!"), "je endif_0");
    assert_eq!(jump("<"), "jge endif_0");
    assert_eq!(jump(">"), "jle endif_0");
    assert_eq!(jump("=<"), "jg endif_0");
    assert_eq!(jump("=>"), "jl endif_0");
}

#[test]
fn an_array_has_a_block_of_its_length_and_no_cell() {
    let listing = compile("var x; var arr[5]; var big[255];").expect("compiles");
    assert!(listing.starts_with(
        "section .data\nx dd 0\nnewline db 0xA\n\nsection .bss\narr resd 5\nbig resd 255\nbuffer resb 12\n"
    ));
    assert_eq!(instructions(&listing), ["mov eax, 0", "mov [x], eax"]);
}

#[test]
fn an_assignment_to_an_array_element_and_a_read_are_compiled() {
    let listing = compile("var arr[5]; arr[2] = 9; print arr[2];").expect("compiles");
    assert_eq!(
        instructions(&listing),
        [
            "lea esi, [arr]",
            "mov eax, 2",
            "mov ecx, eax",
            "mov eax, 9",
            "mov [esi + ecx*4], eax",
            "mov eax, 2",
            "lea esi, [arr]",
            "mov eax, [esi + eax*4]",
            "call print_eax",
        ]
    );
}

#[test]
fn an_array_element_is_read_into_a_scalar_and_in_a_condition() {
    let listing =
        compile("var arr[3]; var x = arr[1]; x = arr[x]; if arr[0] < x; endif;").expect("compiles");
    assert_eq!(
        instructions(&listing),
        [
            "mov eax, 1",
            "lea esi, [arr]",
            "mov eax, [esi + eax*4]",
            "mov [x], eax",
            "mov eax, [x]",
            "lea esi, [arr]",
            "mov eax, [esi + eax*4]",
            "mov [x], eax",
            "mov eax, [x]",
            "push eax",
            "mov eax, 0",
            "lea esi, [arr]",
            "mov eax, [esi + eax*4]",
            "pop ebx",
            "cmp eax, ebx",
            "jge endif_0",
            "endif_0:",
        ]
    );
}

#[test]
fn an_array_that_is_not_declared_cannot_be_indexed() {
    assert_eq!(compile("print arr[2];"), Err(CompileError::Syntax { statement: 0 }));
    assert_eq!(
        compile("var x; x[2] = 1; print x[2];"),
        Err(CompileError::Syntax { statement: 2 })
    );
}

#[test]
fn an_array_size_must_be_a_literal() {
    assert_eq!(
        compile("var n = 5; var arr[n];"),
        Err(CompileError::Segmentation {
            state: 32,
            kind: TokenType::Variable,
            position: 3,
            statement: 1
        })
    );
}

#[test]
fn a_token_without_transition_is_a_segmentation_error() {
    assert_eq!(
        compile("var 1;"),
        Err(CompileError::Segmentation {
            state: 4,
            kind: TokenType::IntLiteral,
            position: 1,
            statement: 0
        })
    );
    assert_eq!(
        compile("var x = 1; var y = 2; print x y;"),
        Err(CompileError::Segmentation {
            state: 38,
            kind: TokenType::Variable,
            position: 2,
            statement: 2
        })
    );
    assert_eq!(
        compile(";"),
        Err(CompileError::Segmentation {
            state: 0,
            kind: TokenType::SemiColon,
            position: 0,
            statement: 0
        })
    );
}

#[test]
fn a_comparison_operator_out_of_place_is_a_segmentation_error() {
    assert_eq!(
        compile("var x = 1 ! 2;"),
        Err(CompileError::Segmentation {
            state: 9,
            kind: TokenType::ComparisonOperator,
            position: 4,
            statement: 0
        })
    );
    // `=` and `!` make `=!`, which does not belong after a name.
    assert_eq!(
        compile("var x = !1;"),
        Err(CompileError::Segmentation {
            state: 5,
            kind: TokenType::ComparisonOperator,
            position: 2,
            statement: 0
        })
    );
}

#[test]
fn an_unknown_comparison_leaves_a_diagnostic_in_the_listing() {
    let listing = compile("var a = 1; if a ! 2; endif;").expect("compiles");
    assert_eq!(instructions(&listing)[7], "; Unknown comparison");
}

#[test]
fn an_unknown_binary_operator_leaves_a_diagnostic_in_the_listing() {
    let listing = compile("var a = 2 ^ 3;").expect("compiles");
    assert_eq!(
        instructions(&listing),
        [
            "mov eax, 3",
            "push eax",
            "mov eax, 2",
            "pop ebx",
            "; Unknown binary operator",
            "mov [a], eax",
        ]
    );
}

#[test]
fn a_header_without_its_terminator_is_a_segmentation_error() {
    assert_eq!(
        compile("var a = 1; if a < 2 a = 3; endif;"),
        Err(CompileError::Segmentation {
            state: 18,
            kind: TokenType::Variable,
            position: 4,
            statement: 1
        })
    );
}

#[test]
fn a_terminator_before_the_comparison_is_a_segmentation_error() {
    assert_eq!(
        compile("var a = 1; if a; < 2; endif;"),
        Err(CompileError::Segmentation {
            state: 13,
            kind: TokenType::SemiColon,
            position: 2,
            statement: 1
        })
    );
}

#[test]
fn a_header_without_a_comparison_is_a_segmentation_error() {
    assert_eq!(
        compile("var a = 1; while a; endwhile;"),
        Err(CompileError::Segmentation {
            state: 13,
            kind: TokenType::SemiColon,
            position: 2,
            statement: 1
        })
    );
}

#[test]
fn a_reference_to_an_undeclared_name_is_a_syntax_error() {
    assert_eq!(compile("print y;"), Err(CompileError::Syntax { statement: 0 }));
    assert_eq!(compile("var x = 1; print x + y;"), Err(CompileError::Syntax { statement: 1 }));
    assert_eq!(compile("var x = y;"), Err(CompileError::Syntax { statement: 0 }));
    assert_eq!(
        compile("var x = 1; var z = 2; if x < nope; endif;"),
        Err(CompileError::Syntax { statement: 2 })
    );
}

#[test]
fn an_end_marker_without_a_block_is_a_syntax_error() {
    assert_eq!(compile("endif;"), Err(CompileError::Syntax { statement: 0 }));
    assert_eq!(compile("var x; endwhile;"), Err(CompileError::Syntax { statement: 1 }));
}

#[test]
fn a_malformed_statement_is_a_syntax_error() {
    assert_eq!(compile("var x; x;"), Err(CompileError::Syntax { statement: 1 }));
    assert_eq!(compile("var x; x + 1;"), Err(CompileError::Syntax { statement: 1 }));
}

#[test]
fn a_function_definition_is_unsupported() {
    assert_eq!(compile("func f: a, b; endfunc;"), Err(CompileError::Unsupported));
    assert_eq!(compile("var x = 1; endfunc;"), Err(CompileError::Unsupported));
}

#[test]
fn a_call_is_unsupported() {
    assert_eq!(compile("call f;"), Err(CompileError::Unsupported));
    assert_eq!(compile("var x = 1; if x == 1; call f: a = 1; endif;"), Err(CompileError::Unsupported));
}

#[test]
fn the_first_failure_is_reported() {
    assert_eq!(compile("call f; print y;"), Err(CompileError::Syntax { statement: 1 }));
    assert_eq!(
        compile("print y; var 1;"),
        Err(CompileError::Syntax { statement: 0 })
    );
}

#[test]
fn an_unfinished_last_statement_is_dropped() {
    assert_eq!(compile("var x = 1; print x"), compile("var x = 1;"));
}

#[test]
fn lines_that_start_with_a_literal_are_passed_over() {
    assert_eq!(compile("5; var x = 1; (2 + 3);"), compile("var x = 1;"));
}

#[test]
fn contains_error_looks_inside() {
    assert!(contains_error(&ASTNode::Error));
    assert!(contains_error(&assign("x", ASTNode::Error)));
    assert!(contains_error(&ASTNode::Print(Box::new(ASTNode::BinaryOperation {
        op: "+".to_string(),
        left: Box::new(lit("1")),
        right: Box::new(ASTNode::Error),
    }))));
    assert!(contains_error(&ASTNode::IfOperation {
        first_half: Box::new(lit("1")),
        comparison_op: "<".to_string(),
        second_half: Box::new(lit("2")),
        content: vec![Box::new(lit("1")), Box::new(assign("x", ASTNode::Error))],
    }));
    assert!(contains_error(&ASTNode::ArrayDeclaration {
        arr_name: "a".to_string(),
        size: Box::new(ASTNode::Error),
    }));
    assert!(!contains_error(&assign("x", lit("1"))));
    assert!(!contains_error(&ASTNode::End));
    assert!(!contains_error(&ASTNode::WhileOperation {
        first_half: Box::new(lit("1")),
        comparison_op: "<".to_string(),
        second_half: Box::new(var("x")),
        content: vec![Box::new(lit("1"))],
    }));
}

#[test]
fn parse_program_gives_the_statements_and_the_table() {
    let (nodes, table) = parse_program(tokenize("var x = 2; print x;")).expect("parses");
    assert_eq!(nodes, vec![assign("x", lit("2")), ASTNode::Print(Box::new(var("x")))]);
    assert_eq!(table.len(), 1);
    assert_eq!(table.entry(0).vname, "x");
    assert_eq!(table.level(), 0);
}

#[test]
fn parse_program_registers_arrays() {
    let tokens = vec![
        Token::new(TokenType::Var, None),
        Token::new(TokenType::Variable, Some("arr".to_string())),
        Token::new(TokenType::OpenArray, Some("[".to_string())),
        Token::new(TokenType::IntLiteral, Some("5".to_string())),
        Token::new(TokenType::CloseArray, Some("]".to_string())),
        Token::new(TokenType::SemiColon, Some(";".to_string())),
    ];
    let (nodes, table) = parse_program(tokens).expect("parses");
    assert_eq!(
        nodes,
        vec![ASTNode::ArrayDeclaration { arr_name: "arr".to_string(), size: Box::new(lit("5")) }]
    );
    assert_eq!(table.entry(0).vtype, "arr");
    assert_eq!(table.entry(0).array_size, 5);
}

#[test]
fn parse_program_leaves_the_level_where_the_program_ends() {
    let (_, table) = parse_program(tokenize("var x; if x < 1; while x < 1;")).expect("parses");
    assert_eq!(table.level(), 2);
}
