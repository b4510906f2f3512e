use idk::ast::ASTNode;
use idk::parser::{binding_of, find, is_error, precedence_of, rest, slice, Parser, Scan};
use idk::symbol_table::SymbolTable;
use idk::token::{Token, TokenType};
use idk::tokenizer::tokenize;

fn token(ttype: TokenType, value: &str) -> Token {
    Token::new(ttype, Some(value.to_string()))
}

fn lit(text: &str) -> ASTNode {
    ASTNode::Literal(text.to_string())
}

fn var(name: &str) -> ASTNode {
    ASTNode::Variable(name.to_string())
}

fn bin(op: &str, left: ASTNode, right: ASTNode) -> ASTNode {
    ASTNode::BinaryOperation { op: op.to_string(), left: Box::new(left), right: Box::new(right) }
}

fn assign(name: &str, expr: ASTNode) -> ASTNode {
    ASTNode::Assignment { var_name: name.to_string(), expr: Box::new(expr) }
}

/// A table with the scalars `a`, `b`, `c`, `x`, `y` and the array `arr`.
fn table() -> SymbolTable {
    let mut table = SymbolTable::new();
    for name in ["a", "b", "c", "x", "y"] {
        table.add_to_table(name.to_string(), "int".to_string(), 0);
    }
    table.add_to_table("arr".to_string(), "arr".to_string(), 5);
    table
}

fn parser_with_table() -> Parser {
    Parser::new(Vec::new(), table())
}

fn expression(source: &str) -> ASTNode {
    parser_with_table().parse_expression(&tokenize(source))
}

fn texts(tokens: &[Token]) -> Vec<String> {
    tokens.iter().map(|t| t.value.clone().unwrap_or_default()).collect()
}

fn rpn(source: &str) -> Vec<String> {
    texts(&Parser::convert_to_rpn(&tokenize(source)))
}

/// `arr [ 2 ]` with the bracket tokens that the lexer does not make.
fn subscript(name: &str, index: &str) -> Vec<Token> {
    vec![
        token(TokenType::Variable, name),
        token(TokenType::OpenArray, "["),
        token(TokenType::IntLiteral, index),
        token(TokenType::CloseArray, "]"),
    ]
}

#[test]
fn precedence_of_the_five_operators() {
    assert_eq!(precedence_of("+"), 1);
    assert_eq!(precedence_of("-"), 1);
    assert_eq!(precedence_of("*"), 2);
    assert_eq!(precedence_of("/"), 2);
    assert_eq!(precedence_of("^"), 3);
}

#[test]
fn precedence_of_anything_else_is_lowest() {
    assert_eq!(precedence_of("%"), 0);
    assert_eq!(precedence_of("("), 0);
    assert_eq!(precedence_of(""), 0);
    assert_eq!(precedence_of("++"), 0);
    assert_eq!(binding_of(&Token::new(TokenType::BinaryOperator, None)), 0);
    assert_eq!(binding_of(&token(TokenType::BinaryOperator, "*")), 2);
}

#[test]
fn rpn_of_operands_and_operators() {
    assert_eq!(rpn("2 + 3"), ["2", "3", "+"]);
    assert_eq!(rpn("2 + 3 * 4"), ["2", "3", "4", "*", "+"]);
    assert_eq!(rpn("2 * 3 + 4"), ["2", "3", "*", "4", "+"]);
    assert_eq!(rpn("a ^ b * c + x"), ["a", "b", "^", "c", "*", "x", "+"]);
    assert_eq!(rpn("a + b * c ^ x"), ["a", "b", "c", "x", "^", "*", "+"]);
}

#[test]
fn rpn_groups_equal_precedence_from_the_left() {
    assert_eq!(rpn("2 - 3 - 4"), ["2", "3", "-", "4", "-"]);
    assert_eq!(rpn("8 / 4 / 2"), ["8", "4", "/", "2", "/"]);
    assert_eq!(rpn("8 / 4 * 2"), ["8", "4", "/", "2", "*"]);
    assert_eq!(rpn("2 ^ 3 ^ 4"), ["2", "3", "^", "4", "^"]);
    assert_eq!(rpn("1 + 2 - 3 + 4"), ["1", "2", "+", "3", "-", "4", "+"]);
}

#[test]
fn rpn_drops_matched_brackets() {
    assert_eq!(rpn("(2 + 3) * 4"), ["2", "3", "+", "4", "*"]);
    assert_eq!(rpn("2 * (3 + 4)"), ["2", "3", "4", "+", "*"]);
    assert_eq!(rpn("((a))"), ["a"]);
    assert_eq!(rpn("2 - (3 - 4)"), ["2", "3", "4", "-", "-"]);
    assert_eq!(rpn("(a + b) * (c - x)"), ["a", "b", "+", "c", "x", "-", "*"]);
}

#[test]
fn rpn_keeps_an_unmatched_opening_bracket() {
    assert_eq!(rpn("(2 + 3"), ["2", "3", "+", "("]);
    assert_eq!(rpn("2 + 3)"), ["2", "3", "+"]);
    assert_eq!(rpn(")"), Vec::<String>::new());
}

#[test]
fn rpn_passes_over_other_tokens() {
    assert_eq!(rpn("a ; b , c : = <"), ["a", "b", "c"]);
    assert_eq!(rpn("var 1 print"), ["1"]);
    assert_eq!(rpn(""), Vec::<String>::new());
    assert_eq!(texts(&Parser::convert_to_rpn(&subscript("arr", "2"))), ["arr", "2"]);
}

#[test]
fn rpn_of_an_unknown_operator_lets_everything_go_first() {
    let tokens = vec![
        token(TokenType::IntLiteral, "1"),
        token(TokenType::BinaryOperator, "+"),
        token(TokenType::IntLiteral, "2"),
        token(TokenType::BinaryOperator, "%"),
        token(TokenType::IntLiteral, "3"),
    ];
    assert_eq!(texts(&Parser::convert_to_rpn(&tokens)), ["1", "2", "+", "3", "%"]);
}

#[test]
fn multiplication_binds_tighter_than_addition() {
    assert_eq!(expression("2 + 3 * 4"), bin("+", lit("2"), bin("*", lit("3"), lit("4"))));
    assert_ne!(expression("2 + 3 * 4"), bin("*", bin("+", lit("2"), lit("3")), lit("4")));
    assert_eq!(expression("2 * 3 + 4"), bin("+", bin("*", lit("2"), lit("3")), lit("4")));
}

#[test]
fn power_binds_tightest() {
    assert_eq!(
        expression("a + b * c ^ x"),
        bin("+", var("a"), bin("*", var("b"), bin("^", var("c"), var("x"))))
    );
    assert_eq!(
        expression("a ^ b * c"),
        bin("*", bin("^", var("a"), var("b")), var("c"))
    );
}

#[test]
fn equal_precedence_groups_from_the_left() {
    assert_eq!(expression("2 - 3 - 4"), bin("-", bin("-", lit("2"), lit("3")), lit("4")));
    assert_eq!(expression("8 / 4 / 2"), bin("/", bin("/", lit("8"), lit("4")), lit("2")));
    assert_eq!(expression("a - b + c"), bin("+", bin("-", var("a"), var("b")), var("c")));
    assert_eq!(expression("2 ^ 3 ^ 4"), bin("^", bin("^", lit("2"), lit("3")), lit("4")));
}

#[test]
fn brackets_group_first() {
    assert_eq!(expression("(2 + 3) * 4"), bin("*", bin("+", lit("2"), lit("3")), lit("4")));
    assert_eq!(expression("2 - (3 - 4)"), bin("-", lit("2"), bin("-", lit("3"), lit("4"))));
    assert_eq!(expression("((x))"), var("x"));
    assert_eq!(expression("(x + y)"), bin("+", var("x"), var("y")));
}

#[test]
fn a_leaf_is_an_expression() {
    assert_eq!(expression("7"), lit("7"));
    assert_eq!(expression("x"), var("x"));
}

#[test]
fn a_declared_scalar_resolves() {
    let mut parser = Parser::new(tokenize("var q = 1;"), SymbolTable::new());
    assert_eq!(parser.parse(), assign("q", lit("1")));
    assert_eq!(parser.parse_expression(&tokenize("q")), var("q"));
    assert_eq!(parser.parse_expression(&tokenize("q + 1")), bin("+", var("q"), lit("1")));
}

#[test]
fn an_undeclared_name_is_an_error() {
    assert_eq!(expression("nope"), ASTNode::Error);
    assert_eq!(expression("1 + nope"), ASTNode::Error);
    assert_eq!(expression("nope + 1"), ASTNode::Error);
    assert_eq!(expression("1 nope"), ASTNode::Error);
    assert_eq!(expression("(a + nope) * 2"), ASTNode::Error);
}

#[test]
fn a_malformed_expression_is_an_error() {
    assert_eq!(expression(""), ASTNode::Error);
    assert_eq!(expression("1 2"), ASTNode::Error);
    assert_eq!(expression("+"), ASTNode::Error);
    assert_eq!(expression("1 +"), ASTNode::Error);
    assert_eq!(expression("+ 1"), ASTNode::Error);
    assert_eq!(expression("(1 + 2"), ASTNode::Error);
    assert_eq!(expression("()"), ASTNode::Error);
}

#[test]
fn a_token_without_text_is_an_error() {
    let parser = parser_with_table();
    assert_eq!(
        parser.parse_expression(&vec![Token::new(TokenType::IntLiteral, None)]),
        ASTNode::Error
    );
    assert_eq!(
        parser.parse_expression(&vec![Token::new(TokenType::Variable, None)]),
        ASTNode::Error
    );
    assert_eq!(
        parser.parse_expression(&vec![
            token(TokenType::IntLiteral, "1"),
            Token::new(TokenType::BinaryOperator, None),
            token(TokenType::IntLiteral, "2"),
        ]),
        ASTNode::Error
    );
}

#[test]
fn a_name_of_another_kind_is_passed_over() {
    let mut table = SymbolTable::new();
    table.add_to_table("f".to_string(), "func".to_string(), 0);
    let parser = Parser::new(Vec::new(), table);
    assert_eq!(parser.parse_expression(&tokenize("f")), ASTNode::Error);
    assert_eq!(parser.parse_expression(&tokenize("1 f")), lit("1"));
}

#[test]
fn an_array_name_gives_an_indexed_read() {
    let parser = parser_with_table();
    assert_eq!(
        parser.parse_expression(&subscript("arr", "2")),
        ASTNode::Array { arr_name: "arr".to_string(), index: Box::new(lit("2")) }
    );
    let mut tokens = subscript("arr", "2");
    tokens.insert(3, token(TokenType::BinaryOperator, "+"));
    tokens.insert(4, token(TokenType::Variable, "x"));
    assert_eq!(
        parser.parse_expression(&tokens),
        ASTNode::Array {
            arr_name: "arr".to_string(),
            index: Box::new(bin("+", lit("2"), var("x"))),
        }
    );
}

#[test]
fn an_array_name_alone_has_an_error_for_its_index() {
    let parser = parser_with_table();
    assert_eq!(
        parser.parse_expression(&tokenize("arr")),
        ASTNode::Array { arr_name: "arr".to_string(), index: Box::new(ASTNode::Error) }
    );
    assert_eq!(
        parser.parse_expression(&tokenize("arr x")),
        ASTNode::Array { arr_name: "arr".to_string(), index: Box::new(ASTNode::Error) }
    );
}

#[test]
fn an_array_name_later_in_the_expression_takes_the_index_from_the_third_token() {
    // `1 + arr [ 2 ]`: the index is read from `arr [ 2 ]`, the third token
    // on, which is again an indexed read.
    let parser = parser_with_table();
    let mut tokens = vec![token(TokenType::IntLiteral, "1"), token(TokenType::BinaryOperator, "+")];
    tokens.extend(subscript("arr", "2"));
    assert_eq!(
        parser.parse_expression(&tokens),
        ASTNode::Array {
            arr_name: "arr".to_string(),
            index: Box::new(ASTNode::Array {
                arr_name: "arr".to_string(),
                index: Box::new(lit("2")),
            }),
        }
    );
}

#[test]
fn slices_are_clamped() {
    let tokens = tokenize("a b c x");
    assert_eq!(texts(&slice(&tokens, 1, 3)), ["b", "c"]);
    assert_eq!(texts(&slice(&tokens, 0, 4)), ["a", "b", "c", "x"]);
    assert!(slice(&tokens, 2, 2).is_empty());
    assert!(slice(&tokens, 3, 2).is_empty());
    assert!(slice(&tokens, 1, 5).is_empty());
    assert_eq!(texts(&rest(&tokens, 2)), ["c", "x"]);
    assert!(rest(&tokens, 4).is_empty());
    assert!(rest(&tokens, 9).is_empty());
}

#[test]
fn find_gives_the_first_position_or_the_length() {
    let tokens = tokenize("a = b = c");
    assert_eq!(find(&tokens, TokenType::AssignmentOperator, 0), 1);
    assert_eq!(find(&tokens, TokenType::AssignmentOperator, 1), 1);
    assert_eq!(find(&tokens, TokenType::AssignmentOperator, 2), 3);
    assert_eq!(find(&tokens, TokenType::AssignmentOperator, 4), 5);
    assert_eq!(find(&tokens, TokenType::Comma, 0), 5);
    assert_eq!(find(&tokens, TokenType::Variable, 7), 5);
}

#[test]
fn is_error_tells_the_error_node() {
    assert!(is_error(&ASTNode::Error));
    assert!(!is_error(&ASTNode::End));
    assert!(!is_error(&assign("x", ASTNode::Error)));
}

#[test]
fn a_declaration_alone_sets_zero() {
    let mut parser = Parser::new(Vec::new(), SymbolTable::new());
    assert_eq!(parser.parse_assignment(&tokenize("var n")), assign("n", lit("0")));
    let entry = parser.symbol_table().check_table("n".to_string()).expect("n is declared");
    assert_eq!(entry.vtype, "int");
    assert_eq!(entry.array_size, 0);
    assert_eq!(entry.level(), 0);
}

#[test]
fn a_declaration_with_a_value() {
    let mut parser = parser_with_table();
    assert_eq!(
        parser.parse_assignment(&tokenize("var n = a + 2 * b")),
        assign("n", bin("+", var("a"), bin("*", lit("2"), var("b"))))
    );
    assert!(parser.symbol_table().check_table("n".to_string()).is_some());
    assert_eq!(parser.symbol_table().len(), 7);
}

#[test]
fn a_declaration_may_mention_the_name_it_declares() {
    let mut parser = Parser::new(Vec::new(), SymbolTable::new());
    assert_eq!(
        parser.parse_assignment(&tokenize("var n = n + 1")),
        assign("n", bin("+", var("n"), lit("1")))
    );
}

#[test]
fn a_declaration_with_a_bad_value_holds_an_error_and_still_declares() {
    let mut parser = Parser::new(Vec::new(), SymbolTable::new());
    assert_eq!(parser.parse_assignment(&tokenize("var n = m")), assign("n", ASTNode::Error));
    assert!(parser.symbol_table().check_table("n".to_string()).is_some());
}

#[test]
fn a_declaration_of_an_array_registers_its_length() {
    let mut parser = Parser::new(Vec::new(), SymbolTable::new());
    let mut segment = vec![Token::new(TokenType::Var, None)];
    segment.extend(subscript("arr", "5"));
    assert_eq!(
        parser.parse_assignment(&segment),
        ASTNode::ArrayDeclaration { arr_name: "arr".to_string(), size: Box::new(lit("5")) }
    );
    let entry = parser.symbol_table().check_table("arr".to_string()).expect("arr is declared");
    assert_eq!(entry.vtype, "arr");
    assert_eq!(entry.array_size, 5);
}

#[test]
fn a_declaration_of_an_array_with_a_name_for_its_size_registers_nothing() {
    let mut parser = parser_with_table();
    let segment = vec![
        Token::new(TokenType::Var, None),
        token(TokenType::Variable, "big"),
        token(TokenType::OpenArray, "["),
        token(TokenType::Variable, "x"),
        token(TokenType::CloseArray, "]"),
    ];
    assert_eq!(
        parser.parse_assignment(&segment),
        ASTNode::ArrayDeclaration { arr_name: "big".to_string(), size: Box::new(var("x")) }
    );
    assert!(parser.symbol_table().check_table("big".to_string()).is_none());
    assert_eq!(parser.symbol_table().len(), 6);
}

#[test]
fn a_declaration_of_an_array_with_a_literal_that_is_no_number_is_an_error() {
    let mut parser = Parser::new(Vec::new(), SymbolTable::new());
    let mut segment = vec![Token::new(TokenType::Var, None)];
    segment.extend(subscript("arr", "five"));
    assert_eq!(parser.parse_assignment(&segment), ASTNode::Error);
    assert_eq!(parser.symbol_table().len(), 0);
    let mut segment = vec![Token::new(TokenType::Var, None)];
    segment.extend(subscript("arr", "4294967296"));
    assert_eq!(parser.parse_assignment(&segment), ASTNode::Error);
    let mut segment = vec![Token::new(TokenType::Var, None)];
    segment.extend(subscript("arr", "4294967295"));
    assert_eq!(
        parser.parse_assignment(&segment),
        ASTNode::ArrayDeclaration { arr_name: "arr".to_string(), size: Box::new(lit("4294967295")) }
    );
    assert_eq!(parser.symbol_table().entry(0).array_size, 4294967295);
}

#[test]
fn a_declaration_followed_by_something_else_is_an_error() {
    let mut parser = Parser::new(Vec::new(), SymbolTable::new());
    assert_eq!(parser.parse_assignment(&tokenize("var n + 1")), ASTNode::Error);
    assert_eq!(parser.parse_assignment(&tokenize("var")), ASTNode::Error);
    assert_eq!(parser.parse_assignment(&tokenize("var var")), ASTNode::Error);
    assert_eq!(parser.parse_assignment(&Vec::new()), ASTNode::Error);
    assert_eq!(parser.symbol_table().len(), 0);
}

#[test]
fn an_assignment_to_a_name() {
    let mut parser = parser_with_table();
    assert_eq!(
        parser.parse_assignment(&tokenize("x = x + 1")),
        assign("x", bin("+", var("x"), lit("1")))
    );
    assert_eq!(parser.symbol_table().len(), 6);
    // The target is not looked up.
    assert_eq!(parser.parse_assignment(&tokenize("unknown = 1")), assign("unknown", lit("1")));
}

#[test]
fn an_assignment_to_an_array_element() {
    let mut parser = parser_with_table();
    let mut segment = subscript("arr", "2");
    segment.push(token(TokenType::AssignmentOperator, "="));
    segment.push(token(TokenType::IntLiteral, "9"));
    assert_eq!(
        parser.parse_assignment(&segment),
        ASTNode::ArrayAssignment {
            arr_name: "arr".to_string(),
            position: Box::new(lit("2")),
            value: Box::new(lit("9")),
        }
    );
}

#[test]
fn a_name_without_an_assignment_is_an_error() {
    let mut parser = parser_with_table();
    assert_eq!(parser.parse_assignment(&tokenize("x")), ASTNode::Error);
    assert_eq!(parser.parse_assignment(&tokenize("x + 1")), ASTNode::Error);
    assert_eq!(parser.parse_assignment(&subscript("arr", "2")), ASTNode::Error);
}

#[test]
fn an_if_header_enters_a_block() {
    let mut parser = parser_with_table();
    assert_eq!(
        parser.parse_if(&tokenize("if a + 1 < b")),
        ASTNode::IfOperation {
            first_half: Box::new(bin("+", var("a"), lit("1"))),
            comparison_op: "<".to_string(),
            second_half: Box::new(var("b")),
            content: Vec::new(),
        }
    );
    assert_eq!(parser.symbol_table().level(), 1);
}

#[test]
fn a_while_header_enters_a_block() {
    let mut parser = parser_with_table();
    assert_eq!(
        parser.parse_while(&tokenize("while x =< 10")),
        ASTNode::WhileOperation {
            first_half: Box::new(var("x")),
            comparison_op: "=<".to_string(),
            second_half: Box::new(lit("10")),
            content: Vec::new(),
        }
    );
    assert_eq!(parser.symbol_table().level(), 1);
}

#[test]
fn a_header_without_comparison_is_an_error() {
    let mut parser = parser_with_table();
    assert_eq!(parser.parse_if(&tokenize("if a")), ASTNode::Error);
    assert_eq!(parser.parse_while(&tokenize("while a + b")), ASTNode::Error);
    assert_eq!(parser.parse_if(&tokenize("if")), ASTNode::Error);
    assert_eq!(parser.parse_if(&Vec::new()), ASTNode::Error);
    // A comparison operator in the first place is not looked at.
    assert_eq!(parser.parse_if(&tokenize("< a")), ASTNode::Error);
    assert_eq!(parser.symbol_table().level(), 0);
}

#[test]
fn a_header_with_a_bad_side_is_an_error() {
    let mut parser = parser_with_table();
    assert_eq!(parser.parse_if(&tokenize("if < b")), ASTNode::Error);
    assert_eq!(parser.parse_if(&tokenize("if a <")), ASTNode::Error);
    assert_eq!(parser.parse_if(&tokenize("if nope < b")), ASTNode::Error);
    assert_eq!(parser.parse_while(&tokenize("while a < nope")), ASTNode::Error);
    assert_eq!(parser.parse_while(&tokenize("while a < b < c")), ASTNode::Error);
    assert_eq!(parser.symbol_table().level(), 0);
}

#[test]
fn a_header_splits_at_the_first_comparison() {
    let mut parser = parser_with_table();
    assert_eq!(
        parser.parse_if(&tokenize("if a == b")),
        ASTNode::IfOperation {
            first_half: Box::new(var("a")),
            comparison_op: "==".to_string(),
            second_half: Box::new(var("b")),
            content: Vec::new(),
        }
    );
}

#[test]
fn a_function_definition_without_parameters() {
    assert_eq!(
        Parser::parse_func_def(&tokenize("func f")),
        ASTNode::FunctionDef { name: "f".to_string(), parameters: None }
    );
    assert_eq!(
        Parser::parse_func_def(&tokenize("func f :")),
        ASTNode::FunctionDef { name: "f".to_string(), parameters: Some(Vec::new()) }
    );
}

#[test]
fn a_function_definition_with_parameters() {
    assert_eq!(
        Parser::parse_func_def(&tokenize("func f : a")),
        ASTNode::FunctionDef { name: "f".to_string(), parameters: Some(vec!["a".to_string()]) }
    );
    assert_eq!(
        Parser::parse_func_def(&tokenize("func f : a, b, c")),
        ASTNode::FunctionDef {
            name: "f".to_string(),
            parameters: Some(vec!["a".to_string(), "b".to_string(), "c".to_string()]),
        }
    );
}

#[test]
fn a_malformed_function_definition_is_an_error() {
    assert_eq!(Parser::parse_func_def(&tokenize("func")), ASTNode::Error);
    assert_eq!(Parser::parse_func_def(&Vec::new()), ASTNode::Error);
    assert_eq!(Parser::parse_func_def(&tokenize("func if")), ASTNode::Error);
    assert_eq!(Parser::parse_func_def(&tokenize("func f : a, if")), ASTNode::Error);
}

#[test]
fn a_call_without_arguments() {
    assert_eq!(
        Parser::parse_func_call(&tokenize("call f")),
        ASTNode::FuntionCall { name: "f".to_string(), parameters: None }
    );
    assert_eq!(
        Parser::parse_func_call(&tokenize("call f :")),
        ASTNode::FuntionCall { name: "f".to_string(), parameters: Some(Vec::new()) }
    );
}

#[test]
fn a_call_with_arguments() {
    assert_eq!(
        Parser::parse_func_call(&tokenize("call f : a = 1")),
        ASTNode::FuntionCall {
            name: "f".to_string(),
            parameters: Some(vec![("a".to_string(), "1".to_string())]),
        }
    );
    assert_eq!(
        Parser::parse_func_call(&tokenize("call f : a = 1, b = x, c = 3")),
        ASTNode::FuntionCall {
            name: "f".to_string(),
            parameters: Some(vec![
                ("a".to_string(), "1".to_string()),
                ("b".to_string(), "x".to_string()),
                ("c".to_string(), "3".to_string()),
            ]),
        }
    );
}

#[test]
fn a_call_with_a_trailing_comma_keeps_the_pair_before_it() {
    assert_eq!(
        Parser::parse_func_call(&tokenize("call f : a = 1,")),
        ASTNode::FuntionCall {
            name: "f".to_string(),
            parameters: Some(vec![("a".to_string(), "1".to_string())]),
        }
    );
}

#[test]
fn a_malformed_call_is_an_error() {
    assert_eq!(Parser::parse_func_call(&tokenize("call")), ASTNode::Error);
    assert_eq!(Parser::parse_func_call(&Vec::new()), ASTNode::Error);
    assert_eq!(Parser::parse_func_call(&tokenize("call if")), ASTNode::Error);
    assert_eq!(Parser::parse_func_call(&tokenize("call f : a")), ASTNode::Error);
    assert_eq!(Parser::parse_func_call(&tokenize("call f : a =")), ASTNode::Error);
    assert_eq!(Parser::parse_func_call(&tokenize("call f : a = 1, b")), ASTNode::Error);
    assert_eq!(Parser::parse_func_call(&tokenize("call f : a = if")), ASTNode::Error);
}

#[test]
fn a_print_statement_wraps_its_expression() {
    let mut parser = parser_with_table();
    assert_eq!(
        parser.parse_print(&tokenize("print (x + y)")),
        ASTNode::Print(Box::new(bin("+", var("x"), var("y"))))
    );
    assert_eq!(parser.parse_print(&tokenize("print nope")), ASTNode::Print(Box::new(ASTNode::Error)));
    assert_eq!(parser.parse_print(&tokenize("print")), ASTNode::Error);
    assert_eq!(parser.parse_print(&Vec::new()), ASTNode::Error);
}

#[test]
fn a_statement_is_told_by_its_first_token() {
    let mut parser = parser_with_table();
    assert_eq!(parser.parse_statement(&tokenize("var n")), Some(assign("n", lit("0"))));
    assert_eq!(parser.parse_statement(&tokenize("x = 1")), Some(assign("x", lit("1"))));
    assert_eq!(parser.parse_statement(&tokenize("endfunc")), Some(ASTNode::EndFunctionDef));
    assert_eq!(
        parser.parse_statement(&tokenize("print 1")),
        Some(ASTNode::Print(Box::new(lit("1"))))
    );
    assert_eq!(
        parser.parse_statement(&tokenize("func f")),
        Some(ASTNode::FunctionDef { name: "f".to_string(), parameters: None })
    );
    assert_eq!(
        parser.parse_statement(&tokenize("call f")),
        Some(ASTNode::FuntionCall { name: "f".to_string(), parameters: None })
    );
}

#[test]
fn a_segment_that_starts_no_statement_is_passed_over() {
    let mut parser = parser_with_table();
    assert_eq!(parser.parse_statement(&tokenize("5")), None);
    assert_eq!(parser.parse_statement(&tokenize("(x + 1)")), None);
    assert_eq!(parser.parse_statement(&tokenize("return")), None);
    assert_eq!(parser.parse_statement(&Vec::new()), None);
}

#[test]
fn end_markers_leave_the_block() {
    let mut parser = parser_with_table();
    parser.parse_if(&tokenize("if a < b"));
    parser.parse_while(&tokenize("while a < b"));
    assert_eq!(parser.symbol_table().level(), 2);
    assert_eq!(parser.parse_statement(&tokenize("endwhile")), Some(ASTNode::EndWhile));
    assert_eq!(parser.symbol_table().level(), 1);
    assert_eq!(parser.parse_statement(&tokenize("endif")), Some(ASTNode::EndIf));
    assert_eq!(parser.symbol_table().level(), 0);
}

#[test]
fn an_end_marker_at_the_outermost_level_is_an_error() {
    let mut parser = parser_with_table();
    assert_eq!(parser.parse_statement(&tokenize("endif")), Some(ASTNode::Error));
    assert_eq!(parser.parse_statement(&tokenize("endwhile")), Some(ASTNode::Error));
    assert_eq!(parser.symbol_table().level(), 0);
}

#[test]
fn a_new_parser_resets_the_level() {
    let mut table = SymbolTable::new();
    table.up();
    table.up();
    let parser = Parser::new(Vec::new(), table);
    assert_eq!(parser.symbol_table().level(), 0);
    assert_eq!(parser.position(), 0);
    assert_eq!(parser.into_symbol_table().level(), 0);
}

#[test]
fn parse_gives_one_node_per_statement_and_then_the_end() {
    let mut parser = Parser::new(
        tokenize("var x = 2; var y = 3; print (x + y);"),
        SymbolTable::new(),
    );
    assert_eq!(parser.parse(), assign("x", lit("2")));
    assert_eq!(parser.position(), 5);
    assert_eq!(parser.parse(), assign("y", lit("3")));
    assert_eq!(parser.parse(), ASTNode::Print(Box::new(bin("+", var("x"), var("y")))));
    assert_eq!(parser.parse(), ASTNode::End);
    assert_eq!(parser.parse(), ASTNode::End);
    assert_eq!(parser.position(), 17);
    let table = parser.into_symbol_table();
    assert_eq!(table.len(), 2);
}

#[test]
fn parse_of_nothing_is_the_end() {
    let mut parser = Parser::new(Vec::new(), SymbolTable::new());
    assert_eq!(parser.parse(), ASTNode::End);
}

#[test]
fn parse_of_an_unfinished_statement_is_the_end() {
    let mut parser = Parser::new(tokenize("var x = 1"), SymbolTable::new());
    assert_eq!(parser.parse(), ASTNode::End);
    assert_eq!(parser.position(), 4);
    assert_eq!(parser.symbol_table().len(), 0);
}

#[test]
fn parse_of_a_token_without_transition_is_an_error() {
    let mut parser = Parser::new(tokenize("var 1;"), SymbolTable::new());
    assert_eq!(parser.parse(), ASTNode::Error);
    assert_eq!(parser.position(), 2);
}

#[test]
fn parse_passes_over_lines_that_start_with_a_literal_or_a_bracket() {
    let mut parser = Parser::new(tokenize("5; (1 + 2); var x;"), SymbolTable::new());
    assert_eq!(parser.parse(), assign("x", lit("0")));
    assert_eq!(parser.parse(), ASTNode::End);
}

#[test]
fn parse_reads_blocks_as_flat_statements() {
    let mut parser = Parser::new(
        tokenize("var i = 0; while i < 3; i = i + 1; endwhile;"),
        SymbolTable::new(),
    );
    assert_eq!(parser.parse(), assign("i", lit("0")));
    assert_eq!(
        parser.parse(),
        ASTNode::WhileOperation {
            first_half: Box::new(var("i")),
            comparison_op: "<".to_string(),
            second_half: Box::new(lit("3")),
            content: Vec::new(),
        }
    );
    assert_eq!(parser.symbol_table().level(), 1);
    assert_eq!(parser.parse(), assign("i", bin("+", var("i"), lit("1"))));
    assert_eq!(parser.parse(), ASTNode::EndWhile);
    assert_eq!(parser.symbol_table().level(), 0);
    assert_eq!(parser.parse(), ASTNode::End);
}

#[test]
fn a_name_declared_in_a_block_is_hidden_after_it_and_seen_in_the_next_block() {
    let source = "if 1 < 2; var inner = 1; endif; print inner; if 1 < 2; print inner; endif;";
    let mut parser = Parser::new(tokenize(source), SymbolTable::new());
    parser.parse();
    assert_eq!(parser.parse(), assign("inner", lit("1")));
    assert_eq!(parser.parse(), ASTNode::EndIf);
    assert_eq!(parser.parse(), ASTNode::Print(Box::new(ASTNode::Error)));
    parser.parse();
    assert_eq!(parser.parse(), ASTNode::Print(Box::new(var("inner"))));
}

#[test]
fn next_segment_reports_what_it_finds() {
    let mut parser = Parser::new(tokenize("var x; print x; var 1;"), SymbolTable::new());
    assert_eq!(format!("{:?}", parser.next_segment()), format!("{:?}", Scan::Segment(tokenize("var x"))));
    assert_eq!(parser.position(), 3);
    match parser.next_segment() {
        Scan::Segment(segment) => assert_eq!(segment, tokenize("print x")),
        other => panic!("unexpected {:?}", other),
    }
    match parser.next_segment() {
        Scan::Rejected { state, kind, position } => {
            assert_eq!(state, 4);
            assert_eq!(kind, TokenType::IntLiteral);
            assert_eq!(position, 1);
        }
        other => panic!("unexpected {:?}", other),
    }
    assert_eq!(parser.position(), 8);
    // The automaton has not moved: the terminator is rejected too.
    match parser.next_segment() {
        Scan::Rejected { state, kind, position } => {
            assert_eq!(state, 4);
            assert_eq!(kind, TokenType::SemiColon);
            assert_eq!(position, 1);
        }
        other => panic!("unexpected {:?}", other),
    }
    match parser.next_segment() {
        Scan::Exhausted => {}
        other => panic!("unexpected {:?}", other),
    }
}

#[test]
fn a_declared_array_is_assigned_and_read_from_source_tokens() {
    let mut parser = Parser::new(
        tokenize("var arr[5]; arr[2] = 9; print arr[2]; var x = arr[x + 1];"),
        SymbolTable::new(),
    );
    assert_eq!(
        parser.parse(),
        ASTNode::ArrayDeclaration { arr_name: "arr".to_string(), size: Box::new(lit("5")) }
    );
    assert_eq!(
        parser.parse(),
        ASTNode::ArrayAssignment {
            arr_name: "arr".to_string(),
            position: Box::new(lit("2")),
            value: Box::new(lit("9")),
        }
    );
    assert_eq!(
        parser.parse(),
        ASTNode::Print(Box::new(ASTNode::Array {
            arr_name: "arr".to_string(),
            index: Box::new(lit("2")),
        }))
    );
    assert_eq!(
        parser.parse(),
        assign(
            "x",
            ASTNode::Array {
                arr_name: "arr".to_string(),
                index: Box::new(bin("+", var("x"), lit("1"))),
            }
        )
    );
    assert_eq!(parser.parse(), ASTNode::End);
    let table = parser.into_symbol_table();
    assert_eq!(table.len(), 2);
    assert_eq!(table.entry(0).vname, "arr");
    assert_eq!(table.entry(0).vtype, "arr");
    assert_eq!(table.entry(0).array_size, 5);
}

#[test]
fn a_header_is_parsed_from_source_tokens() {
    let mut parser = Parser::new(tokenize("var a; var b; if a < b; endif;"), SymbolTable::new());
    parser.parse();
    parser.parse();
    assert_eq!(
        parser.parse(),
        ASTNode::IfOperation {
            first_half: Box::new(var("a")),
            comparison_op: "<".to_string(),
            second_half: Box::new(var("b")),
            content: Vec::new(),
        }
    );
    assert_eq!(parser.parse(), ASTNode::EndIf);
}

fn if_node(left: ASTNode, op: &str, right: ASTNode) -> ASTNode {
    ASTNode::IfOperation {
        first_half: Box::new(left),
        comparison_op: op.to_string(),
        second_half: Box::new(right),
        content: Vec::new(),
    }
}

#[test]
fn a_condition_in_brackets_as_a_whole_is_an_error() {
    let parse = |source: &str| parser_with_table().parse_if(&tokenize(source));
    assert_eq!(parse("if (a < b)"), ASTNode::Error);
    assert_eq!(parse("if (a + 1 == b * 2)"), ASTNode::Error);
    assert_eq!(parse("if ((a) < (b + 1))"), ASTNode::Error);
    assert_eq!(
        parser_with_table().parse_while(&tokenize("while (x =< 10)")),
        ASTNode::Error
    );
}

#[test]
fn a_condition_that_fails_leaves_the_table_as_it_was() {
    let mut parser = parser_with_table();
    let before = parser.symbol_table().describe();
    let level = parser.symbol_table().level();
    assert_eq!(parser.parse_if(&tokenize("if (a < b)")), ASTNode::Error);
    assert_eq!(parser.symbol_table().describe(), before);
    assert_eq!(parser.symbol_table().level(), level);
    assert_eq!(parser.parse_while(&tokenize("while (a < b)")), ASTNode::Error);
    assert_eq!(parser.symbol_table().describe(), before);
    assert_eq!(parser.symbol_table().level(), level);
    assert_eq!(parser.parse_if(&tokenize("if a < b")), if_node(var("a"), "<", var("b")));
    assert_eq!(parser.symbol_table().level(), level + 1);
}

#[test]
fn each_side_of_a_condition_may_stand_in_brackets() {
    let parse = |source: &str| parser_with_table().parse_if(&tokenize(source));
    assert_eq!(parse("if (a) < (b)"), if_node(var("a"), "<", var("b")));
    assert_eq!(
        parse("if (a + 1) * 2 > (b)"),
        if_node(bin("*", bin("+", var("a"), lit("1")), lit("2")), ">", var("b"))
    );
}

#[test]
fn brackets_that_do_not_match_in_a_condition_are_an_error() {
    let parse = |source: &str| parser_with_table().parse_if(&tokenize(source));
    assert_eq!(parse("if (a < b"), ASTNode::Error);
    assert_eq!(parse("if ((a < b)"), ASTNode::Error);
    assert_eq!(parse("if ((a < b))"), ASTNode::Error);
    assert_eq!(parse("if (< b)"), ASTNode::Error);
    assert_eq!(parse("if (a <)"), ASTNode::Error);
}

#[test]
fn an_assignment_to_an_element_needs_a_subscript_after_the_name() {
    let mut parser = parser_with_table();
    assert_eq!(parser.parse_assignment(&tokenize("a + b = 5")), ASTNode::Error);
    assert_eq!(parser.parse_assignment(&tokenize("a b = 5")), ASTNode::Error);
    assert_eq!(parser.parse_assignment(&tokenize("arr ] = 5")), ASTNode::Error);
    assert_eq!(
        parser.parse_assignment(&tokenize("arr[1] = 5")),
        ASTNode::ArrayAssignment {
            arr_name: "arr".to_string(),
            position: Box::new(lit("1")),
            value: Box::new(lit("5")),
        }
    );
}
