use idk::ast::{clone_names, clone_pairs, ASTNode, AST};

fn lit(text: &str) -> ASTNode {
    ASTNode::Literal(text.to_string())
}

fn var(name: &str) -> ASTNode {
    ASTNode::Variable(name.to_string())
}

fn assign(name: &str, expr: ASTNode) -> ASTNode {
    ASTNode::Assignment { var_name: name.to_string(), expr: Box::new(expr) }
}

fn if_node(op: &str, content: Vec<ASTNode>) -> ASTNode {
    ASTNode::IfOperation {
        first_half: Box::new(var("a")),
        comparison_op: op.to_string(),
        second_half: Box::new(var("b")),
        content: content.into_iter().map(Box::new).collect(),
    }
}

fn while_node(op: &str, content: Vec<ASTNode>) -> ASTNode {
    ASTNode::WhileOperation {
        first_half: Box::new(var("i")),
        comparison_op: op.to_string(),
        second_half: Box::new(lit("3")),
        content: content.into_iter().map(Box::new).collect(),
    }
}

fn nested(flat: Vec<ASTNode>) -> Vec<ASTNode> {
    let mut ast = AST::new(flat);
    ast.bttr_transform_ast();
    ast.get_nodes()
}

fn grouped(flat: Vec<ASTNode>) -> Vec<ASTNode> {
    let mut ast = AST::new(flat);
    ast.transform_ast();
    ast.get_nodes()
}

#[test]
fn a_new_tree_holds_its_nodes() {
    let ast = AST::new(vec![ASTNode::Start, lit("1")]);
    assert_eq!(ast.nodes, vec![ASTNode::Start, lit("1")]);
    assert_eq!(ast.get_nodes(), vec![ASTNode::Start, lit("1")]);
    assert_eq!(AST::new(Vec::new()).get_nodes(), Vec::new());
}

#[test]
fn add_node_appends() {
    let mut ast = AST::new(Vec::new());
    ast.add_node(ASTNode::Start);
    ast.add_node(assign("x", lit("1")));
    assert_eq!(ast.get_nodes(), vec![ASTNode::Start, assign("x", lit("1"))]);
}

#[test]
fn get_node_gives_the_node_or_nothing() {
    let ast = AST::new(vec![ASTNode::Start, lit("1")]);
    assert_eq!(ast.get_node(0), Some(&ASTNode::Start));
    assert_eq!(ast.get_node(1), Some(&lit("1")));
    assert_eq!(ast.get_node(2), None);
    assert_eq!(ast.get_node(usize::MAX), None);
}

#[test]
fn a_clone_is_equal_to_its_node() {
    let nodes = vec![
        assign("x", lit("1")),
        ASTNode::ArrayDeclaration { arr_name: "a".to_string(), size: Box::new(lit("3")) },
        ASTNode::ArrayAssignment {
            arr_name: "a".to_string(),
            position: Box::new(lit("1")),
            value: Box::new(var("x")),
        },
        ASTNode::BinaryOperation {
            op: "+".to_string(),
            left: Box::new(lit("1")),
            right: Box::new(lit("2")),
        },
        if_node("<", vec![assign("x", lit("2")), while_node(">", vec![ASTNode::Print(Box::new(var("x")))])]),
        ASTNode::EndIf,
        while_node("==", vec![]),
        ASTNode::EndWhile,
        ASTNode::FunctionDef { name: "f".to_string(), parameters: None },
        ASTNode::FunctionDef {
            name: "f".to_string(),
            parameters: Some(vec!["a".to_string(), "b".to_string()]),
        },
        ASTNode::EndFunctionDef,
        ASTNode::FuntionCall { name: "f".to_string(), parameters: None },
        ASTNode::FuntionCall {
            name: "f".to_string(),
            parameters: Some(vec![("a".to_string(), "1".to_string())]),
        },
        ASTNode::Array { arr_name: "a".to_string(), index: Box::new(lit("0")) },
        ASTNode::Print(Box::new(lit("1"))),
        lit("1"),
        var("x"),
        ASTNode::Start,
        ASTNode::End,
        ASTNode::Error,
    ];
    for node in &nodes {
        assert_eq!(&node.clone(), node);
        assert_eq!(&node.duplicate(), node);
    }
}

#[test]
fn lists_of_names_are_copied() {
    let names = vec!["a".to_string(), "bc".to_string()];
    assert_eq!(clone_names(&names), names);
    let pairs = vec![("a".to_string(), "1".to_string()), ("b".to_string(), "x".to_string())];
    assert_eq!(clone_pairs(&pairs), pairs);
}

#[test]
fn nesting_leaves_a_flat_program_alone() {
    let flat = vec![ASTNode::Start, assign("x", lit("1")), ASTNode::Print(Box::new(var("x")))];
    assert_eq!(nested(flat.clone()), flat);
    assert_eq!(nested(Vec::new()), Vec::new());
}

#[test]
fn nesting_gives_a_header_its_block() {
    let flat = vec![
        ASTNode::Start,
        if_node("<", vec![]),
        assign("x", lit("1")),
        assign("y", lit("2")),
        ASTNode::EndIf,
        assign("z", lit("3")),
    ];
    assert_eq!(
        nested(flat),
        vec![
            ASTNode::Start,
            if_node("<", vec![assign("x", lit("1")), assign("y", lit("2"))]),
            assign("z", lit("3")),
        ]
    );
}

#[test]
fn nesting_goes_to_any_depth() {
    let flat = vec![
        while_node("<", vec![]),
        assign("a", lit("1")),
        if_node("==", vec![]),
        assign("b", lit("2")),
        while_node(">", vec![]),
        assign("c", lit("3")),
        ASTNode::EndWhile,
        assign("d", lit("4")),
        ASTNode::EndIf,
        assign("e", lit("5")),
        ASTNode::EndWhile,
        assign("f", lit("6")),
    ];
    assert_eq!(
        nested(flat),
        vec![
            while_node(
                "<",
                vec![
                    assign("a", lit("1")),
                    if_node(
                        "==",
                        vec![
                            assign("b", lit("2")),
                            while_node(">", vec![assign("c", lit("3"))]),
                            assign("d", lit("4")),
                        ]
                    ),
                    assign("e", lit("5")),
                ]
            ),
            assign("f", lit("6")),
        ]
    );
}

#[test]
fn nesting_keeps_sibling_blocks_apart() {
    let flat = vec![
        if_node("<", vec![]),
        assign("a", lit("1")),
        ASTNode::EndIf,
        if_node(">", vec![]),
        assign("b", lit("2")),
        ASTNode::EndIf,
    ];
    assert_eq!(
        nested(flat),
        vec![
            if_node("<", vec![assign("a", lit("1"))]),
            if_node(">", vec![assign("b", lit("2"))]),
        ]
    );
}

#[test]
fn nesting_gives_an_empty_block_an_empty_body() {
    assert_eq!(nested(vec![if_node("<", vec![]), ASTNode::EndIf]), vec![if_node("<", vec![])]);
}

#[test]
fn nesting_replaces_a_body_that_was_there() {
    let flat = vec![if_node("<", vec![lit("9")]), assign("a", lit("1")), ASTNode::EndIf];
    assert_eq!(nested(flat), vec![if_node("<", vec![assign("a", lit("1"))])]);
}

#[test]
fn nesting_closes_an_open_block_at_the_end() {
    let flat = vec![if_node("<", vec![]), assign("a", lit("1")), while_node(">", vec![]), lit("1")];
    assert_eq!(
        nested(flat),
        vec![if_node("<", vec![assign("a", lit("1")), while_node(">", vec![lit("1")])])]
    );
}

#[test]
fn nesting_keeps_a_marker_that_closes_nothing() {
    let flat = vec![ASTNode::EndIf, assign("a", lit("1")), ASTNode::EndWhile];
    assert_eq!(nested(flat.clone()), flat);
    // Inside an `if` block an `endwhile` is a statement like any other.
    let flat = vec![if_node("<", vec![]), ASTNode::EndWhile, lit("1"), ASTNode::EndIf, lit("2")];
    assert_eq!(
        nested(flat),
        vec![if_node("<", vec![ASTNode::EndWhile, lit("1")]), lit("2")]
    );
}

#[test]
fn nesting_passes_sentinels_through() {
    let flat = vec![ASTNode::Start, ASTNode::Error, ASTNode::End];
    assert_eq!(nested(flat.clone()), flat);
}

#[test]
fn grouping_gives_a_header_the_statements_up_to_its_marker() {
    let flat = vec![
        ASTNode::Start,
        while_node("<", vec![]),
        assign("x", lit("1")),
        ASTNode::EndWhile,
        if_node(">", vec![]),
        assign("y", lit("2")),
        ASTNode::EndIf,
        assign("z", lit("3")),
    ];
    assert_eq!(
        grouped(flat),
        vec![
            ASTNode::Start,
            while_node("<", vec![assign("x", lit("1"))]),
            if_node(">", vec![assign("y", lit("2"))]),
            assign("z", lit("3")),
        ]
    );
}

#[test]
fn grouping_does_not_nest_blocks_in_blocks() {
    let flat = vec![
        while_node("<", vec![]),
        if_node("==", vec![]),
        assign("b", lit("2")),
        ASTNode::EndIf,
        ASTNode::EndWhile,
        lit("7"),
    ];
    assert_eq!(
        grouped(flat),
        vec![
            while_node(
                "<",
                vec![if_node("==", vec![]), assign("b", lit("2")), ASTNode::EndIf]
            ),
            lit("7"),
        ]
    );
}

#[test]
fn grouping_stops_at_the_first_marker_of_the_kind() {
    let flat = vec![
        if_node("<", vec![]),
        if_node(">", vec![]),
        ASTNode::EndIf,
        lit("1"),
        ASTNode::EndIf,
    ];
    assert_eq!(
        grouped(flat),
        vec![if_node("<", vec![if_node(">", vec![])]), lit("1"), ASTNode::EndIf]
    );
}

#[test]
fn grouping_closes_an_open_block_at_the_end() {
    let flat = vec![while_node("<", vec![]), lit("1"), lit("2")];
    assert_eq!(grouped(flat), vec![while_node("<", vec![lit("1"), lit("2")])]);
    assert_eq!(grouped(vec![if_node("<", vec![])]), vec![if_node("<", vec![])]);
    assert_eq!(grouped(Vec::new()), Vec::new());
}
