//! The pipeline: from source text to the assembly listing.

use crate::assembler::{bss_lines, data_lines, Assembler, AssemblerView, GenError};
use crate::ast::{boxed_views, nest, node_views, ASTNode, NodeView, AST};
use crate::bounds::lemma_parsed_labels;
use crate::emit::{block_label_count, block_supported, emit_block};
use crate::fsm::token_views;
use crate::parser::{lemma_scan_advances, Parser, ParserView, Scan, ScanView};
use crate::statement::statement;
use crate::symbol_table::{SymbolTable, TableView};
use crate::token::{Token, TokenType, TokenView};
use crate::tokenizer::{lex, tokenize};
use vstd::pervasive::unreached;
use vstd::prelude::*;

verus! {

/// Why a program was not compiled.
#[derive(Debug, PartialEq, Eq, Structural, Clone, Copy)]
pub enum CompileError {
    /// The automaton has no transition: it was in `state`, the token was
    /// of category `kind`, `position` tokens of the statement had been
    /// read before it, and `statement` statements had been parsed.
    Segmentation { state: i8, kind: TokenType, position: usize, statement: usize },
    /// The statement number `statement`, counted from zero, is malformed.
    Syntax { statement: usize },
    /// The program defines or calls a function: there is no code for
    /// these.
    Unsupported,
}

/// Whether `node` is the error node or holds one.
pub open spec fn has_error(node: NodeView) -> bool
    decreases node,
{
    match node {
        NodeView::Error => true,
        NodeView::Assignment { var_name, expr } => has_error(*expr),
        NodeView::ArrayDeclaration { arr_name, size } => has_error(*size),
        NodeView::ArrayAssignment { arr_name, position, value } => has_error(*position)
            || has_error(*value),
        NodeView::BinaryOperation { op, left, right } => has_error(*left) || has_error(*right),
        NodeView::IfOperation { first_half, comparison_op, second_half, content } => has_error(
            *first_half,
        ) || has_error(*second_half) || any_error(content),
        NodeView::WhileOperation { first_half, comparison_op, second_half, content } => has_error(
            *first_half,
        ) || has_error(*second_half) || any_error(content),
        NodeView::Array { arr_name, index } => has_error(*index),
        NodeView::Print(expr) => has_error(*expr),
        _ => false,
    }
}

/// Whether one of `nodes` is the error node or holds one.
pub open spec fn any_error(nodes: Seq<NodeView>) -> bool
    decreases nodes,
{
    nodes.len() > 0 && (any_error(nodes.drop_last()) || has_error(nodes.last()))
}

/// Whether `node` is the error node or holds one.
pub fn contains_error(node: &ASTNode) -> (yes: bool)
    ensures
        yes == has_error(node@),
    decreases node,
{
    match node {
        ASTNode::Error => true,
        ASTNode::Assignment { var_name: _, expr } => contains_error(expr),
        ASTNode::ArrayDeclaration { arr_name: _, size } => contains_error(size),
        ASTNode::ArrayAssignment { arr_name: _, position, value } => contains_error(position)
            || contains_error(value),
        ASTNode::BinaryOperation { op: _, left, right } => contains_error(left) || contains_error(
            right,
        ),
        ASTNode::IfOperation { first_half, comparison_op: _, second_half, content } => {
            proof {
                assert(node@->IfOperation_content =~= boxed_views(content@));
            }
            contains_error(first_half) || contains_error(second_half) || block_contains_error(
                content,
            )
        },
        ASTNode::WhileOperation { first_half, comparison_op: _, second_half, content } => {
            proof {
                assert(node@->WhileOperation_content =~= boxed_views(content@));
            }
            contains_error(first_half) || contains_error(second_half) || block_contains_error(
                content,
            )
        },
        ASTNode::Array { arr_name: _, index } => contains_error(index),
        ASTNode::Print(expr) => contains_error(expr),
        _ => false,
    }
}

/// An error among the first statements of a block is an error of the
/// block.
pub proof fn lemma_any_error_prefix(nodes: Seq<NodeView>, count: int)
    requires
        0 <= count <= nodes.len(),
        any_error(nodes.take(count)),
    ensures
        any_error(nodes),
    decreases nodes.len() - count,
{
    if count == nodes.len() {
        assert(nodes.take(count) == nodes);
    } else {
        assert(nodes.take(count + 1).drop_last() == nodes.take(count));
        lemma_any_error_prefix(nodes, count + 1);
    }
}

/// Whether one of the statements of `block` is the error node or holds
/// one.
pub fn block_contains_error(block: &Vec<Box<ASTNode>>) -> (yes: bool)
    ensures
        yes == any_error(boxed_views(block@)),
    decreases block,
{
    let ghost nodes = boxed_views(block@);
    let mut i: usize = 0;
    assert(nodes.take(0) =~= Seq::<NodeView>::empty());
    while i < block.len()
        invariant
            i <= block.len(),
            nodes == boxed_views(block@),
            !any_error(nodes.take(i as int)),
        decreases block.len() - i,
    {
        proof {
            assert(nodes.take(i + 1).drop_last() =~= nodes.take(i as int));
            assert(nodes.take(i + 1).last() == block@[i as int]@);
        }
        if contains_error(&block[i]) {
            proof {
                lemma_any_error_prefix(nodes, i + 1);
            }
            return true;
        }
        i += 1;
    }
    assert(nodes.take(i as int) =~= nodes);
    false
}

/// A parsed program: its statements in order, and the symbol table they
/// leave.
pub struct Program {
    pub nodes: Seq<NodeView>,
    pub table: TableView,
}

/// Why a program was not compiled.
pub enum Failure {
    Segmentation { state: i8, kind: TokenType, position: nat, statement: nat },
    Syntax { statement: nat },
    Unsupported,
}

impl View for CompileError {
    type V = Failure;

    open spec fn view(&self) -> Failure {
        match self {
            CompileError::Segmentation { state, kind, position, statement } => {
                Failure::Segmentation {
                    state: *state,
                    kind: *kind,
                    position: *position as nat,
                    statement: *statement as nat,
                }
            },
            CompileError::Syntax { statement } => Failure::Syntax { statement: *statement as nat },
            CompileError::Unsupported => Failure::Unsupported,
        }
    }
}

/// Parses statement after statement, after `nodes`, until no token is
/// left. The first token without a transition, and the first statement
/// that is an error or holds one, end the parse with that failure.
pub open spec fn parse_from(parser: ParserView, nodes: Seq<NodeView>) -> Result<Program, Failure>
    decreases parser.tokens.len() - parser.position,
{
    let scanned = parser.scan();
    match scanned.outcome {
        ScanView::Exhausted => Ok(Program { nodes, table: scanned.parser.table }),
        ScanView::Rejected { state, kind, position } => Err(
            Failure::Segmentation { state, kind, position, statement: nodes.len() },
        ),
        ScanView::Segment(segment) => {
            proof {
                lemma_scan_advances(parser);
            }
            match statement(segment, scanned.parser.table) {
                None => parse_from(scanned.parser, nodes),
                Some(parsed) => if has_error(parsed.node) {
                    Err(Failure::Syntax { statement: nodes.len() })
                } else {
                    parse_from(scanned.parser.with_table(parsed.table), nodes.push(parsed.node))
                },
            }
        },
    }
}

/// The statements of the program that `tokens` spell, and its symbol
/// table.
pub open spec fn program(tokens: Seq<TokenView>) -> Result<Program, Failure> {
    parse_from(
        ParserView {
            tokens,
            position: 0,
            machine: crate::fsm::FsmView::fresh(),
            table: TableView { entries: Seq::empty(), level: 0 },
        },
        Seq::empty(),
    )
}

/// The syntax tree of a parsed program: a start node, then the statements
/// with every block header owning its block.
pub open spec fn tree_of(program: Program) -> Seq<NodeView> {
    nest(seq![NodeView::Start] + program.nodes)
}

/// The listing of a parsed program.
pub open spec fn listing_of(program: Program) -> Result<Seq<char>, Failure> {
    let tree = tree_of(program);
    if !block_supported(tree) {
        Err(Failure::Unsupported)
    } else {
        Ok(
            (AssemblerView {
                tree,
                data: data_lines(program.table.entries),
                bss: bss_lines(program.table.entries),
                routines: Seq::empty(),
                code: Seq::empty(),
                labels: 0,
            }).after(emit_block(tree, 0)).listing(),
        )
    }
}

/// The listing of the program that `source` spells.
pub open spec fn compiled(source: Seq<char>) -> Result<Seq<char>, Failure> {
    match program(lex(source)) {
        Ok(program) => listing_of(program),
        Err(failure) => Err(failure),
    }
}

/// Parses the program that `tokens` spell.
pub fn parse_program(tokens: Vec<Token>) -> (parsed: Result<(Vec<ASTNode>, SymbolTable), CompileError>)
    ensures
        match parsed {
            Ok((nodes, table)) => program(token_views(tokens@)) == Ok::<Program, Failure>(
                Program { nodes: node_views(nodes@), table: table@ },
            ),
            Err(error) => program(token_views(tokens@)) == Err::<Program, Failure>(error@),
        },
{
    let ghost views = token_views(tokens@);
    let mut parser = Parser::new(tokens, SymbolTable::new());
    let mut nodes: Vec<ASTNode> = Vec::new();
    proof {
        assert(node_views(nodes@) =~= Seq::<NodeView>::empty());
        assert(parser@.table == TableView { entries: Seq::empty(), level: 0 });
    }
    loop
        invariant
            views == token_views(tokens@),
            parser@.tokens == views,
            nodes@.len() <= parser@.position <= views.len(),
            parse_from(parser@, node_views(nodes@)) == program(views),
        decreases views.len() - parser@.position,
    {
        let ghost before = parser@;
        let ghost done = node_views(nodes@);
        proof {
            lemma_scan_advances(before);
        }
        match parser.next_segment() {
            Scan::Exhausted => {
                let table = parser.into_symbol_table();
                return Ok((nodes, table));
            },
            Scan::Rejected { state, kind, position } => {
                return Err(
                    CompileError::Segmentation { state, kind, position, statement: nodes.len() },
                );
            },
            Scan::Segment(segment) => {
                match parser.parse_statement(&segment) {
                    Some(node) => {
                        if contains_error(&node) {
                            return Err(CompileError::Syntax { statement: nodes.len() });
                        }
                        nodes.push(node);
                        proof {
                            assert(node_views(nodes@) =~= done.push(node@));
                        }
                    },
                    None => {},
                }
            },
        }
    }
}

/// Compiles `source` to its assembly listing.
pub fn compile(source: &str) -> (listing: Result<String, CompileError>)
    ensures
        match listing {
            Ok(text) => compiled(source@) == Ok::<Seq<char>, Failure>(text@),
            Err(error) => compiled(source@) == Err::<Seq<char>, Failure>(error@),
        },
{
    let tokens = tokenize(source);
    let ghost views = token_views(tokens@);
    proof {
        lemma_parsed_labels(views);
        assert(views.len() == tokens.len());
    }
    match parse_program(tokens) {
        Err(error) => Err(error),
        Ok((nodes, table)) => {
            let ghost parsed = Program { nodes: node_views(nodes@), table: table@ };
            proof {
                assert(program(views) == Ok::<Program, Failure>(parsed));
                assert(block_label_count(tree_of(parsed)) <= usize::MAX);
            }
            let mut table = table;
            let mut ast = AST::new(Vec::new());
            ast.add_node(ASTNode::Start);
            let mut i: usize = 0;
            proof {
                assert(ast@ =~= seq![NodeView::Start] + parsed.nodes.take(0));
            }
            while i < nodes.len()
                invariant
                    i <= nodes@.len(),
                    parsed.nodes == node_views(nodes@),
                    ast@ == seq![NodeView::Start] + parsed.nodes.take(i as int),
                decreases nodes@.len() - i,
            {
                let ghost seen = ast@;
                let copy = nodes[i].duplicate();
                ast.add_node(copy);
                proof {
                    assert(parsed.nodes.take(i + 1) =~= parsed.nodes.take(i as int).push(copy@));
                    assert(ast@ =~= seq![NodeView::Start] + parsed.nodes.take(i + 1));
                }
                i += 1;
            }
            proof {
                assert(parsed.nodes.take(i as int) =~= parsed.nodes);
            }
            ast.bttr_transform_ast();
            proof {
                assert(ast@ == tree_of(parsed));
            }
            let mut assembler = Assembler::new(ast, &mut table);
            match assembler.generate() {
                Ok(_) => Ok(assembler.listing()),
                Err(GenError::Unsupported) => Err(CompileError::Unsupported),
                // A program has fewer labels than tokens.
                Err(GenError::LabelOverflow) => unreached(),
            }
        },
    }
}

} // verus!
