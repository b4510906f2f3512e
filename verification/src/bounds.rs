//! The proof that a program made of tokens never needs more labels than it
//! has tokens: the label counter of the generator cannot overflow on a
//! program that was parsed.

use crate::ast::{body_of, closing, collect, is_header, with_body, NodeView};
use crate::compiler::{has_error, parse_from, program, tree_of};
use crate::emit::{block_label_count, label_count};
use crate::expression::{between, expression, reduce, tail};
use crate::fsm::{FsmView, REJECTED};
use crate::parser::{lemma_scan_advances, ParserView, ScanView};
use crate::rpn::to_rpn;
use crate::statement::{assignment, first_of, if_header, statement, while_header};
use crate::symbol_table::TableView;
use crate::token::{TokenType, TokenView};
use vstd::prelude::*;

verus! {

/// Whether none of `nodes` takes a label.
pub open spec fn all_plain(nodes: Seq<NodeView>) -> bool {
    forall|i: int| 0 <= i < nodes.len() ==> label_count(#[trigger] nodes[i]) == 0
}

/// Reducing onto trees that take no label gives a tree that takes none.
pub proof fn lemma_reduce_plain(
    rpn: Seq<TokenView>,
    stack: Seq<NodeView>,
    segment: Seq<TokenView>,
    table: TableView,
)
    requires
        all_plain(stack),
    ensures
        label_count(reduce(rpn, stack, segment, table)) == 0,
    decreases segment.len(), 0nat, rpn.len(),
{
    if rpn.len() == 0 {
        if stack.len() == 1 {
            assert(label_count(stack[0]) == 0);
        }
    } else {
        let token = rpn[0];
        let rest = rpn.skip(1);
        match token.value {
            None => {},
            Some(text) => {
                let with_literal = stack.push(NodeView::Literal(text));
                assert(all_plain(with_literal)) by {
                    assert forall|i: int| 0 <= i < with_literal.len() implies label_count(
                        #[trigger] with_literal[i],
                    ) == 0 by {
                        if i < stack.len() {
                            assert(with_literal[i] == stack[i]);
                        }
                    }
                }
                lemma_reduce_plain(rest, with_literal, segment, table);
                let with_name = stack.push(NodeView::Variable(text));
                assert(all_plain(with_name)) by {
                    assert forall|i: int| 0 <= i < with_name.len() implies label_count(
                        #[trigger] with_name[i],
                    ) == 0 by {
                        if i < stack.len() {
                            assert(with_name[i] == stack[i]);
                        }
                    }
                }
                lemma_reduce_plain(rest, with_name, segment, table);
                lemma_reduce_plain(rest, stack, segment, table);
                if segment.len() >= 2 {
                    lemma_expression_plain(segment.skip(2), table);
                }
                match table.lookup(text) {
                    Some(entry) => {
                        let index = if segment.len() >= 2 {
                            expression(segment.skip(2), table)
                        } else {
                            NodeView::Error
                        };
                        let read = NodeView::Array { arr_name: entry.name, index: Box::new(index) };
                        assert(label_count(read) == label_count(index));
                    },
                    None => {},
                }
                if stack.len() >= 2 {
                    let right = stack[stack.len() - 1];
                    let left = stack[stack.len() - 2];
                    let joined = NodeView::BinaryOperation {
                        op: text,
                        left: Box::new(left),
                        right: Box::new(right),
                    };
                    assert(label_count(joined) == label_count(right) + label_count(left));
                    let with_joined = stack.drop_last().drop_last().push(joined);
                    assert(all_plain(with_joined)) by {
                        assert forall|i: int| 0 <= i < with_joined.len() implies label_count(
                            #[trigger] with_joined[i],
                        ) == 0 by {
                            if i < with_joined.len() - 1 {
                                assert(with_joined[i] == stack[i]);
                            }
                        }
                    }
                    lemma_reduce_plain(rest, with_joined, segment, table);
                }
            },
        }
    }
}

/// An expression takes no label.
pub proof fn lemma_expression_plain(segment: Seq<TokenView>, table: TableView)
    ensures
        label_count(expression(segment, table)) == 0,
    decreases segment.len(), 1nat, 0nat,
{
    lemma_reduce_plain(to_rpn(segment), Seq::empty(), segment, table);
}

/// Whether `node` is as a statement of the parser is: it takes two labels
/// at most, and if it is a header, its block is still empty.
pub open spec fn fresh_statement(node: NodeView) -> bool {
    label_count(node) <= 2 && (is_header(node) ==> body_of(node).len() == 0)
}

/// Whether every one of `nodes` is as a statement of the parser is.
pub open spec fn fresh_statements(nodes: Seq<NodeView>) -> bool {
    forall|i: int| 0 <= i < nodes.len() ==> fresh_statement(#[trigger] nodes[i])
}

/// A declaration or an assignment takes no label.
proof fn lemma_assignment_plain(segment: Seq<TokenView>, table: TableView)
    ensures
        label_count(assignment(segment, table).node) == 0,
{
    if segment.len() >= 2 {
        let eq = first_of(segment, TokenType::AssignmentOperator, 0);
        lemma_expression_plain(tail(segment, 2), table);
        lemma_expression_plain(between(segment, 2, eq), table);
        lemma_expression_plain(tail(segment, eq + 1), table);
        if segment[1].value.is_some() {
            let name = segment[1].value.unwrap();
            lemma_expression_plain(tail(segment, 3), table.declare(name, "int"@, 0));
            assert(label_count(NodeView::Literal("0"@)) == 0);
        }
    }
}

/// The header of a block takes one label if it is an `if`, two if it is a
/// `while`, and its block is empty.
proof fn lemma_header_fresh(segment: Seq<TokenView>, table: TableView)
    ensures
        fresh_statement(if_header(segment, table).node),
        fresh_statement(while_header(segment, table).node),
{
    let cmp = first_of(segment, TokenType::ComparisonOperator, 1);
    lemma_expression_plain(between(segment, 1, cmp), table);
    lemma_expression_plain(tail(segment, cmp + 1), table);
    assert(block_label_count(Seq::<NodeView>::empty()) == 0);
}

/// A statement of the parser takes two labels at most, and a header has
/// an empty block.
pub proof fn lemma_statement_fresh(segment: Seq<TokenView>, table: TableView)
    ensures
        match statement(segment, table) {
            Some(parsed) => fresh_statement(parsed.node),
            None => true,
        },
{
    lemma_assignment_plain(segment, table);
    lemma_header_fresh(segment, table);
    lemma_expression_plain(tail(segment, 1), table);
}

/// A statement that the automaton completes leaves it fresh.
pub proof fn lemma_scan_fresh(parser: ParserView)
    ensures
        parser.scan().outcome is Segment ==> parser.scan().parser.machine == FsmView::fresh(),
    decreases parser.tokens.len() - parser.position,
{
    if parser.position < parser.tokens.len() {
        let token = parser.tokens[parser.position as int];
        let step = parser.machine.step(token);
        if step.state != REJECTED && step.segment.is_none() {
            lemma_scan_fresh(
                ParserView {
                    tokens: parser.tokens,
                    position: parser.position + 1,
                    machine: step.machine,
                    table: parser.table,
                },
            );
        }
    }
}

/// A statement that the automaton completes from fresh has two tokens at
/// least, its terminator among them.
pub proof fn lemma_scan_two_tokens(parser: ParserView)
    requires
        parser.machine == FsmView::fresh(),
        parser.position <= parser.tokens.len(),
    ensures
        parser.scan().outcome is Segment ==> parser.position + 2 <= parser.scan().parser.position
            <= parser.tokens.len(),
{
    lemma_scan_advances(parser);
    if parser.position < parser.tokens.len() {
        let token = parser.tokens[parser.position as int];
        let step = parser.machine.step(token);
        if step.state != REJECTED && step.segment.is_none() {
            lemma_scan_advances(
                ParserView {
                    tokens: parser.tokens,
                    position: parser.position + 1,
                    machine: step.machine,
                    table: parser.table,
                },
            );
        }
    }
}

/// The label count of statements, followed by one more, is the sum.
pub proof fn lemma_label_count_push(nodes: Seq<NodeView>, node: NodeView)
    ensures
        block_label_count(nodes.push(node)) == block_label_count(nodes) + label_count(node),
{
    assert(nodes.push(node).drop_last() == nodes);
}

/// The label count of one statement followed by more is the sum.
pub proof fn lemma_label_count_first(node: NodeView, nodes: Seq<NodeView>)
    ensures
        block_label_count(seq![node] + nodes) == label_count(node) + block_label_count(nodes),
    decreases nodes.len(),
{
    let all = seq![node] + nodes;
    if nodes.len() == 0 {
        assert(all.drop_last().len() == 0);
        assert(all.last() == node);
        assert(block_label_count(all.drop_last()) == 0);
    } else {
        assert(all.drop_last() == seq![node] + nodes.drop_last());
        assert(all.last() == nodes.last());
        lemma_label_count_first(node, nodes.drop_last());
    }
}

/// The statements that a parse adds to fresh statements are fresh, and
/// all together they take no more labels than tokens were read.
pub proof fn lemma_parse_fresh(parser: ParserView, nodes: Seq<NodeView>)
    requires
        parser.machine == FsmView::fresh(),
        parser.position <= parser.tokens.len(),
        block_label_count(nodes) <= parser.position,
        fresh_statements(nodes),
    ensures
        match parse_from(parser, nodes) {
            Ok(parsed) => block_label_count(parsed.nodes) <= parser.tokens.len()
                && fresh_statements(parsed.nodes),
            Err(_) => true,
        },
    decreases parser.tokens.len() - parser.position,
{
    let scanned = parser.scan();
    lemma_scan_advances(parser);
    lemma_scan_fresh(parser);
    lemma_scan_two_tokens(parser);
    match scanned.outcome {
        ScanView::Segment(segment) => {
            lemma_statement_fresh(segment, scanned.parser.table);
            match statement(segment, scanned.parser.table) {
                None => {
                    lemma_parse_fresh(scanned.parser, nodes);
                },
                Some(parsed) => {
                    if !has_error(parsed.node) {
                        let more = nodes.push(parsed.node);
                        lemma_label_count_push(nodes, parsed.node);
                        assert forall|i: int| 0 <= i < more.len() implies fresh_statement(
                            #[trigger] more[i],
                        ) by {
                            if i < nodes.len() {
                                assert(more[i] == nodes[i]);
                            }
                        }
                        lemma_parse_fresh(scanned.parser.with_table(parsed.table), more);
                    }
                },
            }
        },
        _ => {},
    }
}

/// The labels that the statements of `flat` from position `from` on take.
pub open spec fn labels_from(flat: Seq<NodeView>, from: int) -> nat
    decreases flat.len() - from,
{
    if from < 0 || from >= flat.len() {
        0
    } else {
        label_count(flat[from]) + labels_from(flat, from + 1)
    }
}

/// The labels of all the statements are the labels from the first on.
pub proof fn lemma_labels_from_start(flat: Seq<NodeView>)
    ensures
        labels_from(flat, 0) == block_label_count(flat),
    decreases flat.len(),
{
    if flat.len() > 0 {
        lemma_labels_from_start(flat.drop_last());
        lemma_labels_from_last(flat, 0);
    }
}

/// The labels from a position on are those of the list without its last
/// statement, and those of the last.
proof fn lemma_labels_from_last(flat: Seq<NodeView>, from: int)
    requires
        0 <= from < flat.len(),
    ensures
        labels_from(flat, from) == labels_from(flat.drop_last(), from) + label_count(flat.last()),
    decreases flat.len() - from,
{
    let fewer = flat.drop_last();
    if from < flat.len() - 1 {
        assert(fewer[from] == flat[from]);
        lemma_labels_from_last(flat, from + 1);
    } else {
        assert(labels_from(flat, from + 1) == 0);
        assert(labels_from(fewer, from) == 0);
    }
}

/// A block collected from fresh statements takes no more labels than the
/// statements it was collected from.
pub proof fn lemma_collect_labels(flat: Seq<NodeView>, from: int, end: Option<NodeView>)
    requires
        0 <= from <= flat.len(),
        fresh_statements(flat),
    ensures
        block_label_count(collect(flat, from, end).nodes) + labels_from(
            flat,
            collect(flat, from, end).next,
        ) <= labels_from(flat, from),
    decreases flat.len() - from,
{
    if from < flat.len() {
        let node = flat[from];
        crate::ast::lemma_collect_advances(flat, from + 1, Some(closing(node)));
        if is_header(node) {
            let body = collect(flat, from + 1, Some(closing(node)));
            let rest = collect(flat, body.next, end);
            lemma_collect_labels(flat, from + 1, Some(closing(node)));
            lemma_collect_labels(flat, body.next, end);
            let nested = with_body(node, body.nodes);
            lemma_label_count_first(nested, rest.nodes);
            assert(block_label_count(body_of(node)) == 0);
            assert(label_count(nested) == label_count(node) + block_label_count(body.nodes));
        } else if end == Some(node) {
        } else {
            let rest = collect(flat, from + 1, end);
            lemma_collect_labels(flat, from + 1, end);
            lemma_label_count_first(node, rest.nodes);
        }
    }
}

/// The tree of a program that was parsed from tokens takes no more labels
/// than there are tokens.
pub proof fn lemma_parsed_labels(tokens: Seq<TokenView>)
    ensures
        match program(tokens) {
            Ok(parsed) => block_label_count(tree_of(parsed)) <= tokens.len(),
            Err(_) => true,
        },
{
    let start = ParserView {
        tokens,
        position: 0,
        machine: FsmView::fresh(),
        table: TableView { entries: Seq::empty(), level: 0 },
    };
    lemma_parse_fresh(start, Seq::empty());
    match program(tokens) {
        Ok(parsed) => {
            let flat = seq![NodeView::Start] + parsed.nodes;
            assert forall|i: int| 0 <= i < flat.len() implies fresh_statement(
                #[trigger] flat[i],
            ) by {
                if i > 0 {
                    assert(flat[i] == parsed.nodes[i - 1]);
                }
            }
            lemma_label_count_first(NodeView::Start, parsed.nodes);
            lemma_collect_labels(flat, 0, None);
            lemma_labels_from_start(flat);
        },
        Err(_) => {},
    }
}

} // verus!
