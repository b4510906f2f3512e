//! Expressions: from tokens in infix order to a syntax tree.

use crate::ast::NodeView;
use crate::rpn::to_rpn;
use crate::symbol_table::TableView;
use crate::token::{TokenType, TokenView};
use vstd::prelude::*;

verus! {

/// The tokens of `segment` from position `from` on; none if there are
/// fewer.
pub open spec fn tail(segment: Seq<TokenView>, from: int) -> Seq<TokenView> {
    if 0 <= from <= segment.len() {
        segment.skip(from)
    } else {
        Seq::empty()
    }
}

/// The tokens of `segment` from position `from` up to, not including,
/// position `to`; none if the positions are not in order within it.
pub open spec fn between(segment: Seq<TokenView>, from: int, to: int) -> Seq<TokenView> {
    if 0 <= from <= to <= segment.len() {
        segment.subrange(from, to)
    } else {
        Seq::empty()
    }
}

/// The tree of the expression `segment`, read with the names declared in
/// `table`.
///
/// The tokens are brought into reverse-Polish order and reduced on a stack
/// of trees. The result is the one tree left on the stack; anything else
/// left there is an error.
pub open spec fn expression(segment: Seq<TokenView>, table: TableView) -> NodeView
    decreases segment.len(), 1nat, 0nat,
{
    reduce(to_rpn(segment), Seq::empty(), segment, table)
}

/// Reduces the tokens `rpn`, in reverse-Polish order, on `stack`.
///
/// A literal is a leaf. A name declared as a scalar is a leaf; a name
/// declared as an array ends the reduction at once with an indexed read,
/// whose index is the expression that `segment` holds from its third token
/// on; a name declared as anything else is passed over; a name that is not
/// declared is an error. A binary operator takes the two trees on top of
/// the stack, the upper one as its right operand. Any other token, and a
/// token without text, is an error.
pub open spec fn reduce(
    rpn: Seq<TokenView>,
    stack: Seq<NodeView>,
    segment: Seq<TokenView>,
    table: TableView,
) -> NodeView
    decreases segment.len(), 0nat, rpn.len(),
{
    if rpn.len() == 0 {
        if stack.len() == 1 {
            stack[0]
        } else {
            NodeView::Error
        }
    } else {
        let token = rpn[0];
        let rest = rpn.skip(1);
        match token.value {
            None => NodeView::Error,
            Some(text) => if token.ttype == TokenType::IntLiteral {
                reduce(rest, stack.push(NodeView::Literal(text)), segment, table)
            } else if token.ttype == TokenType::Variable {
                match table.lookup(text) {
                    None => NodeView::Error,
                    Some(entry) => if entry.is_scalar() {
                        reduce(rest, stack.push(NodeView::Variable(text)), segment, table)
                    } else if entry.is_array() {
                        NodeView::Array {
                            arr_name: entry.name,
                            index: Box::new(
                                if segment.len() >= 2 {
                                    expression(segment.skip(2), table)
                                } else {
                                    NodeView::Error
                                },
                            ),
                        }
                    } else {
                        reduce(rest, stack, segment, table)
                    },
                }
            } else if token.ttype == TokenType::BinaryOperator {
                if stack.len() >= 2 {
                    let right = stack[stack.len() - 1];
                    let left = stack[stack.len() - 2];
                    reduce(
                        rest,
                        stack.drop_last().drop_last().push(
                            NodeView::BinaryOperation {
                                op: text,
                                left: Box::new(left),
                                right: Box::new(right),
                            },
                        ),
                        segment,
                        table,
                    )
                } else {
                    NodeView::Error
                }
            } else {
                NodeView::Error
            },
        }
    }
}

} // verus!
