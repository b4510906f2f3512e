//! Statements: what each shape of segment means as a node of the syntax
//! tree, and what it does to the symbol table.

use crate::ast::NodeView;
use crate::expression::{between, expression, tail};
use crate::symbol_table::{lemma_declared_resolves, TableView};
use crate::text::bounded_numeral;
use crate::token::{TokenType, TokenView};
use vstd::prelude::*;

verus! {

/// What parsing a statement gives: its node, and the symbol table after
/// it.
pub struct Parsed {
    pub node: NodeView,
    pub table: TableView,
}

impl Parsed {
    /// A failure: the error node, and the table as it was.
    pub open spec fn failure(table: TableView) -> Parsed {
        Parsed { node: NodeView::Error, table }
    }
}

/// The position of the first token of category `kind` at or after `from`;
/// the length of the segment if there is none.
pub open spec fn first_of(segment: Seq<TokenView>, kind: TokenType, from: int) -> int
    decreases segment.len() - from,
{
    if from < 0 || from >= segment.len() {
        segment.len() as int
    } else if segment[from].ttype == kind {
        from
    } else {
        first_of(segment, kind, from + 1)
    }
}

/// The largest length an array can be declared with.
pub open spec fn max_array_length() -> nat {
    0xffff_ffff
}

/// The declaration of an array, `var name [ size ]`: the size is the
/// expression between the third token and the first `]`. A literal size
/// registers the array with that length; any other size registers nothing.
/// A literal that is no number, or too large a one, is an error.
pub open spec fn array_declaration(
    segment: Seq<TokenView>,
    name: Seq<char>,
    table: TableView,
) -> Parsed {
    let end = first_of(segment, TokenType::CloseArray, 0);
    let stop = if end < segment.len() {
        end + 1
    } else {
        end
    };
    let size = expression(between(segment, 3, stop), table);
    let node = NodeView::ArrayDeclaration { arr_name: name, size: Box::new(size) };
    match size {
        NodeView::Literal(text) => match bounded_numeral(text, max_array_length()) {
            Some(length) => Parsed { node, table: table.declare(name, "arr"@, length) },
            None => Parsed::failure(table),
        },
        _ => Parsed { node, table },
    }
}

/// A declaration, `var name ...`. Alone, the name is a scalar set to zero.
/// Followed by `=`, it is a scalar set to the expression after it; the
/// name is declared before the expression is read, so the expression may
/// mention it. Followed by `[`, it is an array.
pub open spec fn declaration(segment: Seq<TokenView>, table: TableView) -> Parsed {
    if segment.len() < 2 {
        Parsed::failure(table)
    } else {
        match segment[1].value {
            None => Parsed::failure(table),
            Some(name) => if segment.len() == 2 {
                Parsed {
                    node: NodeView::Assignment {
                        var_name: name,
                        expr: Box::new(NodeView::Literal("0"@)),
                    },
                    table: table.declare(name, "int"@, 0),
                }
            } else if segment[2].ttype == TokenType::OpenArray {
                array_declaration(segment, name, table)
            } else if segment[2].ttype == TokenType::AssignmentOperator {
                let declared = table.declare(name, "int"@, 0);
                Parsed {
                    node: NodeView::Assignment {
                        var_name: name,
                        expr: Box::new(expression(tail(segment, 3), declared)),
                    },
                    table: declared,
                }
            } else {
                Parsed::failure(table)
            },
        }
    }
}

/// An assignment to a name that stands first. With `=` right after the
/// name, it sets a scalar to the expression after the `=`. With `[` right
/// after the name, the first `=` of the segment splits it: the tokens from
/// the third one up to the `=` are the index into an array, the tokens
/// after it are the value. Anything else after the name, and a subscript
/// without any `=`, is an error.
pub open spec fn reassignment(segment: Seq<TokenView>, table: TableView) -> Parsed {
    if segment.len() < 2 {
        Parsed::failure(table)
    } else {
        match segment[0].value {
            None => Parsed::failure(table),
            Some(name) => if segment[1].ttype == TokenType::AssignmentOperator {
                Parsed {
                    node: NodeView::Assignment {
                        var_name: name,
                        expr: Box::new(expression(tail(segment, 2), table)),
                    },
                    table,
                }
            } else if segment[1].ttype != TokenType::OpenArray {
                Parsed::failure(table)
            } else {
                let eq = first_of(segment, TokenType::AssignmentOperator, 0);
                if eq < segment.len() {
                    Parsed {
                        node: NodeView::ArrayAssignment {
                            arr_name: name,
                            position: Box::new(expression(between(segment, 2, eq), table)),
                            value: Box::new(expression(tail(segment, eq + 1), table)),
                        },
                        table,
                    }
                } else {
                    Parsed::failure(table)
                }
            },
        }
    }
}

/// A statement that starts with `var` or with a name.
pub open spec fn assignment(segment: Seq<TokenView>, table: TableView) -> Parsed {
    if segment.len() == 0 {
        Parsed::failure(table)
    } else if segment[0].ttype == TokenType::Var {
        declaration(segment, table)
    } else {
        reassignment(segment, table)
    }
}

/// The largest nesting level.
pub open spec fn max_level() -> nat {
    0xffff_ffff
}

/// The two sides of the condition of a block header and the operator
/// between them, or nothing if the header is malformed: the first
/// comparison operator after the keyword splits the segment; both sides
/// must be expressions, and the operator must have a text.
pub open spec fn condition(segment: Seq<TokenView>, table: TableView) -> Option<
    (NodeView, Seq<char>, NodeView),
> {
    let cmp = first_of(segment, TokenType::ComparisonOperator, 1);
    if cmp >= segment.len() {
        None
    } else {
        let left = expression(between(segment, 1, cmp), table);
        let right = expression(tail(segment, cmp + 1), table);
        if left is Error || right is Error {
            None
        } else {
            match segment[cmp].value {
                Some(op) => Some((left, op, right)),
                None => None,
            }
        }
    }
}

/// The header of an `if` block: a node with the condition and no body
/// yet, and the table one level deeper. A malformed condition is an error,
/// and so is a header at the deepest level there is.
pub open spec fn if_header(segment: Seq<TokenView>, table: TableView) -> Parsed {
    match condition(segment, table) {
        Some((left, op, right)) => if table.level < max_level() {
            Parsed {
                node: NodeView::IfOperation {
                    first_half: Box::new(left),
                    comparison_op: op,
                    second_half: Box::new(right),
                    content: Seq::empty(),
                },
                table: table.enter(),
            }
        } else {
            Parsed::failure(table)
        },
        None => Parsed::failure(table),
    }
}

/// The header of a `while` block: as for `if`.
pub open spec fn while_header(segment: Seq<TokenView>, table: TableView) -> Parsed {
    match condition(segment, table) {
        Some((left, op, right)) => if table.level < max_level() {
            Parsed {
                node: NodeView::WhileOperation {
                    first_half: Box::new(left),
                    comparison_op: op,
                    second_half: Box::new(right),
                    content: Seq::empty(),
                },
                table: table.enter(),
            }
        } else {
            Parsed::failure(table)
        },
        None => Parsed::failure(table),
    }
}

/// The end of a block: the marker `marker`, and the table one level up.
/// At the outermost level there is no block to end: an error.
pub open spec fn block_end(marker: NodeView, table: TableView) -> Parsed {
    if table.level > 0 {
        Parsed { node: marker, table: table.leave() }
    } else {
        Parsed::failure(table)
    }
}

/// The texts of the tokens of `segment` from position `from` on that are
/// no commas; nothing if one of them has no text.
pub open spec fn names(segment: Seq<TokenView>, from: int) -> Option<Seq<Seq<char>>>
    decreases segment.len() - from,
{
    if from < 0 || from >= segment.len() {
        Some(Seq::empty())
    } else {
        match names(segment, from + 1) {
            None => None,
            Some(rest) => if segment[from].ttype == TokenType::Comma {
                Some(rest)
            } else {
                match segment[from].value {
                    Some(name) => Some(seq![name] + rest),
                    None => None,
                }
            },
        }
    }
}

/// A function definition, `func name` or `func name : names`: with
/// nothing after the name it has no parameter list; otherwise its
/// parameters are the names from the fourth token on.
pub open spec fn function_definition(segment: Seq<TokenView>) -> NodeView {
    if segment.len() < 2 {
        NodeView::Error
    } else {
        match segment[1].value {
            None => NodeView::Error,
            Some(name) => if segment.len() == 2 {
                NodeView::FunctionDef { name, parameters: None }
            } else {
                match names(segment, 3) {
                    Some(parameters) => NodeView::FunctionDef {
                        name,
                        parameters: Some(parameters),
                    },
                    None => NodeView::Error,
                }
            },
        }
    }
}

/// The `name = value` pairs of `segment` from position `from` on, four
/// tokens apart: the name at the position, the value two tokens later.
/// Nothing if a pair is cut short or one of its tokens has no text.
pub open spec fn arguments(segment: Seq<TokenView>, from: int) -> Option<
    Seq<(Seq<char>, Seq<char>)>,
>
    decreases segment.len() + 4 - from,
{
    if from < 0 || from >= segment.len() {
        Some(Seq::empty())
    } else if from + 2 >= segment.len() {
        None
    } else {
        match (segment[from].value, segment[from + 2].value, arguments(segment, from + 4)) {
            (Some(name), Some(value), Some(rest)) => Some(seq![(name, value)] + rest),
            _ => None,
        }
    }
}

/// A call, `call name` or `call name : arguments`: with nothing after
/// the name it has no argument list; otherwise its arguments are the pairs
/// from the fourth token on.
pub open spec fn function_call(segment: Seq<TokenView>) -> NodeView {
    if segment.len() < 2 {
        NodeView::Error
    } else {
        match segment[1].value {
            None => NodeView::Error,
            Some(name) => if segment.len() == 2 {
                NodeView::FuntionCall { name, parameters: None }
            } else {
                match arguments(segment, 3) {
                    Some(parameters) => NodeView::FuntionCall {
                        name,
                        parameters: Some(parameters),
                    },
                    None => NodeView::Error,
                }
            },
        }
    }
}

/// A print statement: the expression after the keyword.
pub open spec fn print_statement(segment: Seq<TokenView>, table: TableView) -> NodeView {
    if segment.len() >= 2 {
        NodeView::Print(Box::new(expression(tail(segment, 1), table)))
    } else {
        NodeView::Error
    }
}

/// The statement that `segment` is, by the category of its first token;
/// nothing if that token starts no statement.
pub open spec fn statement(segment: Seq<TokenView>, table: TableView) -> Option<Parsed> {
    if segment.len() == 0 {
        None
    } else {
        match segment[0].ttype {
            TokenType::Var => Some(assignment(segment, table)),
            TokenType::If => Some(if_header(segment, table)),
            TokenType::EndIf => Some(block_end(NodeView::EndIf, table)),
            TokenType::While => Some(while_header(segment, table)),
            TokenType::EndWhile => Some(block_end(NodeView::EndWhile, table)),
            TokenType::Func => Some(Parsed { node: function_definition(segment), table }),
            TokenType::Endfunc => Some(Parsed { node: NodeView::EndFunctionDef, table }),
            TokenType::Call => Some(Parsed { node: function_call(segment), table }),
            TokenType::Print => Some(Parsed { node: print_statement(segment, table), table }),
            TokenType::Variable => Some(assignment(segment, table)),
            _ => None,
        }
    }
}

/// After the declaration of a scalar, `var name ;` or
/// `var name = expression ;`, a reference to the name resolves.
pub proof fn lemma_declaration_resolves(segment: Seq<TokenView>, table: TableView)
    requires
        segment.len() >= 2,
        segment[1].value.is_some(),
        segment.len() == 2 || segment[2].ttype == TokenType::AssignmentOperator,
    ensures
        declaration(segment, table).table.lookup(segment[1].value.unwrap()).is_some(),
{
    lemma_declared_resolves(table, segment[1].value.unwrap(), "int"@, 0);
}

} // verus!
