//! Infix expressions as they are written, and the proof that the parser
//! reads each of them as the tree that the usual rules give: operators of
//! higher precedence bind tighter, operators of equal precedence group from
//! the left, and brackets group first.

use crate::ast::NodeView;
use crate::expression::{expression, reduce};
use crate::rpn::{
    binding, is_operand, lemma_rpn_operands, lemma_shunt_append, operands, to_rpn, Yard,
};
use crate::symbol_table::TableView;
use crate::token::{TokenType, TokenView};
use vstd::prelude::*;

verus! {

/// An infix expression as written.
pub enum Syntax {
    /// A literal or a name.
    Operand(TokenView),
    /// An expression in brackets.
    Group { open: TokenView, inner: Box<Syntax>, close: TokenView },
    /// Two expressions with a binary operator between them.
    Operation { operator: TokenView, left: Box<Syntax>, right: Box<Syntax> },
}

impl Syntax {
    /// The tokens of the expression, as written.
    pub open spec fn tokens(self) -> Seq<TokenView>
        decreases self,
    {
        match self {
            Syntax::Operand(token) => seq![token],
            Syntax::Group { open, inner, close } => seq![open] + inner.tokens() + seq![close],
            Syntax::Operation { operator, left, right } => left.tokens() + seq![operator]
                + right.tokens(),
        }
    }

    /// Whether the expression may stand, without brackets of its own, as
    /// an operand of an operator that binds at `level`: its tokens are
    /// what they should be, every operation in it binds at least at the
    /// level of its place, the left operand of an operation may bind as
    /// the operation does, and the right operand must bind tighter.
    /// Inside brackets the level starts again from nothing.
    pub open spec fn binds(self, level: nat) -> bool
        decreases self,
    {
        match self {
            Syntax::Operand(token) => (token.ttype == TokenType::IntLiteral || token.ttype
                == TokenType::Variable) && token.value.is_some(),
            Syntax::Group { open, inner, close } => open.ttype == TokenType::OpenBracket
                && close.ttype == TokenType::CloseBracket && inner.binds(0),
            Syntax::Operation { operator, left, right } => operator.ttype
                == TokenType::BinaryOperator && operator.value.is_some() && binding(operator)
                >= level && left.binds(binding(operator)) && right.binds(binding(operator) + 1),
        }
    }

    /// Whether every name in the expression is declared as a scalar and
    /// visible in `table`.
    pub open spec fn resolves(self, table: TableView) -> bool
        decreases self,
    {
        match self {
            Syntax::Operand(token) => token.ttype == TokenType::Variable && token.value.is_some()
                ==> match table.lookup(token.value.unwrap()) {
                Some(entry) => entry.is_scalar(),
                None => false,
            },
            Syntax::Group { open, inner, close } => inner.resolves(table),
            Syntax::Operation { operator, left, right } => left.resolves(table) && right.resolves(
                table,
            ),
        }
    }

    /// The tree that the expression means.
    pub open spec fn tree(self) -> NodeView
        decreases self,
    {
        match self {
            Syntax::Operand(token) => if token.ttype == TokenType::IntLiteral {
                NodeView::Literal(token.value.unwrap())
            } else {
                NodeView::Variable(token.value.unwrap())
            },
            Syntax::Group { open, inner, close } => inner.tree(),
            Syntax::Operation { operator, left, right } => NodeView::BinaryOperation {
                op: operator.value.unwrap(),
                left: Box::new(left.tree()),
                right: Box::new(right.tree()),
            },
        }
    }

    /// The operands and operators of the expression in reverse-Polish
    /// order: each operation after its two operands.
    pub open spec fn postfix(self) -> Seq<TokenView>
        decreases self,
    {
        match self {
            Syntax::Operand(token) => seq![token],
            Syntax::Group { open, inner, close } => inner.postfix(),
            Syntax::Operation { operator, left, right } => left.postfix() + right.postfix() + seq![
                operator,
            ],
        }
    }

    /// The part of the reverse-Polish order that is settled once the last
    /// token of the expression has been read.
    pub open spec fn settled(self) -> Seq<TokenView>
        decreases self,
    {
        match self {
            Syntax::Operand(token) => seq![token],
            Syntax::Group { open, inner, close } => inner.postfix(),
            Syntax::Operation { operator, left, right } => left.postfix() + right.settled(),
        }
    }

    /// The operators that still wait on the stack once the last token of
    /// the expression has been read, the top last.
    pub open spec fn pending(self) -> Seq<TokenView>
        decreases self,
    {
        match self {
            Syntax::Operand(token) => Seq::empty(),
            Syntax::Group { open, inner, close } => Seq::empty(),
            Syntax::Operation { operator, left, right } => seq![operator] + right.pending(),
        }
    }
}

/// Whether every token of `waiting` is a binary operator that binds at
/// `level` or tighter.
pub open spec fn all_yield(waiting: Seq<TokenView>, level: nat) -> bool {
    forall|i: int|
        0 <= i < waiting.len() ==> (#[trigger] waiting[i]).ttype == TokenType::BinaryOperator
            && binding(waiting[i]) >= level
}

/// The operators that an expression leaves waiting bind at the level of
/// its place or tighter, and released top first after what is settled they
/// complete the reverse-Polish order.
pub proof fn lemma_pending(syntax: Syntax, level: nat)
    requires
        syntax.binds(level),
    ensures
        all_yield(syntax.pending(), level),
        syntax.settled() + syntax.pending().reverse() == syntax.postfix(),
    decreases syntax,
{
    match syntax {
        Syntax::Operand(token) => {
            assert(syntax.pending().reverse() =~= Seq::<TokenView>::empty());
            assert(syntax.settled() + Seq::<TokenView>::empty() =~= syntax.postfix());
        },
        Syntax::Group { open, inner, close } => {
            assert(syntax.pending().reverse() =~= Seq::<TokenView>::empty());
            assert(syntax.settled() + Seq::<TokenView>::empty() =~= syntax.postfix());
        },
        Syntax::Operation { operator, left, right } => {
            let level_right = binding(operator) + 1;
            lemma_pending(*right, level_right);
            let waiting = right.pending();
            assert(syntax.pending().reverse() =~= waiting.reverse() + seq![operator]);
            assert(syntax.settled() + syntax.pending().reverse() =~= left.postfix() + (
            right.settled() + waiting.reverse()) + seq![operator]);
        },
    }
}

/// Operators that all yield to `level` are all released by an operator
/// that binds at `level`.
pub proof fn lemma_pop_all(yard: Yard, waiting: Seq<TokenView>, level: nat)
    requires
        all_yield(waiting, level),
    ensures
        (Yard { output: yard.output, stack: yard.stack + waiting }).pop_yielding(level) == (Yard {
            output: yard.output + waiting.reverse(),
            stack: yard.stack,
        }).pop_yielding(level),
    decreases waiting.len(),
{
    let loaded = Yard { output: yard.output, stack: yard.stack + waiting };
    if waiting.len() == 0 {
        assert(yard.stack + waiting =~= yard.stack);
        assert(yard.output + waiting.reverse() =~= yard.output);
    } else {
        let top = waiting.last();
        assert(loaded.stack.last() == top);
        assert(loaded.top_yields(level));
        let popped = loaded.pop();
        let fewer = waiting.drop_last();
        let shifted = Yard { output: yard.output.push(top), stack: yard.stack };
        assert(popped.stack =~= yard.stack + fewer);
        assert(popped == Yard { output: shifted.output, stack: shifted.stack + fewer });
        assert forall|i: int| 0 <= i < fewer.len() implies (#[trigger] fewer[i]).ttype
            == TokenType::BinaryOperator && binding(fewer[i]) >= level by {
            assert(fewer[i] == waiting[i]);
        }
        lemma_pop_all(shifted, fewer, level);
        assert(shifted.output + fewer.reverse() =~= yard.output + waiting.reverse());
    }
}

/// A closing bracket releases the operators that wait above the nearest
/// opening bracket, and drops that bracket.
pub proof fn lemma_close_all(yard: Yard, open: TokenView, waiting: Seq<TokenView>)
    requires
        open.ttype == TokenType::OpenBracket,
        all_yield(waiting, 0),
    ensures
        (Yard { output: yard.output, stack: yard.stack.push(open) + waiting }).close_bracket()
            == (Yard { output: yard.output + waiting.reverse(), stack: yard.stack }),
    decreases waiting.len(),
{
    let loaded = Yard { output: yard.output, stack: yard.stack.push(open) + waiting };
    if waiting.len() == 0 {
        assert(yard.stack.push(open) + waiting =~= yard.stack.push(open));
        assert(yard.output + waiting.reverse() =~= yard.output);
        assert(loaded.stack.drop_last() =~= yard.stack);
    } else {
        let top = waiting.last();
        assert(loaded.stack.last() == top);
        let popped = loaded.pop();
        let fewer = waiting.drop_last();
        let shifted = Yard { output: yard.output.push(top), stack: yard.stack };
        assert(popped.stack =~= yard.stack.push(open) + fewer);
        assert(popped == Yard { output: shifted.output, stack: shifted.stack.push(open) + fewer });
        assert forall|i: int| 0 <= i < fewer.len() implies (#[trigger] fewer[i]).ttype
            == TokenType::BinaryOperator && binding(fewer[i]) >= 0 by {
            assert(fewer[i] == waiting[i]);
        }
        lemma_close_all(shifted, open, fewer);
        assert(shifted.output + fewer.reverse() =~= yard.output + waiting.reverse());
    }
}

/// Draining a yard appends its stack to its output, top first.
pub proof fn lemma_drain(yard: Yard)
    ensures
        yard.drain() == yard.output + yard.stack.reverse(),
    decreases yard.stack.len(),
{
    if yard.stack.len() == 0 {
        assert(yard.output + yard.stack.reverse() =~= yard.output);
    } else {
        lemma_drain(yard.pop());
        assert(yard.pop().output + yard.pop().stack.reverse() =~= yard.output
            + yard.stack.reverse());
    }
}

/// Reading the tokens of an expression, from a yard whose top does not
/// yield to the level of the expression's place, adds to the output what
/// the expression settles and leaves on the stack what it keeps waiting.
pub proof fn lemma_shunt_syntax(syntax: Syntax, level: nat, yard: Yard)
    requires
        syntax.binds(level),
        !yard.top_yields(level),
    ensures
        yard.shunt_all(syntax.tokens()) == (Yard {
            output: yard.output + syntax.settled(),
            stack: yard.stack + syntax.pending(),
        }),
    decreases syntax,
{
    reveal_with_fuel(Yard::shunt_all, 3);
    match syntax {
        Syntax::Operand(token) => {
            let tokens = syntax.tokens();
            assert(tokens.skip(1).len() == 0);
            assert(yard.output.push(token) =~= yard.output + syntax.settled());
            assert(yard.stack =~= yard.stack + syntax.pending());
        },
        Syntax::Group { open, inner, close } => {
            let opened = Yard { output: yard.output, stack: yard.stack.push(open) };
            lemma_shunt_append(yard, seq![open] + inner.tokens(), seq![close]);
            lemma_shunt_append(yard, seq![open], inner.tokens());
            assert(seq![open].skip(1).len() == 0);
            assert(yard.shunt_all(seq![open]) == opened);
            assert(opened.stack.last() == open);
            lemma_shunt_syntax(*inner, 0, opened);
            lemma_pending(*inner, 0);
            let inside = Yard {
                output: opened.output + inner.settled(),
                stack: opened.stack + inner.pending(),
            };
            assert(seq![close].skip(1).len() == 0);
            assert(inside.shunt_all(seq![close]) == inside.close_bracket());
            lemma_close_all(
                Yard { output: inside.output, stack: yard.stack },
                open,
                inner.pending(),
            );
            assert(inside.output + inner.pending().reverse() =~= yard.output + syntax.settled());
            assert(yard.stack =~= yard.stack + syntax.pending());
        },
        Syntax::Operation { operator, left, right } => {
            let level_here = binding(operator);
            lemma_shunt_append(yard, left.tokens() + seq![operator], right.tokens());
            lemma_shunt_append(yard, left.tokens(), seq![operator]);
            lemma_shunt_syntax(*left, level_here, yard);
            lemma_pending(*left, level_here);
            let after_left = Yard {
                output: yard.output + left.settled(),
                stack: yard.stack + left.pending(),
            };
            assert(seq![operator].skip(1).len() == 0);
            assert(after_left.shunt_all(seq![operator]) == after_left.shunt(operator));
            lemma_pop_all(
                Yard { output: after_left.output, stack: yard.stack },
                left.pending(),
                level_here,
            );
            let released = Yard {
                output: after_left.output + left.pending().reverse(),
                stack: yard.stack,
            };
            assert(!released.top_yields(level_here));
            assert(released.output =~= yard.output + left.postfix());
            let waiting = Yard { output: released.output, stack: yard.stack.push(operator) };
            assert(after_left.shunt(operator) == waiting);
            assert(waiting.stack.last() == operator);
            lemma_shunt_syntax(*right, level_here + 1, waiting);
            assert(waiting.output + right.settled() =~= yard.output + syntax.settled());
            assert(waiting.stack + right.pending() =~= yard.stack + syntax.pending());
        },
    }
}

/// The tokens of an infix expression come out in reverse-Polish order.
pub proof fn lemma_rpn_of_syntax(syntax: Syntax)
    requires
        syntax.binds(0),
    ensures
        to_rpn(syntax.tokens()) == syntax.postfix(),
{
    let start = Yard::start();
    lemma_shunt_syntax(syntax, 0, start);
    lemma_pending(syntax, 0);
    let end = start.shunt_all(syntax.tokens());
    lemma_drain(end);
    assert(end.output =~= syntax.settled());
    assert(end.stack =~= syntax.pending());
}

/// Reducing the reverse-Polish order of an expression puts its tree on
/// the stack.
pub proof fn lemma_reduce_syntax(
    syntax: Syntax,
    level: nat,
    rest: Seq<TokenView>,
    stack: Seq<NodeView>,
    segment: Seq<TokenView>,
    table: TableView,
)
    requires
        syntax.binds(level),
        syntax.resolves(table),
    ensures
        reduce(syntax.postfix() + rest, stack, segment, table) == reduce(
            rest,
            stack.push(syntax.tree()),
            segment,
            table,
        ),
    decreases syntax,
{
    match syntax {
        Syntax::Operand(token) => {
            let all = syntax.postfix() + rest;
            assert(all[0] == token);
            assert(all.skip(1) =~= rest);
        },
        Syntax::Group { open, inner, close } => {
            lemma_reduce_syntax(*inner, 0, rest, stack, segment, table);
        },
        Syntax::Operation { operator, left, right } => {
            let level_here = binding(operator);
            let after_left = right.postfix() + seq![operator] + rest;
            assert(syntax.postfix() + rest =~= left.postfix() + after_left);
            lemma_reduce_syntax(*left, level_here, after_left, stack, segment, table);
            let after_right = seq![operator] + rest;
            assert(after_left =~= right.postfix() + after_right);
            let with_left = stack.push(left.tree());
            lemma_reduce_syntax(*right, level_here + 1, after_right, with_left, segment, table);
            let with_both = with_left.push(right.tree());
            assert(after_right[0] == operator);
            assert(after_right.skip(1) =~= rest);
            assert(with_both.drop_last().drop_last() =~= stack);
        },
    }
}

/// Every infix expression built from literals, names declared as scalars,
/// binary operators and brackets is read as the tree that precedence,
/// grouping from the left and brackets give it.
pub proof fn lemma_expression_of_syntax(syntax: Syntax, table: TableView)
    requires
        syntax.binds(0),
        syntax.resolves(table),
    ensures
        expression(syntax.tokens(), table) == syntax.tree(),
{
    lemma_rpn_of_syntax(syntax);
    let none = Seq::<TokenView>::empty();
    let empty = Seq::<NodeView>::empty();
    assert(syntax.postfix() + none =~= syntax.postfix());
    lemma_reduce_syntax(syntax, 0, none, empty, syntax.tokens(), table);
    assert(empty.push(syntax.tree())[0] == syntax.tree());
}

impl Syntax {
    /// Whether every name in the expression that the table resolves is a
    /// scalar.
    pub open spec fn scalars_only(self, table: TableView) -> bool
        decreases self,
    {
        match self {
            Syntax::Operand(token) => token.ttype == TokenType::Variable && token.value.is_some()
                ==> match table.lookup(token.value.unwrap()) {
                Some(entry) => entry.is_scalar(),
                None => true,
            },
            Syntax::Group { open, inner, close } => inner.scalars_only(table),
            Syntax::Operation { operator, left, right } => left.scalars_only(table)
                && right.scalars_only(table),
        }
    }
}

/// Reducing the reverse-Polish order of an expression that mentions a name
/// which does not resolve is an error, whatever follows it.
pub proof fn lemma_reduce_unresolved(
    syntax: Syntax,
    level: nat,
    rest: Seq<TokenView>,
    stack: Seq<NodeView>,
    segment: Seq<TokenView>,
    table: TableView,
)
    requires
        syntax.binds(level),
        syntax.scalars_only(table),
        !syntax.resolves(table),
    ensures
        reduce(syntax.postfix() + rest, stack, segment, table) == NodeView::Error,
    decreases syntax,
{
    match syntax {
        Syntax::Operand(token) => {
            let all = syntax.postfix() + rest;
            assert(all[0] == token);
        },
        Syntax::Group { open, inner, close } => {
            lemma_reduce_unresolved(*inner, 0, rest, stack, segment, table);
        },
        Syntax::Operation { operator, left, right } => {
            let level_here = binding(operator);
            let after_left = right.postfix() + seq![operator] + rest;
            assert(syntax.postfix() + rest =~= left.postfix() + after_left);
            if !left.resolves(table) {
                lemma_reduce_unresolved(*left, level_here, after_left, stack, segment, table);
            } else {
                lemma_reduce_syntax(*left, level_here, after_left, stack, segment, table);
                let after_right = seq![operator] + rest;
                assert(after_left =~= right.postfix() + after_right);
                lemma_reduce_unresolved(
                    *right,
                    level_here + 1,
                    after_right,
                    stack.push(left.tree()),
                    segment,
                    table,
                );
            }
        },
    }
}

/// An infix expression that mentions a name which does not resolve, and
/// no name of another kind than scalar, is read as an error.
pub proof fn lemma_unresolved_reference_fails(syntax: Syntax, table: TableView)
    requires
        syntax.binds(0),
        syntax.scalars_only(table),
        !syntax.resolves(table),
    ensures
        expression(syntax.tokens(), table) == NodeView::Error,
{
    lemma_rpn_of_syntax(syntax);
    let none = Seq::<TokenView>::empty();
    assert(syntax.postfix() + none =~= syntax.postfix());
    lemma_reduce_unresolved(syntax, 0, none, Seq::empty(), syntax.tokens(), table);
}

/// Whether `token` is a name that does not resolve in `table`.
pub open spec fn is_unresolved(token: TokenView, table: TableView) -> bool {
    token.ttype == TokenType::Variable && match token.value {
        Some(name) => table.lookup(name).is_none(),
        None => false,
    }
}

/// Whether `token` is a name that resolves to an array in `table`: a name
/// at which the reading of an expression ends with an indexed read.
pub open spec fn names_array(token: TokenView, table: TableView) -> bool {
    token.ttype == TokenType::Variable && match token.value {
        Some(name) => match table.lookup(name) {
            Some(entry) => !entry.is_scalar() && entry.is_array(),
            None => false,
        },
        None => false,
    }
}

/// Whether the operand at position `at` of `operands` is a name that does
/// not resolve, and no operand before it is the name of an array.
pub open spec fn unresolved_at(operands: Seq<TokenView>, table: TableView, at: int) -> bool {
    &&& 0 <= at < operands.len()
    &&& is_unresolved(operands[at], table)
    &&& forall|i: int| 0 <= i < at ==> !names_array(#[trigger] operands[i], table)
}

/// Reducing tokens among whose operands a name does not resolve is an
/// error, whatever the other tokens are, unless the name of an array
/// comes before it.
pub proof fn lemma_reduce_unresolved_at(
    rpn: Seq<TokenView>,
    stack: Seq<NodeView>,
    segment: Seq<TokenView>,
    table: TableView,
    at: int,
)
    requires
        unresolved_at(operands(rpn), table, at),
    ensures
        reduce(rpn, stack, segment, table) == NodeView::Error,
    decreases rpn.len(),
{
    let all = operands(rpn);
    if rpn.len() > 0 {
        let token = rpn[0];
        let rest = rpn.skip(1);
        let after = operands(rest);
        match token.value {
            None => {},
            Some(text) => {
                if is_operand(token) {
                    assert(all == seq![token] + after);
                    assert(all[0] == token);
                    if at > 0 {
                        assert forall|i: int| 0 <= i < at - 1 implies !names_array(
                            #[trigger] after[i],
                            table,
                        ) by {
                            assert(after[i] == all[i + 1]);
                        }
                        assert(after[at - 1] == all[at]);
                        assert(!names_array(all[0], table));
                        lemma_reduce_unresolved_at(
                            rest,
                            stack.push(NodeView::Literal(text)),
                            segment,
                            table,
                            at - 1,
                        );
                        lemma_reduce_unresolved_at(
                            rest,
                            stack.push(NodeView::Variable(text)),
                            segment,
                            table,
                            at - 1,
                        );
                        lemma_reduce_unresolved_at(rest, stack, segment, table, at - 1);
                    }
                } else if token.ttype == TokenType::BinaryOperator {
                    assert(all == after);
                    if stack.len() >= 2 {
                        let joined = NodeView::BinaryOperation {
                            op: text,
                            left: Box::new(stack[stack.len() - 2]),
                            right: Box::new(stack[stack.len() - 1]),
                        };
                        lemma_reduce_unresolved_at(
                            rest,
                            stack.drop_last().drop_last().push(joined),
                            segment,
                            table,
                            at,
                        );
                    }
                }
            },
        }
    }
}

/// A reference to a name that does not resolve is an error wherever it
/// stands in the tokens of an expression, well formed or not: the name is
/// never dropped. Only the name of an array before it ends the reading
/// earlier, with an indexed read.
pub proof fn lemma_unresolved_anywhere(segment: Seq<TokenView>, table: TableView, at: int)
    requires
        unresolved_at(operands(segment), table, at),
    ensures
        expression(segment, table) == NodeView::Error,
{
    lemma_rpn_operands(segment);
    lemma_reduce_unresolved_at(to_rpn(segment), Seq::empty(), segment, table, at);
}

/// By how many the operands among `tokens` outnumber the binary
/// operators.
pub open spec fn surplus(tokens: Seq<TokenView>) -> int
    decreases tokens.len(),
{
    if tokens.len() == 0 {
        0
    } else if is_operand(tokens[0]) {
        1 + surplus(tokens.skip(1))
    } else if tokens[0].ttype == TokenType::BinaryOperator {
        surplus(tokens.skip(1)) - 1
    } else {
        surplus(tokens.skip(1))
    }
}

/// The surplus of two lists in a row is the sum of their surpluses.
pub proof fn lemma_surplus_add(first: Seq<TokenView>, second: Seq<TokenView>)
    ensures
        surplus(first + second) == surplus(first) + surplus(second),
    decreases first.len(),
{
    let all = first + second;
    if first.len() == 0 {
        assert(all == second);
    } else {
        assert(all[0] == first[0]);
        assert(all.skip(1) == first.skip(1) + second);
        lemma_surplus_add(first.skip(1), second);
    }
}

/// The reverse-Polish order of an expression holds a token.
pub proof fn lemma_postfix_not_empty(syntax: Syntax)
    ensures
        syntax.postfix().len() >= 1,
    decreases syntax,
{
    match syntax {
        Syntax::Operand(token) => {},
        Syntax::Group { open, inner, close } => {
            lemma_postfix_not_empty(*inner);
        },
        Syntax::Operation { operator, left, right } => {},
    }
}

/// In the reverse-Polish order of an expression there is one operand more
/// than there are operators, and in every beginning of it there are more
/// operands than operators: every operator finds its two operands before
/// it.
pub proof fn lemma_postfix_surplus(syntax: Syntax, level: nat, count: int)
    requires
        syntax.binds(level),
        1 <= count <= syntax.postfix().len(),
    ensures
        surplus(syntax.postfix()) == 1,
        surplus(syntax.postfix().take(count)) >= 1,
    decreases syntax,
{
    let all = syntax.postfix();
    match syntax {
        Syntax::Operand(token) => {
            reveal_with_fuel(surplus, 2);
            assert(all.skip(1).len() == 0);
            assert(all.take(count) == all);
        },
        Syntax::Group { open, inner, close } => {
            lemma_postfix_surplus(*inner, 0, count);
        },
        Syntax::Operation { operator, left, right } => {
            let level_here = binding(operator);
            let first = left.postfix();
            let second = right.postfix();
            let last = seq![operator];
            lemma_postfix_not_empty(*left);
            lemma_postfix_not_empty(*right);
            lemma_postfix_surplus(*left, level_here, first.len() as int);
            lemma_postfix_surplus(*right, level_here + 1, second.len() as int);
            assert(first.take(first.len() as int) == first);
            assert(second.take(second.len() as int) == second);
            reveal_with_fuel(surplus, 2);
            assert(last.skip(1).len() == 0);
            assert(surplus(last) == -1);
            lemma_surplus_add(first + second, last);
            lemma_surplus_add(first, second);
            if count <= first.len() {
                lemma_postfix_surplus(*left, level_here, count);
                assert(all.take(count) == first.take(count));
            } else if count <= first.len() + second.len() {
                let part = count - first.len();
                lemma_postfix_surplus(*right, level_here + 1, part);
                assert(all.take(count) == first + second.take(part));
                lemma_surplus_add(first, second.take(part));
            } else {
                assert(all.take(count) == all);
            }
        },
    }
}

} // verus!
