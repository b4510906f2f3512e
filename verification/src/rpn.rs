//! The operator-precedence pass: from the tokens of an expression in infix
//! order to the same operands and operators in reverse-Polish order.

use crate::text::text_or_empty;
use crate::token::{TokenType, TokenView};
use vstd::prelude::*;

verus! {

/// How tightly the binary operator `op` binds: `+` and `-` least, then `*`
/// and `/`, then `^`. A text that is none of these binds less than all.
pub open spec fn precedence(op: Seq<char>) -> nat {
    if op == "+"@ || op == "-"@ {
        1
    } else if op == "*"@ || op == "/"@ {
        2
    } else if op == "^"@ {
        3
    } else {
        0
    }
}

/// How tightly the operator token `token` binds.
pub open spec fn binding(token: TokenView) -> nat {
    precedence(text_or_empty(token.value))
}

/// The state of the pass: the output so far, and the stack of operators
/// and opening brackets that wait, its top last.
pub struct Yard {
    pub output: Seq<TokenView>,
    pub stack: Seq<TokenView>,
}

impl Yard {
    /// The yard before any token.
    pub open spec fn start() -> Yard {
        Yard { output: Seq::empty(), stack: Seq::empty() }
    }

    /// Whether the top of the stack is an operator that gives way to an
    /// operator that binds at `level`: one that binds at least as tightly.
    pub open spec fn top_yields(self, level: nat) -> bool {
        self.stack.len() > 0 && self.stack.last().ttype == TokenType::BinaryOperator && binding(
            self.stack.last(),
        ) >= level
    }

    /// The yard with the top of the stack moved to the output.
    pub open spec fn pop(self) -> Yard
        recommends
            self.stack.len() > 0,
    {
        Yard { output: self.output.push(self.stack.last()), stack: self.stack.drop_last() }
    }

    /// Moves operators from the stack to the output while the top yields
    /// to `level`.
    pub open spec fn pop_yielding(self, level: nat) -> Yard
        decreases self.stack.len(),
    {
        if self.top_yields(level) {
            self.pop().pop_yielding(level)
        } else {
            self
        }
    }

    /// Moves the stack to the output down to the nearest opening bracket,
    /// which is dropped. Without one, the whole stack moves.
    pub open spec fn close_bracket(self) -> Yard
        decreases self.stack.len(),
    {
        if self.stack.len() == 0 {
            self
        } else if self.stack.last().ttype == TokenType::OpenBracket {
            Yard { output: self.output, stack: self.stack.drop_last() }
        } else {
            self.pop().close_bracket()
        }
    }

    /// Moves the whole stack to the output, top first.
    pub open spec fn drain(self) -> Seq<TokenView>
        decreases self.stack.len(),
    {
        if self.stack.len() == 0 {
            self.output
        } else {
            self.pop().drain()
        }
    }

    /// One token. An operand goes to the output. An operator first lets
    /// the operators that yield to it go to the output, then waits on the
    /// stack. An opening bracket waits on the stack; a closing bracket
    /// releases what waits above the nearest opening one. Any other token
    /// is passed over.
    pub open spec fn shunt(self, token: TokenView) -> Yard {
        if token.ttype == TokenType::BinaryOperator {
            let popped = self.pop_yielding(binding(token));
            Yard { output: popped.output, stack: popped.stack.push(token) }
        } else if token.ttype == TokenType::IntLiteral || token.ttype == TokenType::Variable {
            Yard { output: self.output.push(token), stack: self.stack }
        } else if token.ttype == TokenType::OpenBracket {
            Yard { output: self.output, stack: self.stack.push(token) }
        } else if token.ttype == TokenType::CloseBracket {
            self.close_bracket()
        } else {
            self
        }
    }

    /// The tokens one after the other.
    pub open spec fn shunt_all(self, tokens: Seq<TokenView>) -> Yard
        decreases tokens.len(),
    {
        if tokens.len() == 0 {
            self
        } else {
            self.shunt(tokens[0]).shunt_all(tokens.skip(1))
        }
    }
}

/// The tokens of an infix expression in reverse-Polish order.
pub open spec fn to_rpn(tokens: Seq<TokenView>) -> Seq<TokenView> {
    Yard::start().shunt_all(tokens).drain()
}

/// Shunting two lists in a row is shunting the first, then the second.
pub proof fn lemma_shunt_append(yard: Yard, first: Seq<TokenView>, second: Seq<TokenView>)
    ensures
        yard.shunt_all(first + second) == yard.shunt_all(first).shunt_all(second),
    decreases first.len(),
{
    let all = first + second;
    if first.len() == 0 {
        assert(all == second);
    } else {
        assert(all[0] == first[0]);
        assert(all.skip(1) == first.skip(1) + second);
        lemma_shunt_append(yard.shunt(first[0]), first.skip(1), second);
    }
}

/// Whether `token` is an operand: a literal or a name.
pub open spec fn is_operand(token: TokenView) -> bool {
    token.ttype == TokenType::IntLiteral || token.ttype == TokenType::Variable
}

/// Whether `token` is an operand or a binary operator: a token that the
/// pass keeps.
pub open spec fn is_symbol(token: TokenView) -> bool {
    is_operand(token) || token.ttype == TokenType::BinaryOperator
}

/// The operands among `tokens`, in their order.
pub open spec fn operands(tokens: Seq<TokenView>) -> Seq<TokenView>
    decreases tokens.len(),
{
    if tokens.len() == 0 {
        Seq::empty()
    } else if is_operand(tokens[0]) {
        seq![tokens[0]] + operands(tokens.skip(1))
    } else {
        operands(tokens.skip(1))
    }
}

/// How often `token` stands among `tokens`.
pub open spec fn count(tokens: Seq<TokenView>, token: TokenView) -> nat
    decreases tokens.len(),
{
    if tokens.len() == 0 {
        0
    } else if tokens[0] == token {
        1 + count(tokens.skip(1), token)
    } else {
        count(tokens.skip(1), token)
    }
}

/// How many opening brackets stand among `tokens`.
pub open spec fn brackets(tokens: Seq<TokenView>) -> nat
    decreases tokens.len(),
{
    if tokens.len() == 0 {
        0
    } else if tokens[0].ttype == TokenType::OpenBracket {
        1 + brackets(tokens.skip(1))
    } else {
        brackets(tokens.skip(1))
    }
}

/// Whether the brackets of `tokens` match, given that `open` opening
/// brackets wait to be closed: no closing bracket comes without an opening
/// one before it, and none stays open.
pub open spec fn balanced(tokens: Seq<TokenView>, open: nat) -> bool
    decreases tokens.len(),
{
    if tokens.len() == 0 {
        open == 0
    } else if tokens[0].ttype == TokenType::OpenBracket {
        balanced(tokens.skip(1), open + 1)
    } else if tokens[0].ttype == TokenType::CloseBracket {
        open > 0 && balanced(tokens.skip(1), (open - 1) as nat)
    } else {
        balanced(tokens.skip(1), open)
    }
}

/// Whether every one of `tokens` is an operand or a binary operator.
pub open spec fn symbols_only(tokens: Seq<TokenView>) -> bool {
    forall|i: int| 0 <= i < tokens.len() ==> is_symbol(#[trigger] tokens[i])
}

/// Whether every one of `tokens` is a binary operator or an opening
/// bracket: a token that waits on the stack.
pub open spec fn waiting_only(tokens: Seq<TokenView>) -> bool {
    forall|i: int|
        0 <= i < tokens.len() ==> (#[trigger] tokens[i]).ttype == TokenType::BinaryOperator
            || tokens[i].ttype == TokenType::OpenBracket
}

/// The operands, the occurrences of a token and the opening brackets of
/// two lists in a row are those of the first and those of the second.
pub proof fn lemma_measures_add(first: Seq<TokenView>, second: Seq<TokenView>, token: TokenView)
    ensures
        operands(first + second) == operands(first) + operands(second),
        count(first + second, token) == count(first, token) + count(second, token),
        brackets(first + second) == brackets(first) + brackets(second),
    decreases first.len(),
{
    let all = first + second;
    if first.len() == 0 {
        assert(all == second);
        assert(operands(first) + operands(second) == operands(second));
    } else {
        assert(all[0] == first[0]);
        assert(all.skip(1) == first.skip(1) + second);
        lemma_measures_add(first.skip(1), second, token);
        assert(seq![first[0]] + (operands(first.skip(1)) + operands(second)) == (seq![first[0]]
            + operands(first.skip(1))) + operands(second));
    }
}

/// The operands, the occurrences of a token and the opening brackets of a
/// list with one more token at its end.
pub proof fn lemma_measures_push(tokens: Seq<TokenView>, last: TokenView, token: TokenView)
    ensures
        operands(tokens.push(last)) == if is_operand(last) {
            operands(tokens).push(last)
        } else {
            operands(tokens)
        },
        count(tokens.push(last), token) == count(tokens, token) + if last == token {
            1nat
        } else {
            0nat
        },
        brackets(tokens.push(last)) == brackets(tokens) + if last.ttype
            == TokenType::OpenBracket {
            1nat
        } else {
            0nat
        },
{
    let one = seq![last];
    reveal_with_fuel(operands, 2);
    reveal_with_fuel(count, 2);
    reveal_with_fuel(brackets, 2);
    assert(one.skip(1).len() == 0);
    assert(tokens.push(last) == tokens + one);
    lemma_measures_add(tokens, one, token);
    assert(operands(tokens) + Seq::<TokenView>::empty() == operands(tokens));
    assert(operands(tokens) + seq![last] == operands(tokens).push(last));
}

impl Yard {
    /// Whether the output holds operands and operators only, and the stack
    /// operators and opening brackets only. Every yard that the pass
    /// reaches is so.
    pub open spec fn tidy(self) -> bool {
        symbols_only(self.output) && waiting_only(self.stack)
    }

    /// How often `token` stands in the yard.
    pub open spec fn holds(self, token: TokenView) -> nat {
        count(self.output, token) + count(self.stack, token)
    }

    /// Whether `other` is this yard after tokens moved from the stack to
    /// the output or opening brackets left the stack: the operands of the
    /// output are in the order they were, and every operand and operator
    /// is there as often as it was.
    pub open spec fn kept_in(self, other: Yard) -> bool {
        &&& other.tidy()
        &&& operands(other.output) == operands(self.output)
        &&& forall|token: TokenView| is_symbol(token) ==> #[trigger] other.holds(token) == self.holds(token)
    }
}

/// Moving the top of the stack, an operator, to the output keeps the yard.
proof fn lemma_pop_keeps(yard: Yard)
    requires
        yard.tidy(),
        yard.stack.len() > 0,
        yard.stack.last().ttype == TokenType::BinaryOperator,
    ensures
        yard.kept_in(yard.pop()),
        brackets(yard.pop().stack) == brackets(yard.stack),
{
    let top = yard.stack.last();
    let popped = yard.pop();
    assert(yard.stack == yard.stack.drop_last().push(top));
    assert forall|token: TokenView| is_symbol(token) implies #[trigger] popped.holds(token)
        == yard.holds(token) by {
        lemma_measures_push(yard.output, top, token);
        lemma_measures_push(yard.stack.drop_last(), top, token);
    }
    lemma_measures_push(yard.output, top, top);
    lemma_measures_push(yard.stack.drop_last(), top, top);
    assert forall|i: int| 0 <= i < popped.output.len() implies is_symbol(
        #[trigger] popped.output[i],
    ) by {
        if i < yard.output.len() {
            assert(popped.output[i] == yard.output[i]);
        }
    }
    assert forall|i: int| 0 <= i < popped.stack.len() implies (#[trigger] popped.stack[i]).ttype
        == TokenType::BinaryOperator || popped.stack[i].ttype == TokenType::OpenBracket by {
        assert(popped.stack[i] == yard.stack[i]);
    }
}

/// Keeping a yard twice is keeping it.
proof fn lemma_kept_twice(first: Yard, second: Yard, third: Yard)
    requires
        first.kept_in(second),
        second.kept_in(third),
    ensures
        first.kept_in(third),
{
    assert forall|token: TokenView| is_symbol(token) implies #[trigger] third.holds(token)
        == first.holds(token) by {
        assert(second.holds(token) == first.holds(token));
    }
}

/// Letting the operators that yield go to the output keeps the yard and
/// its opening brackets.
pub proof fn lemma_pop_yielding_keeps(yard: Yard, level: nat)
    requires
        yard.tidy(),
    ensures
        yard.kept_in(yard.pop_yielding(level)),
        brackets(yard.pop_yielding(level).stack) == brackets(yard.stack),
    decreases yard.stack.len(),
{
    if yard.top_yields(level) {
        lemma_pop_keeps(yard);
        lemma_pop_yielding_keeps(yard.pop(), level);
        lemma_kept_twice(yard, yard.pop(), yard.pop_yielding(level));
    }
}

/// A closing bracket keeps the yard and takes one opening bracket from the
/// stack, if there is one.
pub proof fn lemma_close_bracket_keeps(yard: Yard)
    requires
        yard.tidy(),
    ensures
        yard.kept_in(yard.close_bracket()),
        brackets(yard.close_bracket().stack) == if brackets(yard.stack) > 0 {
            (brackets(yard.stack) - 1) as nat
        } else {
            0
        },
    decreases yard.stack.len(),
{
    if yard.stack.len() > 0 {
        let top = yard.stack.last();
        let below = yard.stack.drop_last();
        assert(yard.stack == below.push(top));
        if top.ttype == TokenType::OpenBracket {
            let closed = yard.close_bracket();
            lemma_measures_push(below, top, top);
            assert forall|token: TokenView| is_symbol(token) implies #[trigger] closed.holds(
                token,
            ) == yard.holds(token) by {
                lemma_measures_push(below, top, token);
            }
            assert forall|i: int| 0 <= i < below.len() implies (#[trigger] below[i]).ttype
                == TokenType::BinaryOperator || below[i].ttype == TokenType::OpenBracket by {
                assert(below[i] == yard.stack[i]);
            }
        } else {
            lemma_pop_keeps(yard);
            lemma_close_bracket_keeps(yard.pop());
            lemma_kept_twice(yard, yard.pop(), yard.close_bracket());
        }
    }
}

/// Draining keeps the order of the operands and how often every token
/// stands in the yard.
pub proof fn lemma_drain_keeps(yard: Yard, token: TokenView)
    requires
        waiting_only(yard.stack),
    ensures
        operands(yard.drain()) == operands(yard.output),
        count(yard.drain(), token) == yard.holds(token),
    decreases yard.stack.len(),
{
    if yard.stack.len() > 0 {
        let top = yard.stack.last();
        let below = yard.stack.drop_last();
        assert(yard.stack == below.push(top));
        lemma_measures_push(yard.output, top, token);
        lemma_measures_push(below, top, token);
        assert forall|i: int| 0 <= i < below.len() implies (#[trigger] below[i]).ttype
            == TokenType::BinaryOperator || below[i].ttype == TokenType::OpenBracket by {
            assert(below[i] == yard.stack[i]);
        }
        lemma_drain_keeps(yard.pop(), token);
    }
}

/// Draining a tidy yard without an opening bracket gives operands and
/// operators only.
pub proof fn lemma_drain_symbols(yard: Yard)
    requires
        yard.tidy(),
        brackets(yard.stack) == 0,
    ensures
        symbols_only(yard.drain()),
    decreases yard.stack.len(),
{
    if yard.stack.len() > 0 {
        let top = yard.stack.last();
        let below = yard.stack.drop_last();
        assert(yard.stack == below.push(top));
        lemma_measures_push(below, top, top);
        lemma_pop_keeps(yard);
        lemma_drain_symbols(yard.pop());
    }
}

/// One token: the yard stays tidy; an operand joins the operands of the
/// output, at their end; an operand or operator is in the yard once more;
/// an opening bracket is on the stack, and a closing one takes one off.
pub proof fn lemma_shunt_keeps(yard: Yard, token: TokenView)
    requires
        yard.tidy(),
    ensures
        yard.shunt(token).tidy(),
        operands(yard.shunt(token).output) == if is_operand(token) {
            operands(yard.output).push(token)
        } else {
            operands(yard.output)
        },
        forall|other: TokenView|
            is_symbol(other) ==> #[trigger] yard.shunt(token).holds(other) == yard.holds(other)
                + if token == other {
                1nat
            } else {
                0nat
            },
        brackets(yard.shunt(token).stack) == if token.ttype == TokenType::OpenBracket {
            brackets(yard.stack) + 1
        } else if token.ttype == TokenType::CloseBracket && brackets(yard.stack) > 0 {
            (brackets(yard.stack) - 1) as nat
        } else {
            brackets(yard.stack)
        },
{
    let after = yard.shunt(token);
    if token.ttype == TokenType::BinaryOperator {
        let popped = yard.pop_yielding(binding(token));
        lemma_pop_yielding_keeps(yard, binding(token));
        lemma_measures_push(popped.stack, token, token);
        assert forall|other: TokenView| is_symbol(other) implies #[trigger] after.holds(other)
            == yard.holds(other) + if token == other {
            1nat
        } else {
            0nat
        } by {
            lemma_measures_push(popped.stack, token, other);
            assert(popped.holds(other) == yard.holds(other));
        }
        assert forall|i: int| 0 <= i < after.stack.len() implies (#[trigger] after.stack[i]).ttype
            == TokenType::BinaryOperator || after.stack[i].ttype == TokenType::OpenBracket by {
            if i < popped.stack.len() {
                assert(after.stack[i] == popped.stack[i]);
            }
        }
    } else if is_operand(token) {
        lemma_measures_push(yard.output, token, token);
        assert forall|other: TokenView| is_symbol(other) implies #[trigger] after.holds(other)
            == yard.holds(other) + if token == other {
            1nat
        } else {
            0nat
        } by {
            lemma_measures_push(yard.output, token, other);
        }
        assert forall|i: int| 0 <= i < after.output.len() implies is_symbol(
            #[trigger] after.output[i],
        ) by {
            if i < yard.output.len() {
                assert(after.output[i] == yard.output[i]);
            }
        }
    } else if token.ttype == TokenType::OpenBracket {
        lemma_measures_push(yard.stack, token, token);
        assert forall|other: TokenView| is_symbol(other) implies #[trigger] after.holds(other)
            == yard.holds(other) + if token == other {
            1nat
        } else {
            0nat
        } by {
            lemma_measures_push(yard.stack, token, other);
        }
        assert forall|i: int| 0 <= i < after.stack.len() implies (#[trigger] after.stack[i]).ttype
            == TokenType::BinaryOperator || after.stack[i].ttype == TokenType::OpenBracket by {
            if i < yard.stack.len() {
                assert(after.stack[i] == yard.stack[i]);
            }
        }
    } else if token.ttype == TokenType::CloseBracket {
        lemma_close_bracket_keeps(yard);
        assert forall|other: TokenView| is_symbol(other) implies #[trigger] after.holds(other)
            == yard.holds(other) + if token == other {
            1nat
        } else {
            0nat
        } by {
            assert(after.holds(other) == yard.holds(other));
        }
    } else {
    }
}

/// The tokens one after the other: the yard stays tidy; the operands of
/// the tokens join the operands of the output in their order; every
/// operand and operator of the tokens is in the yard; and if the brackets
/// of the tokens match those that wait, no opening bracket is left.
pub proof fn lemma_shunt_all_keeps(yard: Yard, tokens: Seq<TokenView>)
    requires
        yard.tidy(),
    ensures
        yard.shunt_all(tokens).tidy(),
        operands(yard.shunt_all(tokens).output) == operands(yard.output) + operands(tokens),
        forall|other: TokenView|
            is_symbol(other) ==> #[trigger] yard.shunt_all(tokens).holds(other) == yard.holds(
                other,
            ) + count(tokens, other),
        balanced(tokens, brackets(yard.stack)) ==> brackets(yard.shunt_all(tokens).stack) == 0,
    decreases tokens.len(),
{
    if tokens.len() == 0 {
        assert(operands(yard.output) + operands(tokens) == operands(yard.output));
    } else {
        let next = yard.shunt(tokens[0]);
        let rest = tokens.skip(1);
        lemma_shunt_keeps(yard, tokens[0]);
        lemma_shunt_all_keeps(next, rest);
        let after = yard.shunt_all(tokens);
        assert forall|other: TokenView| is_symbol(other) implies #[trigger] after.holds(other)
            == yard.holds(other) + count(tokens, other) by {
            assert(next.holds(other) == yard.holds(other) + if tokens[0] == other {
                1nat
            } else {
                0nat
            });
            assert(after.holds(other) == next.holds(other) + count(rest, other));
        }
        if is_operand(tokens[0]) {
            assert(operands(yard.output).push(tokens[0]) + operands(rest) == operands(
                yard.output,
            ) + (seq![tokens[0]] + operands(rest)));
        }
    }
}

/// The pass keeps the operands in their order: the operands of the
/// reverse-Polish order are the operands of the tokens, one for one.
pub proof fn lemma_rpn_operands(tokens: Seq<TokenView>)
    ensures
        operands(to_rpn(tokens)) == operands(tokens),
{
    let start = Yard::start();
    let end = start.shunt_all(tokens);
    lemma_shunt_all_keeps(start, tokens);
    lemma_drain_keeps(end, arbitrary());
    assert(operands(start.output) + operands(tokens) == operands(tokens));
}

/// The pass neither loses nor makes up an operand or an operator: each
/// stands in the reverse-Polish order as often as among the tokens.
pub proof fn lemma_rpn_counts(tokens: Seq<TokenView>, token: TokenView)
    requires
        is_symbol(token),
    ensures
        count(to_rpn(tokens), token) == count(tokens, token),
{
    let start = Yard::start();
    let end = start.shunt_all(tokens);
    lemma_shunt_all_keeps(start, tokens);
    lemma_drain_keeps(end, token);
    assert(end.holds(token) == start.holds(token) + count(tokens, token));
}

/// Of tokens whose brackets match, the reverse-Polish order holds operands
/// and operators only: no bracket, and no other token.
pub proof fn lemma_rpn_symbols(tokens: Seq<TokenView>)
    requires
        balanced(tokens, 0),
    ensures
        symbols_only(to_rpn(tokens)),
{
    let start = Yard::start();
    lemma_shunt_all_keeps(start, tokens);
    lemma_drain_symbols(start.shunt_all(tokens));
}

} // verus!
