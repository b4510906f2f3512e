//! The statement shapes of the language, and the proof that the
//! segmentation automaton cuts a stream of such statements into exactly
//! those statements.

use crate::fsm::{delta, FsmView, ACCEPTING, REJECTED};
use crate::token::{TokenType, TokenView};
use vstd::prelude::*;

verus! {

/// Whether a token of category `kind` is an operand: a literal or a name.
pub open spec fn is_operand(kind: TokenType) -> bool {
    kind == TokenType::IntLiteral || kind == TokenType::Variable
}

/// Whether `kinds` is an expression as the automaton reads one: any number
/// of opening brackets, an operand, and what may follow an operand. With
/// `subscripts`, an operand may be followed by `[` and another expression,
/// and by `]`. Brackets are not counted: the automaton does not match
/// them.
pub open spec fn is_expression(kinds: Seq<TokenType>, subscripts: bool) -> bool
    decreases kinds.len(), 1nat,
{
    kinds.len() > 0 && ((kinds[0] == TokenType::OpenBracket && is_expression(
        kinds.skip(1),
        subscripts,
    )) || (is_operand(kinds[0]) && is_expression_tail(kinds.skip(1), subscripts)))
}

/// Whether `kinds` may follow an operand: nothing; a closing bracket and
/// what may follow it; a binary operator and an expression; or, with
/// `subscripts`, `[` and an expression, or `]` and what may follow it.
pub open spec fn is_expression_tail(kinds: Seq<TokenType>, subscripts: bool) -> bool
    decreases kinds.len(), 0nat,
{
    kinds.len() == 0 || (kinds[0] == TokenType::CloseBracket && is_expression_tail(
        kinds.skip(1),
        subscripts,
    )) || (kinds[0] == TokenType::BinaryOperator && is_expression(kinds.skip(1), subscripts)) || (
    subscripts && kinds[0] == TokenType::OpenArray && is_expression(kinds.skip(1), subscripts))
        || (subscripts && kinds[0] == TokenType::CloseArray && is_expression_tail(
        kinds.skip(1),
        subscripts,
    ))
}

/// Whether `kinds` is a list of names separated by commas.
pub open spec fn is_name_list(kinds: Seq<TokenType>) -> bool
    decreases kinds.len(),
{
    kinds.len() >= 1 && kinds[0] == TokenType::Variable && (kinds.len() == 1 || (kinds.len() >= 2
        && kinds[1] == TokenType::Comma && is_name_list(kinds.skip(2))))
}

/// Whether `kinds` is a list of `name = operand` pairs separated by commas.
pub open spec fn is_argument_list(kinds: Seq<TokenType>) -> bool
    decreases kinds.len(),
{
    kinds.len() >= 3 && kinds[0] == TokenType::Variable && kinds[1]
        == TokenType::AssignmentOperator && is_operand(kinds[2]) && (kinds.len() == 3 || (
    kinds.len() >= 4 && kinds[3] == TokenType::Comma && is_argument_list(kinds.skip(4))))
}

/// What stands between the first and the last token of a statement.
pub open spec fn inner(kinds: Seq<TokenType>, from: int) -> Seq<TokenType> {
    kinds.subrange(from, kinds.len() - 1)
}

/// An assignment to an array element, with `]` at position `close`:
/// `name [ index ] = expression ;`. The index is an expression without
/// subscripts.
pub open spec fn is_element_assignment(kinds: Seq<TokenType>, close: int) -> bool {
    &&& 2 < close < kinds.len() - 3
    &&& kinds[0] == TokenType::Variable
    &&& kinds[1] == TokenType::OpenArray
    &&& is_expression(kinds.subrange(2, close), false)
    &&& kinds[close] == TokenType::CloseArray
    &&& kinds[close + 1] == TokenType::AssignmentOperator
    &&& is_expression(inner(kinds, close + 2), true)
    &&& kinds.last() == TokenType::SemiColon
}

/// An expression line: `expression ;`, `name = expression ;`, or
/// `name [ index ] = expression ;`. The expression after `=` may hold
/// subscripts.
pub open spec fn is_expression_line(kinds: Seq<TokenType>) -> bool {
    ||| kinds.len() >= 2 && kinds.last() == TokenType::SemiColon && is_expression(
        inner(kinds, 0),
        false,
    )
    ||| kinds.len() >= 4 && kinds[0] == TokenType::Variable && kinds[1]
        == TokenType::AssignmentOperator && kinds.last() == TokenType::SemiColon && is_expression(
        inner(kinds, 2),
        true,
    )
    ||| exists|close: int| is_element_assignment(kinds, close)
}

/// A declaration: `var name ;`, `var name = expression ;`, or
/// `var name [ literal ] ;`. The expression may hold subscripts.
pub open spec fn is_declaration(kinds: Seq<TokenType>) -> bool {
    ||| kinds == seq![TokenType::Var, TokenType::Variable, TokenType::SemiColon]
    ||| kinds.len() >= 5 && kinds[0] == TokenType::Var && kinds[1] == TokenType::Variable
        && kinds[2] == TokenType::AssignmentOperator && kinds.last() == TokenType::SemiColon
        && is_expression(inner(kinds, 3), true)
    ||| kinds == seq![
        TokenType::Var,
        TokenType::Variable,
        TokenType::OpenArray,
        TokenType::IntLiteral,
        TokenType::CloseArray,
        TokenType::SemiColon,
    ]
}

/// Whether `kinds` is the left side of a condition as the automaton reads
/// one: an expression in which every operand that stands behind an opening
/// bracket, or behind an operator inside brackets, is followed by a closing
/// bracket before the side ends. So the comparison operator never stands
/// directly inside a bracket: `( a < b )` is no condition. Subscripts may
/// follow an operand.
pub open spec fn is_left_side(kinds: Seq<TokenType>) -> bool
    decreases kinds.len(), 1nat,
{
    kinds.len() > 0 && ((kinds[0] == TokenType::OpenBracket && is_opened(kinds.skip(1))) || (
    is_operand(kinds[0]) && is_left_side_tail(kinds.skip(1))))
}

/// Whether `kinds` may follow an operand or a closing bracket on the left
/// side of a condition: nothing; a closing bracket or `]` and what may
/// follow it; a binary operator or `[` and a left side.
pub open spec fn is_left_side_tail(kinds: Seq<TokenType>) -> bool
    decreases kinds.len(), 0nat,
{
    kinds.len() == 0 || ((kinds[0] == TokenType::CloseBracket || kinds[0]
        == TokenType::CloseArray) && is_left_side_tail(kinds.skip(1))) || ((kinds[0]
        == TokenType::BinaryOperator || kinds[0] == TokenType::OpenArray) && is_left_side(
        kinds.skip(1),
    ))
}

/// Whether `kinds` may follow an opening bracket on the left side of a
/// condition, or an operator inside brackets: more opening brackets, an
/// operand, and what must follow it.
pub open spec fn is_opened(kinds: Seq<TokenType>) -> bool
    decreases kinds.len(), 1nat,
{
    kinds.len() > 0 && ((kinds[0] == TokenType::OpenBracket && is_opened(kinds.skip(1))) || (
    is_operand(kinds[0]) && is_opened_tail(kinds.skip(1))))
}

/// Whether `kinds` may follow an operand inside brackets on the left side
/// of a condition: a closing bracket or `]` and what may follow it; a
/// binary operator and more of the bracket's content; or `[` and a left
/// side. The side does not end here.
pub open spec fn is_opened_tail(kinds: Seq<TokenType>) -> bool
    decreases kinds.len(), 0nat,
{
    kinds.len() > 0 && (((kinds[0] == TokenType::CloseBracket || kinds[0]
        == TokenType::CloseArray) && is_left_side_tail(kinds.skip(1))) || (kinds[0]
        == TokenType::BinaryOperator && is_opened(kinds.skip(1))) || (kinds[0]
        == TokenType::OpenArray && is_left_side(kinds.skip(1))))
}

/// The header of a block that opens with `keyword`: the keyword, the left
/// side of the condition, the comparison operator at position `cmp`, the
/// right side, and `;`. Both sides may hold subscripts.
pub open spec fn is_header(kinds: Seq<TokenType>, keyword: TokenType, cmp: int) -> bool {
    &&& 1 < cmp < kinds.len() - 2
    &&& kinds[0] == keyword
    &&& is_left_side(kinds.subrange(1, cmp))
    &&& kinds[cmp] == TokenType::ComparisonOperator
    &&& is_expression(inner(kinds, cmp + 1), true)
    &&& kinds.last() == TokenType::SemiColon
}

/// The header of an `if` block: `if expression comparison expression ;`.
pub open spec fn is_if_header(kinds: Seq<TokenType>) -> bool {
    exists|cmp: int| is_header(kinds, TokenType::If, cmp)
}

/// The header of a `while` block: `while expression comparison
/// expression ;`.
pub open spec fn is_while_header(kinds: Seq<TokenType>) -> bool {
    exists|cmp: int| is_header(kinds, TokenType::While, cmp)
}

/// An end marker: `endif ;`, `endwhile ;` or `endfunc ;`.
pub open spec fn is_end_marker(kinds: Seq<TokenType>) -> bool {
    kinds.len() == 2 && (kinds[0] == TokenType::EndIf || kinds[0] == TokenType::EndWhile
        || kinds[0] == TokenType::Endfunc) && kinds[1] == TokenType::SemiColon
}

/// A function definition: `func name ;` or `func name : names ;`.
pub open spec fn is_definition(kinds: Seq<TokenType>) -> bool {
    ||| kinds == seq![TokenType::Func, TokenType::Variable, TokenType::SemiColon]
    ||| kinds.len() >= 5 && kinds[0] == TokenType::Func && kinds[1] == TokenType::Variable
        && kinds[2] == TokenType::Colon && kinds.last() == TokenType::SemiColon && is_name_list(
        inner(kinds, 3),
    )
}

/// A call: `call name ;` or `call name : arguments ;`.
pub open spec fn is_call(kinds: Seq<TokenType>) -> bool {
    ||| kinds == seq![TokenType::Call, TokenType::Variable, TokenType::SemiColon]
    ||| kinds.len() >= 7 && kinds[0] == TokenType::Call && kinds[1] == TokenType::Variable
        && kinds[2] == TokenType::Colon && kinds.last() == TokenType::SemiColon
        && is_argument_list(inner(kinds, 3))
}

/// A print statement: `print expression ;`. The expression may hold
/// subscripts.
pub open spec fn is_print(kinds: Seq<TokenType>) -> bool {
    kinds.len() >= 3 && kinds[0] == TokenType::Print && kinds.last() == TokenType::SemiColon
        && is_expression(inner(kinds, 1), true)
}

/// Whether `kinds`, terminator included, has one of the eight statement
/// shapes.
pub open spec fn is_statement(kinds: Seq<TokenType>) -> bool {
    ||| is_expression_line(kinds)
    ||| is_declaration(kinds)
    ||| is_if_header(kinds)
    ||| is_while_header(kinds)
    ||| is_end_marker(kinds)
    ||| is_definition(kinds)
    ||| is_call(kinds)
    ||| is_print(kinds)
}

/// The state in which the automaton is after `kinds`, read from `state`,
/// if it neither gets stuck nor completes a statement on the way.
pub open spec fn run(state: i8, kinds: Seq<TokenType>) -> Option<i8>
    decreases kinds.len(),
{
    if kinds.len() == 0 {
        Some(state)
    } else {
        match delta(state, kinds[0]) {
            Some(next) => if next == ACCEPTING {
                None
            } else {
                run(next, kinds.skip(1))
            },
            None => None,
        }
    }
}

/// Whether the automaton, reading `kinds` from `state`, completes a
/// statement with the last token and not before.
pub open spec fn accepts(state: i8, kinds: Seq<TokenType>) -> bool {
    kinds.len() > 0 && match run(state, kinds.drop_last()) {
        Some(before) => delta(before, kinds.last()) == Some(ACCEPTING),
        None => false,
    }
}

/// Reading a sequence is reading its first `count` tokens, then the rest.
pub proof fn lemma_run_split(state: i8, kinds: Seq<TokenType>, count: int)
    requires
        0 <= count <= kinds.len(),
    ensures
        run(state, kinds) == match run(state, kinds.take(count)) {
            Some(middle) => run(middle, kinds.skip(count)),
            None => None,
        },
    decreases count,
{
    if count == 0 {
        assert(kinds.skip(0) == kinds);
    } else {
        assert(kinds.take(count)[0] == kinds[0]);
        assert(kinds.take(count).skip(1) == kinds.skip(1).take(count - 1));
        assert(kinds.skip(1).skip(count - 1) == kinds.skip(count));
        match delta(state, kinds[0]) {
            Some(next) => {
                if next != ACCEPTING {
                    lemma_run_split(next, kinds.skip(1), count - 1);
                }
            },
            None => {},
        }
    }
}

/// The states of a part of the automaton that reads an expression.
pub struct ExpressionStates {
    /// The state before the expression.
    pub first: i8,
    /// The state after an opening bracket or a binary operator.
    pub open: i8,
    /// The state after an operand that follows a bracket or an operator.
    pub operand: i8,
    /// The state after an operand that comes first, or a closing bracket.
    pub closed: i8,
}

impl ExpressionStates {
    /// Whether the transition table reads expressions through these states.
    pub open spec fn reads_expressions(self, subscripts: bool) -> bool {
        &&& delta(self.first, TokenType::OpenBracket) == Some(self.open)
        &&& delta(self.first, TokenType::IntLiteral) == Some(self.closed)
        &&& delta(self.first, TokenType::Variable) == Some(self.closed)
        &&& delta(self.open, TokenType::OpenBracket) == Some(self.open)
        &&& delta(self.open, TokenType::IntLiteral) == Some(self.operand)
        &&& delta(self.open, TokenType::Variable) == Some(self.operand)
        &&& delta(self.operand, TokenType::CloseBracket) == Some(self.closed)
        &&& delta(self.operand, TokenType::BinaryOperator) == Some(self.open)
        &&& delta(self.closed, TokenType::CloseBracket) == Some(self.closed)
        &&& delta(self.closed, TokenType::BinaryOperator) == Some(self.open)
        &&& subscripts ==> delta(self.operand, TokenType::OpenArray) == Some(self.first)
        &&& subscripts ==> delta(self.closed, TokenType::OpenArray) == Some(self.first)
        &&& subscripts ==> delta(self.operand, TokenType::CloseArray) == Some(self.closed)
        &&& subscripts ==> delta(self.closed, TokenType::CloseArray) == Some(self.closed)
        &&& self.first != ACCEPTING && self.open != ACCEPTING && self.operand != ACCEPTING
            && self.closed != ACCEPTING
    }

    /// Whether `state` is one of the two states after an operand.
    pub open spec fn after_operand(self, state: Option<i8>) -> bool {
        state == Some(self.operand) || state == Some(self.closed)
    }
}

/// An expression takes the automaton from before it to after an operand.
pub proof fn lemma_expression_read(states: ExpressionStates, kinds: Seq<TokenType>, subscripts: bool)
    requires
        states.reads_expressions(subscripts),
    ensures
        is_expression(kinds, subscripts) ==> states.after_operand(run(states.first, kinds))
            && states.after_operand(run(states.open, kinds)),
        is_expression_tail(kinds, subscripts) ==> states.after_operand(run(states.operand, kinds))
            && states.after_operand(run(states.closed, kinds)),
    decreases kinds.len(),
{
    if kinds.len() > 0 {
        lemma_expression_read(states, kinds.skip(1), subscripts);
    }
}

/// Reading one more token extends a run by one transition.
pub proof fn lemma_run_extend(state: i8, kinds: Seq<TokenType>, count: int)
    requires
        0 <= count < kinds.len(),
    ensures
        run(state, kinds.take(count + 1)) == match run(state, kinds.take(count)) {
            Some(middle) => match delta(middle, kinds[count]) {
                Some(next) => if next == ACCEPTING {
                    None
                } else {
                    Some(next)
                },
                None => None,
            },
            None => None,
        },
{
    reveal_with_fuel(run, 3);
    let longer = kinds.take(count + 1);
    lemma_run_split(state, longer, count);
    assert(longer.take(count) == kinds.take(count));
    let last = longer.skip(count);
    assert(last.len() == 1 && last[0] == kinds[count]);
    assert(last.skip(1).len() == 0);
}

/// A run over part of a sequence, continued over the part that follows.
pub proof fn lemma_run_continue(state: i8, kinds: Seq<TokenType>, from: int, to: int)
    requires
        0 <= from <= to <= kinds.len(),
    ensures
        run(state, kinds.take(to)) == match run(state, kinds.take(from)) {
            Some(middle) => run(middle, kinds.subrange(from, to)),
            None => None,
        },
{
    lemma_run_split(state, kinds.take(to), from);
    assert(kinds.take(to).take(from) == kinds.take(from));
    assert(kinds.take(to).skip(from) == kinds.subrange(from, to));
}

/// A statement that ends with an expression and `;` is accepted when the
/// tokens before the expression lead to a state that reads expressions and
/// whose operand states accept on `;`.
proof fn lemma_ends_with_expression(
    states: ExpressionStates,
    kinds: Seq<TokenType>,
    from: int,
    subscripts: bool,
)
    requires
        states.reads_expressions(subscripts),
        0 <= from < kinds.len() - 1,
        run(0, kinds.take(from)) == Some(states.first),
        is_expression(inner(kinds, from), subscripts),
        kinds.last() == TokenType::SemiColon,
        delta(states.operand, TokenType::SemiColon) == Some(ACCEPTING),
        delta(states.closed, TokenType::SemiColon) == Some(ACCEPTING),
    ensures
        accepts(0, kinds),
{
    lemma_run_continue(0, kinds, from, kinds.len() - 1);
    assert(kinds.take(kinds.len() - 1) == kinds.drop_last());
    lemma_expression_read(states, inner(kinds, from), subscripts);
}

/// An assignment to an array element is accepted.
pub proof fn lemma_element_assignment_accepted(kinds: Seq<TokenType>, close: int)
    requires
        is_element_assignment(kinds, close),
    ensures
        accepts(0, kinds),
{
    let index = ExpressionStates { first: 40, open: 41, operand: 42, closed: 43 };
    let value = ExpressionStates { first: 6, open: 7, operand: 8, closed: 9 };
    assert(kinds.take(0).len() == 0);
    lemma_run_extend(0, kinds, 0);
    lemma_run_extend(0, kinds, 1);
    lemma_run_continue(0, kinds, 2, close);
    lemma_expression_read(index, kinds.subrange(2, close), false);
    lemma_run_extend(0, kinds, close);
    lemma_run_extend(0, kinds, close + 1);
    lemma_ends_with_expression(value, kinds, close + 2, true);
}

/// An expression line is accepted.
pub proof fn lemma_expression_line_accepted(kinds: Seq<TokenType>)
    requires
        is_expression_line(kinds),
    ensures
        accepts(0, kinds),
{
    if kinds.len() >= 2 && kinds.last() == TokenType::SemiColon && is_expression(
        inner(kinds, 0),
        false,
    ) {
        let states = ExpressionStates { first: 0, open: 1, operand: 2, closed: 3 };
        assert(kinds.take(0).len() == 0);
        lemma_ends_with_expression(states, kinds, 0, false);
    } else if kinds.len() >= 4 && kinds[0] == TokenType::Variable && kinds[1]
        == TokenType::AssignmentOperator && kinds.last() == TokenType::SemiColon && is_expression(
        inner(kinds, 2),
        true,
    ) {
        let states = ExpressionStates { first: 6, open: 7, operand: 8, closed: 9 };
        assert(kinds.take(0).len() == 0);
        lemma_run_extend(0, kinds, 0);
        lemma_run_extend(0, kinds, 1);
        lemma_ends_with_expression(states, kinds, 2, true);
    } else {
        let close = choose|close: int| is_element_assignment(kinds, close);
        lemma_element_assignment_accepted(kinds, close);
    }
}

/// A declaration is accepted.
pub proof fn lemma_declaration_accepted(kinds: Seq<TokenType>)
    requires
        is_declaration(kinds),
    ensures
        accepts(0, kinds),
{
    assert(kinds.take(0).len() == 0);
    lemma_run_extend(0, kinds, 0);
    lemma_run_extend(0, kinds, 1);
    if kinds.len() == 3 {
        assert(kinds.take(2) == kinds.drop_last());
    } else if kinds[2] == TokenType::AssignmentOperator {
        let states = ExpressionStates { first: 6, open: 7, operand: 8, closed: 9 };
        lemma_run_extend(0, kinds, 2);
        lemma_ends_with_expression(states, kinds, 3, true);
    } else {
        lemma_run_extend(0, kinds, 2);
        lemma_run_extend(0, kinds, 3);
        lemma_run_extend(0, kinds, 4);
        assert(kinds.take(5) == kinds.drop_last());
    }
}

/// The left side of a condition takes the automaton from after the keyword
/// to the state in which a comparison operator may follow.
pub proof fn lemma_left_side_read(kinds: Seq<TokenType>)
    ensures
        is_left_side(kinds) ==> run(10, kinds) == Some(13i8),
        is_opened(kinds) ==> run(11, kinds) == Some(13i8),
        is_opened_tail(kinds) ==> run(12, kinds) == Some(13i8),
        is_left_side_tail(kinds) ==> run(13, kinds) == Some(13i8),
    decreases kinds.len(),
{
    if kinds.len() > 0 {
        lemma_left_side_read(kinds.skip(1));
    }
}

/// The header of an `if` or `while` block is accepted.
pub proof fn lemma_header_accepted(kinds: Seq<TokenType>, keyword: TokenType, cmp: int)
    requires
        keyword == TokenType::If || keyword == TokenType::While,
        is_header(kinds, keyword, cmp),
    ensures
        accepts(0, kinds),
{
    let right = ExpressionStates { first: 15, open: 16, operand: 17, closed: 18 };
    assert(kinds.take(0).len() == 0);
    lemma_run_extend(0, kinds, 0);
    lemma_run_continue(0, kinds, 1, cmp);
    lemma_left_side_read(kinds.subrange(1, cmp));
    lemma_run_extend(0, kinds, cmp);
    lemma_ends_with_expression(right, kinds, cmp + 1, true);
}

/// No statement is accepted in which a comparison operator stands directly
/// behind an operand that stands directly behind an opening bracket, as in
/// `if ( a < b ) ;`: the bracket is still open there.
pub proof fn lemma_comparison_not_in_bracket(kinds: Seq<TokenType>, at: int)
    requires
        0 <= at,
        at + 2 < kinds.len(),
        kinds[at] == TokenType::OpenBracket,
        is_operand(kinds[at + 1]),
        kinds[at + 2] == TokenType::ComparisonOperator,
    ensures
        !accepts(0, kinds),
{
    if accepts(0, kinds) {
        let body = kinds.drop_last();
        lemma_run_extend(0, kinds, at);
        lemma_run_extend(0, kinds, at + 1);
        if at + 2 < kinds.len() - 1 {
            lemma_run_prefix(0, body, at + 3);
            assert(body.take(at + 3) == kinds.take(at + 3));
            lemma_run_extend(0, kinds, at + 2);
        } else {
            assert(body == kinds.take(at + 2));
        }
    }
}

/// An end marker is accepted.
pub proof fn lemma_end_marker_accepted(kinds: Seq<TokenType>)
    requires
        is_end_marker(kinds),
    ensures
        accepts(0, kinds),
{
    assert(kinds.take(0).len() == 0);
    lemma_run_extend(0, kinds, 0);
    assert(kinds.take(1) == kinds.drop_last());
}

/// A list of names takes the automaton from after `:` to after a name.
proof fn lemma_name_list_read(kinds: Seq<TokenType>)
    requires
        is_name_list(kinds),
    ensures
        run(27, kinds) == Some(28i8),
    decreases kinds.len(),
{
    reveal_with_fuel(run, 3);
    if kinds.len() == 1 {
        assert(kinds.skip(1).len() == 0);
    } else {
        assert(kinds.skip(1)[0] == kinds[1]);
        assert(kinds.skip(1).skip(1) == kinds.skip(2));
        lemma_name_list_read(kinds.skip(2));
    }
}

/// A function definition is accepted.
pub proof fn lemma_definition_accepted(kinds: Seq<TokenType>)
    requires
        is_definition(kinds),
    ensures
        accepts(0, kinds),
{
    assert(kinds.take(0).len() == 0);
    lemma_run_extend(0, kinds, 0);
    lemma_run_extend(0, kinds, 1);
    if kinds.len() == 3 {
        assert(kinds.take(2) == kinds.drop_last());
    } else {
        lemma_run_extend(0, kinds, 2);
        lemma_run_continue(0, kinds, 3, kinds.len() - 1);
        assert(kinds.take(kinds.len() - 1) == kinds.drop_last());
        lemma_name_list_read(inner(kinds, 3));
    }
}

/// A list of arguments takes the automaton from after `:` to after a
/// value.
proof fn lemma_argument_list_read(kinds: Seq<TokenType>)
    requires
        is_argument_list(kinds),
    ensures
        run(21, kinds) == Some(24i8),
    decreases kinds.len(),
{
    reveal_with_fuel(run, 5);
    let a = kinds.skip(1);
    let b = a.skip(1);
    let c = b.skip(1);
    assert(a[0] == kinds[1]);
    assert(b[0] == kinds[2]);
    if kinds.len() == 3 {
        assert(c.len() == 0);
    } else {
        assert(c[0] == kinds[3]);
        assert(c.skip(1) == kinds.skip(4));
        lemma_argument_list_read(kinds.skip(4));
    }
}

/// A call is accepted.
pub proof fn lemma_call_accepted(kinds: Seq<TokenType>)
    requires
        is_call(kinds),
    ensures
        accepts(0, kinds),
{
    assert(kinds.take(0).len() == 0);
    lemma_run_extend(0, kinds, 0);
    lemma_run_extend(0, kinds, 1);
    if kinds.len() == 3 {
        assert(kinds.take(2) == kinds.drop_last());
    } else {
        lemma_run_extend(0, kinds, 2);
        lemma_run_continue(0, kinds, 3, kinds.len() - 1);
        assert(kinds.take(kinds.len() - 1) == kinds.drop_last());
        lemma_argument_list_read(inner(kinds, 3));
    }
}

/// A print statement is accepted.
pub proof fn lemma_print_accepted(kinds: Seq<TokenType>)
    requires
        is_print(kinds),
    ensures
        accepts(0, kinds),
{
    let states = ExpressionStates { first: 30, open: 36, operand: 37, closed: 38 };
    assert(kinds.take(0).len() == 0);
    lemma_run_extend(0, kinds, 0);
    lemma_ends_with_expression(states, kinds, 1, true);
}

/// Every statement of one of the eight shapes takes the automaton from
/// the start to the accepting state, which it reaches with the terminator
/// and not before.
pub proof fn lemma_statement_accepted(kinds: Seq<TokenType>)
    requires
        is_statement(kinds),
    ensures
        accepts(0, kinds),
{
    if is_expression_line(kinds) {
        lemma_expression_line_accepted(kinds);
    } else if is_declaration(kinds) {
        lemma_declaration_accepted(kinds);
    } else if is_if_header(kinds) {
        let cmp = choose|cmp: int| is_header(kinds, TokenType::If, cmp);
        lemma_header_accepted(kinds, TokenType::If, cmp);
    } else if is_while_header(kinds) {
        let cmp = choose|cmp: int| is_header(kinds, TokenType::While, cmp);
        lemma_header_accepted(kinds, TokenType::While, cmp);
    } else if is_end_marker(kinds) {
        lemma_end_marker_accepted(kinds);
    } else if is_definition(kinds) {
        lemma_definition_accepted(kinds);
    } else if is_call(kinds) {
        lemma_call_accepted(kinds);
    } else {
        lemma_print_accepted(kinds);
    }
}

/// The categories of a list of tokens.
pub open spec fn kinds_of(tokens: Seq<TokenView>) -> Seq<TokenType> {
    Seq::new(tokens.len(), |i: int| tokens[i].ttype)
}

/// What the automaton has done after a list of tokens.
pub struct Fed {
    /// The automaton after the tokens.
    pub machine: FsmView,
    /// The statements completed on the way, in order, each without its
    /// terminator.
    pub segments: Seq<Seq<TokenView>>,
}

/// Feeds `tokens` to the automaton one by one. Nothing if some token has
/// no transition.
pub open spec fn feed(machine: FsmView, tokens: Seq<TokenView>) -> Option<Fed>
    decreases tokens.len(),
{
    if tokens.len() == 0 {
        Some(Fed { machine, segments: Seq::empty() })
    } else {
        let step = machine.step(tokens[0]);
        if step.state == REJECTED {
            None
        } else {
            match feed(step.machine, tokens.skip(1)) {
                Some(rest) => Some(
                    Fed {
                        machine: rest.machine,
                        segments: match step.segment {
                            Some(segment) => seq![segment] + rest.segments,
                            None => rest.segments,
                        },
                    },
                ),
                None => None,
            }
        }
    }
}

/// Feeding two lists in a row is feeding the first, then the second.
pub proof fn lemma_feed_append(machine: FsmView, first: Seq<TokenView>, second: Seq<TokenView>)
    ensures
        feed(machine, first + second) == match feed(machine, first) {
            Some(a) => match feed(a.machine, second) {
                Some(b) => Some(Fed { machine: b.machine, segments: a.segments + b.segments }),
                None => None,
            },
            None => None,
        },
    decreases first.len(),
{
    let all = first + second;
    if first.len() == 0 {
        assert(all == second);
        match feed(machine, second) {
            Some(b) => {
                assert(Seq::<Seq<TokenView>>::empty() + b.segments == b.segments);
            },
            None => {},
        }
    } else {
        let step = machine.step(first[0]);
        assert(all[0] == first[0]);
        assert(all.skip(1) == first.skip(1) + second);
        if step.state != REJECTED {
            lemma_feed_append(step.machine, first.skip(1), second);
            match feed(step.machine, first.skip(1)) {
                Some(a) => {
                    match feed(a.machine, second) {
                        Some(b) => {
                            match step.segment {
                                Some(segment) => {
                                    assert(seq![segment] + (a.segments + b.segments) == (
                                    seq![segment] + a.segments) + b.segments);
                                },
                                None => {},
                            }
                        },
                        None => {},
                    }
                },
                None => {},
            }
        }
    }
}

/// Tokens that take the automaton through a run complete no statement and
/// are all kept.
pub proof fn lemma_feed_run(machine: FsmView, tokens: Seq<TokenView>)
    requires
        run(machine.state, kinds_of(tokens)).is_some(),
    ensures
        feed(machine, tokens) == Some(
            Fed {
                machine: FsmView {
                    state: run(machine.state, kinds_of(tokens)).unwrap(),
                    segment: machine.segment + tokens,
                },
                segments: Seq::empty(),
            },
        ),
    decreases tokens.len(),
{
    let kinds = kinds_of(tokens);
    if tokens.len() == 0 {
        assert(machine.segment + tokens == machine.segment);
    } else {
        let step = machine.step(tokens[0]);
        assert(kinds[0] == tokens[0].ttype);
        assert(kinds.skip(1) == kinds_of(tokens.skip(1)));
        lemma_feed_run(step.machine, tokens.skip(1));
        assert(machine.segment.push(tokens[0]) + tokens.skip(1) == machine.segment + tokens);
    }
}

/// A run that succeeds over a list succeeds over each of its beginnings.
pub proof fn lemma_run_prefix(state: i8, kinds: Seq<TokenType>, count: int)
    requires
        0 <= count <= kinds.len(),
        run(state, kinds).is_some(),
    ensures
        run(state, kinds.take(count)).is_some(),
{
    lemma_run_split(state, kinds, count);
}

/// The automaton completes a statement that it accepts exactly once, with
/// the last token; the statement it hands out is what it had read before
/// plus the tokens without the last one; and it is fresh afterwards.
pub proof fn lemma_feed_accepted(machine: FsmView, tokens: Seq<TokenView>)
    requires
        accepts(machine.state, kinds_of(tokens)),
    ensures
        feed(machine, tokens) == Some(
            Fed {
                machine: FsmView::fresh(),
                segments: seq![machine.segment + tokens.drop_last()],
            },
        ),
        forall|count: int|
            0 <= count < tokens.len() ==> silent(#[trigger] feed(machine, tokens.take(count))),
{
    let kinds = kinds_of(tokens);
    let body = tokens.drop_last();
    assert(kinds.drop_last() == kinds_of(body));
    lemma_feed_run(machine, body);
    lemma_feed_append(machine, body, seq![tokens.last()]);
    assert(body + seq![tokens.last()] == tokens);
    let before = feed(machine, body).unwrap().machine;
    let last = seq![tokens.last()];
    assert(last.skip(1).len() == 0);
    reveal_with_fuel(feed, 3);
    let step = before.step(tokens.last());
    assert(feed(before, last) == Some(
        Fed { machine: FsmView::fresh(), segments: seq![before.segment] },
    )) by {
        assert(seq![before.segment] + Seq::<Seq<TokenView>>::empty() == seq![before.segment]);
    }
    assert(Seq::<Seq<TokenView>>::empty() + seq![before.segment] == seq![before.segment]);
    assert forall|count: int| 0 <= count < tokens.len() implies silent(
        #[trigger] feed(machine, tokens.take(count)),
    ) by {
        assert(tokens.take(count) == body.take(count));
        assert(kinds_of(body).take(count) == kinds_of(body.take(count)));
        lemma_run_prefix(machine.state, kinds_of(body), count);
        lemma_feed_run(machine, body.take(count));
    }
}

/// Whether feeding gave no statement and did not fail.
pub open spec fn silent(fed: Option<Fed>) -> bool {
    match fed {
        Some(fed) => fed.segments.len() == 0,
        None => false,
    }
}

/// The tokens of a list of statements, one statement after the other.
pub open spec fn join(statements: Seq<Seq<TokenView>>) -> Seq<TokenView>
    decreases statements.len(),
{
    if statements.len() == 0 {
        Seq::empty()
    } else {
        join(statements.drop_last()) + statements.last()
    }
}

/// Each statement without its last token.
pub open spec fn bodies(statements: Seq<Seq<TokenView>>) -> Seq<Seq<TokenView>> {
    Seq::new(statements.len(), |i: int| statements[i].drop_last())
}

/// Fed the tokens of any number of statements, each of one of the eight
/// shapes, the automaton fails on none, completes one statement for each,
/// hands each out without its terminator, and ends fresh.
pub proof fn lemma_statements_segmented(statements: Seq<Seq<TokenView>>)
    requires
        forall|i: int|
            0 <= i < statements.len() ==> is_statement(kinds_of(#[trigger] statements[i])),
    ensures
        feed(FsmView::fresh(), join(statements)) == Some(
            Fed { machine: FsmView::fresh(), segments: bodies(statements) },
        ),
    decreases statements.len(),
{
    if statements.len() == 0 {
        assert(bodies(statements) == Seq::<Seq<TokenView>>::empty());
    } else {
        let before = statements.drop_last();
        let last = statements.last();
        assert forall|i: int| 0 <= i < before.len() implies is_statement(
            kinds_of(#[trigger] before[i]),
        ) by {
            assert(before[i] == statements[i]);
        }
        lemma_statements_segmented(before);
        lemma_statement_accepted(kinds_of(last));
        lemma_feed_accepted(FsmView::fresh(), last);
        lemma_feed_append(FsmView::fresh(), join(before), last);
        assert(Seq::<TokenView>::empty() + last.drop_last() == last.drop_last());
        assert(bodies(before) + seq![last.drop_last()] == bodies(statements));
    }
}

/// A statement handed out by an automaton that started fresh has at least
/// one token.
pub proof fn lemma_segment_not_empty(machine: FsmView, token: TokenView)
    requires
        machine.reachable(),
        machine.step(token).segment.is_some(),
    ensures
        machine.step(token).segment.unwrap().len() > 0,
{
}

} // verus!
