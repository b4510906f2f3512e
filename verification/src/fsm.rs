//! The segmentation automaton: a deterministic finite-state machine that
//! reads one token at a time and cuts the token stream into statements.

use crate::token::{Token, TokenType, TokenView};
use vstd::prelude::*;

verus! {

/// The state in which a statement is complete.
pub const ACCEPTING: i8 = 99;

/// The state reported when no transition exists.
pub const REJECTED: i8 = -1;

/// The transition table: the state that follows `state` on a token of
/// category `kind`, if there is one.
pub open spec fn delta(state: i8, kind: TokenType) -> Option<i8> {
    match (state, kind) {
        // The start of a statement.
        (0, TokenType::OpenBracket) => Some(1),
        (0, TokenType::IntLiteral) => Some(3),
        (0, TokenType::Variable) => Some(3),
        (0, TokenType::Var) => Some(4),
        (0, TokenType::If) => Some(10),
        (0, TokenType::While) => Some(10),
        (0, TokenType::Call) => Some(19),
        (0, TokenType::Func) => Some(25),
        (0, TokenType::EndIf) => Some(29),
        (0, TokenType::EndWhile) => Some(29),
        (0, TokenType::Endfunc) => Some(29),
        (0, TokenType::Print) => Some(30),
        // An expression line.
        (1, TokenType::OpenBracket) => Some(1),
        (1, TokenType::IntLiteral) => Some(2),
        (1, TokenType::Variable) => Some(2),
        (2, TokenType::CloseBracket) => Some(3),
        (2, TokenType::BinaryOperator) => Some(1),
        (2, TokenType::SemiColon) => Some(99),
        (2, TokenType::AssignmentOperator) => Some(0),
        (3, TokenType::CloseBracket) => Some(3),
        (3, TokenType::BinaryOperator) => Some(1),
        (3, TokenType::SemiColon) => Some(99),
        (3, TokenType::AssignmentOperator) => Some(6),
        (3, TokenType::OpenArray) => Some(40),
        // The index of an assignment to an array element.
        (40, TokenType::OpenBracket) => Some(41),
        (40, TokenType::IntLiteral) => Some(43),
        (40, TokenType::Variable) => Some(43),
        (41, TokenType::OpenBracket) => Some(41),
        (41, TokenType::IntLiteral) => Some(42),
        (41, TokenType::Variable) => Some(42),
        (42, TokenType::CloseBracket) => Some(43),
        (42, TokenType::BinaryOperator) => Some(41),
        (42, TokenType::CloseArray) => Some(44),
        (43, TokenType::CloseBracket) => Some(43),
        (43, TokenType::BinaryOperator) => Some(41),
        (43, TokenType::CloseArray) => Some(44),
        (44, TokenType::AssignmentOperator) => Some(6),
        // A declaration.
        (4, TokenType::Variable) => Some(5),
        (5, TokenType::AssignmentOperator) => Some(6),
        (5, TokenType::SemiColon) => Some(99),
        (5, TokenType::OpenArray) => Some(32),
        (32, TokenType::IntLiteral) => Some(33),
        (33, TokenType::CloseArray) => Some(34),
        (34, TokenType::SemiColon) => Some(99),
        // The right-hand side of an assignment.
        (6, TokenType::OpenBracket) => Some(7),
        (6, TokenType::IntLiteral) => Some(9),
        (6, TokenType::Variable) => Some(9),
        (7, TokenType::OpenBracket) => Some(7),
        (7, TokenType::IntLiteral) => Some(8),
        (7, TokenType::Variable) => Some(8),
        (8, TokenType::CloseBracket) => Some(9),
        (8, TokenType::BinaryOperator) => Some(7),
        (8, TokenType::SemiColon) => Some(99),
        (8, TokenType::OpenArray) => Some(6),
        (8, TokenType::CloseArray) => Some(9),
        (9, TokenType::CloseBracket) => Some(9),
        (9, TokenType::BinaryOperator) => Some(7),
        (9, TokenType::SemiColon) => Some(99),
        (9, TokenType::OpenArray) => Some(6),
        (9, TokenType::CloseArray) => Some(9),
        // The left side of a condition. State 10 waits for an operand outside
        // brackets, state 11 for one inside a bracket. In state 12 an operand
        // stands inside a bracket that is still open, so no comparison
        // operator follows it; in state 13 the side may end.
        (10, TokenType::OpenBracket) => Some(11),
        (10, TokenType::IntLiteral) => Some(13),
        (10, TokenType::Variable) => Some(13),
        (11, TokenType::OpenBracket) => Some(11),
        (11, TokenType::IntLiteral) => Some(12),
        (11, TokenType::Variable) => Some(12),
        (12, TokenType::CloseBracket) => Some(13),
        (12, TokenType::BinaryOperator) => Some(11),
        (12, TokenType::OpenArray) => Some(10),
        (12, TokenType::CloseArray) => Some(13),
        (13, TokenType::CloseBracket) => Some(13),
        (13, TokenType::BinaryOperator) => Some(10),
        (13, TokenType::ComparisonOperator) => Some(15),
        (13, TokenType::OpenArray) => Some(10),
        (13, TokenType::CloseArray) => Some(13),
        // The right side of a condition.
        (15, TokenType::OpenBracket) => Some(16),
        (15, TokenType::IntLiteral) => Some(18),
        (15, TokenType::Variable) => Some(18),
        (16, TokenType::OpenBracket) => Some(16),
        (16, TokenType::IntLiteral) => Some(17),
        (16, TokenType::Variable) => Some(17),
        (17, TokenType::CloseBracket) => Some(18),
        (17, TokenType::BinaryOperator) => Some(16),
        (17, TokenType::SemiColon) => Some(99),
        (17, TokenType::OpenArray) => Some(15),
        (17, TokenType::CloseArray) => Some(18),
        (18, TokenType::CloseBracket) => Some(18),
        (18, TokenType::BinaryOperator) => Some(16),
        (18, TokenType::SemiColon) => Some(99),
        (18, TokenType::OpenArray) => Some(15),
        (18, TokenType::CloseArray) => Some(18),
        // A call.
        (19, TokenType::Variable) => Some(20),
        (20, TokenType::Colon) => Some(21),
        (20, TokenType::SemiColon) => Some(99),
        (21, TokenType::Variable) => Some(22),
        (22, TokenType::AssignmentOperator) => Some(23),
        (23, TokenType::IntLiteral) => Some(24),
        (23, TokenType::Variable) => Some(24),
        (24, TokenType::SemiColon) => Some(99),
        (24, TokenType::Comma) => Some(21),
        // A function definition.
        (25, TokenType::Variable) => Some(26),
        (26, TokenType::Colon) => Some(27),
        (26, TokenType::SemiColon) => Some(99),
        (27, TokenType::Variable) => Some(28),
        (28, TokenType::Comma) => Some(27),
        (28, TokenType::SemiColon) => Some(99),
        // An end marker.
        (29, TokenType::SemiColon) => Some(99),
        // A print statement.
        (30, TokenType::OpenBracket) => Some(36),
        (30, TokenType::IntLiteral) => Some(38),
        (30, TokenType::Variable) => Some(38),
        (36, TokenType::OpenBracket) => Some(36),
        (36, TokenType::IntLiteral) => Some(37),
        (36, TokenType::Variable) => Some(37),
        (37, TokenType::CloseBracket) => Some(38),
        (37, TokenType::BinaryOperator) => Some(36),
        (37, TokenType::SemiColon) => Some(99),
        (37, TokenType::OpenArray) => Some(30),
        (37, TokenType::CloseArray) => Some(38),
        (38, TokenType::CloseBracket) => Some(38),
        (38, TokenType::BinaryOperator) => Some(36),
        (38, TokenType::SemiColon) => Some(99),
        (38, TokenType::OpenArray) => Some(30),
        (38, TokenType::CloseArray) => Some(38),
        // The accepting state.
        (99, TokenType::CloseArray) => Some(99),
        (99, TokenType::SemiColon) => Some(99),
        _ => None,
    }
}

/// The transition table.
pub fn transition(state: i8, kind: TokenType) -> (next: Option<i8>)
    ensures
        next == delta(state, kind),
{
    match (state, kind) {
        // The start of a statement.
        (0, TokenType::OpenBracket) => Some(1),
        (0, TokenType::IntLiteral) => Some(3),
        (0, TokenType::Variable) => Some(3),
        (0, TokenType::Var) => Some(4),
        (0, TokenType::If) => Some(10),
        (0, TokenType::While) => Some(10),
        (0, TokenType::Call) => Some(19),
        (0, TokenType::Func) => Some(25),
        (0, TokenType::EndIf) => Some(29),
        (0, TokenType::EndWhile) => Some(29),
        (0, TokenType::Endfunc) => Some(29),
        (0, TokenType::Print) => Some(30),
        // An expression line.
        (1, TokenType::OpenBracket) => Some(1),
        (1, TokenType::IntLiteral) => Some(2),
        (1, TokenType::Variable) => Some(2),
        (2, TokenType::CloseBracket) => Some(3),
        (2, TokenType::BinaryOperator) => Some(1),
        (2, TokenType::SemiColon) => Some(99),
        (2, TokenType::AssignmentOperator) => Some(0),
        (3, TokenType::CloseBracket) => Some(3),
        (3, TokenType::BinaryOperator) => Some(1),
        (3, TokenType::SemiColon) => Some(99),
        (3, TokenType::AssignmentOperator) => Some(6),
        (3, TokenType::OpenArray) => Some(40),
        // The index of an assignment to an array element.
        (40, TokenType::OpenBracket) => Some(41),
        (40, TokenType::IntLiteral) => Some(43),
        (40, TokenType::Variable) => Some(43),
        (41, TokenType::OpenBracket) => Some(41),
        (41, TokenType::IntLiteral) => Some(42),
        (41, TokenType::Variable) => Some(42),
        (42, TokenType::CloseBracket) => Some(43),
        (42, TokenType::BinaryOperator) => Some(41),
        (42, TokenType::CloseArray) => Some(44),
        (43, TokenType::CloseBracket) => Some(43),
        (43, TokenType::BinaryOperator) => Some(41),
        (43, TokenType::CloseArray) => Some(44),
        (44, TokenType::AssignmentOperator) => Some(6),
        // A declaration.
        (4, TokenType::Variable) => Some(5),
        (5, TokenType::AssignmentOperator) => Some(6),
        (5, TokenType::SemiColon) => Some(99),
        (5, TokenType::OpenArray) => Some(32),
        (32, TokenType::IntLiteral) => Some(33),
        (33, TokenType::CloseArray) => Some(34),
        (34, TokenType::SemiColon) => Some(99),
        // The right-hand side of an assignment.
        (6, TokenType::OpenBracket) => Some(7),
        (6, TokenType::IntLiteral) => Some(9),
        (6, TokenType::Variable) => Some(9),
        (7, TokenType::OpenBracket) => Some(7),
        (7, TokenType::IntLiteral) => Some(8),
        (7, TokenType::Variable) => Some(8),
        (8, TokenType::CloseBracket) => Some(9),
        (8, TokenType::BinaryOperator) => Some(7),
        (8, TokenType::SemiColon) => Some(99),
        (8, TokenType::OpenArray) => Some(6),
        (8, TokenType::CloseArray) => Some(9),
        (9, TokenType::CloseBracket) => Some(9),
        (9, TokenType::BinaryOperator) => Some(7),
        (9, TokenType::SemiColon) => Some(99),
        (9, TokenType::OpenArray) => Some(6),
        (9, TokenType::CloseArray) => Some(9),
        // The left side of a condition. State 10 waits for an operand outside
        // brackets, state 11 for one inside a bracket. In state 12 an operand
        // stands inside a bracket that is still open, so no comparison
        // operator follows it; in state 13 the side may end.
        (10, TokenType::OpenBracket) => Some(11),
        (10, TokenType::IntLiteral) => Some(13),
        (10, TokenType::Variable) => Some(13),
        (11, TokenType::OpenBracket) => Some(11),
        (11, TokenType::IntLiteral) => Some(12),
        (11, TokenType::Variable) => Some(12),
        (12, TokenType::CloseBracket) => Some(13),
        (12, TokenType::BinaryOperator) => Some(11),
        (12, TokenType::OpenArray) => Some(10),
        (12, TokenType::CloseArray) => Some(13),
        (13, TokenType::CloseBracket) => Some(13),
        (13, TokenType::BinaryOperator) => Some(10),
        (13, TokenType::ComparisonOperator) => Some(15),
        (13, TokenType::OpenArray) => Some(10),
        (13, TokenType::CloseArray) => Some(13),
        // The right side of a condition.
        (15, TokenType::OpenBracket) => Some(16),
        (15, TokenType::IntLiteral) => Some(18),
        (15, TokenType::Variable) => Some(18),
        (16, TokenType::OpenBracket) => Some(16),
        (16, TokenType::IntLiteral) => Some(17),
        (16, TokenType::Variable) => Some(17),
        (17, TokenType::CloseBracket) => Some(18),
        (17, TokenType::BinaryOperator) => Some(16),
        (17, TokenType::SemiColon) => Some(99),
        (17, TokenType::OpenArray) => Some(15),
        (17, TokenType::CloseArray) => Some(18),
        (18, TokenType::CloseBracket) => Some(18),
        (18, TokenType::BinaryOperator) => Some(16),
        (18, TokenType::SemiColon) => Some(99),
        (18, TokenType::OpenArray) => Some(15),
        (18, TokenType::CloseArray) => Some(18),
        // A call.
        (19, TokenType::Variable) => Some(20),
        (20, TokenType::Colon) => Some(21),
        (20, TokenType::SemiColon) => Some(99),
        (21, TokenType::Variable) => Some(22),
        (22, TokenType::AssignmentOperator) => Some(23),
        (23, TokenType::IntLiteral) => Some(24),
        (23, TokenType::Variable) => Some(24),
        (24, TokenType::SemiColon) => Some(99),
        (24, TokenType::Comma) => Some(21),
        // A function definition.
        (25, TokenType::Variable) => Some(26),
        (26, TokenType::Colon) => Some(27),
        (26, TokenType::SemiColon) => Some(99),
        (27, TokenType::Variable) => Some(28),
        (28, TokenType::Comma) => Some(27),
        (28, TokenType::SemiColon) => Some(99),
        // An end marker.
        (29, TokenType::SemiColon) => Some(99),
        // A print statement.
        (30, TokenType::OpenBracket) => Some(36),
        (30, TokenType::IntLiteral) => Some(38),
        (30, TokenType::Variable) => Some(38),
        (36, TokenType::OpenBracket) => Some(36),
        (36, TokenType::IntLiteral) => Some(37),
        (36, TokenType::Variable) => Some(37),
        (37, TokenType::CloseBracket) => Some(38),
        (37, TokenType::BinaryOperator) => Some(36),
        (37, TokenType::SemiColon) => Some(99),
        (37, TokenType::OpenArray) => Some(30),
        (37, TokenType::CloseArray) => Some(38),
        (38, TokenType::CloseBracket) => Some(38),
        (38, TokenType::BinaryOperator) => Some(36),
        (38, TokenType::SemiColon) => Some(99),
        (38, TokenType::OpenArray) => Some(30),
        (38, TokenType::CloseArray) => Some(38),
        // The accepting state.
        (99, TokenType::CloseArray) => Some(99),
        (99, TokenType::SemiColon) => Some(99),
        _ => None,
    }
}

/// The mathematical value of the automaton: its state and the tokens of the
/// statement read so far.
pub struct FsmView {
    pub state: i8,
    pub segment: Seq<TokenView>,
}

/// What one step of the automaton gives.
pub struct Step {
    /// The automaton after the step.
    pub machine: FsmView,
    /// The completed statement, without its terminator, if the step
    /// completed one.
    pub segment: Option<Seq<TokenView>>,
    /// The state reached: the accepting state when a statement was
    /// completed, `REJECTED` when there was no transition.
    pub state: i8,
}

impl FsmView {
    /// The automaton before any token.
    pub open spec fn fresh() -> FsmView {
        FsmView { state: 0, segment: Seq::empty() }
    }

    /// One step on `token`. Without a transition the automaton stays as it
    /// is. A transition to the accepting state hands out the tokens read
    /// before `token` and starts afresh. Any other transition keeps `token`.
    pub open spec fn step(self, token: TokenView) -> Step {
        match delta(self.state, token.ttype) {
            None => Step { machine: self, segment: None, state: REJECTED },
            Some(next) => if next == ACCEPTING {
                Step { machine: FsmView::fresh(), segment: Some(self.segment), state: ACCEPTING }
            } else {
                Step {
                    machine: FsmView { state: next, segment: self.segment.push(token) },
                    segment: None,
                    state: next,
                }
            },
        }
    }

    /// Whether the automaton is in a state it can reach from the start:
    /// never the accepting state, and past the start only with a token
    /// read. Every statement handed out by such an automaton has a token.
    pub open spec fn reachable(self) -> bool {
        self.state != ACCEPTING && (self.state != 0 ==> self.segment.len() > 0)
    }
}

/// The token views of a list of tokens.
pub open spec fn token_views(tokens: Seq<Token>) -> Seq<TokenView> {
    Seq::new(tokens.len(), |i: int| tokens[i]@)
}

/// The segmentation automaton.
#[derive(Debug)]
pub struct FiniteStateMachine {
    cur_state: i8,
    segment: Vec<Token>,
}

impl View for FiniteStateMachine {
    type V = FsmView;

    closed spec fn view(&self) -> FsmView {
        FsmView { state: self.cur_state, segment: token_views(self.segment@) }
    }
}

impl FiniteStateMachine {
    /// An automaton before any token.
    pub fn new() -> (machine: Self)
        ensures
            machine@ == FsmView::fresh(),
    {
        let machine = FiniteStateMachine { cur_state: 0, segment: Vec::new() };
        assert(machine@.segment =~= Seq::<TokenView>::empty());
        machine
    }

    /// The current state.
    pub fn state(&self) -> (state: i8)
        ensures
            state == self@.state,
    {
        self.cur_state
    }

    /// The number of tokens of the statement read so far.
    pub fn pending(&self) -> (count: usize)
        ensures
            count == self@.segment.len(),
    {
        self.segment.len()
    }

    /// Reads one token.
    pub fn step(&mut self, token: Token) -> (outcome: (Option<Vec<Token>>, i8))
        ensures
            final(self)@ == old(self)@.step(token@).machine,
            outcome.1 == old(self)@.step(token@).state,
            match outcome.0 {
                Some(segment) => old(self)@.step(token@).segment == Some(token_views(segment@)),
                None => old(self)@.step(token@).segment.is_none(),
            },
            old(self)@.reachable() ==> final(self)@.reachable(),
    {
        match transition(self.cur_state, token.ttype) {
            None => (None, REJECTED),
            Some(next) => {
                if next == ACCEPTING {
                    let mut segment: Vec<Token> = Vec::new();
                    std::mem::swap(&mut segment, &mut self.segment);
                    self.cur_state = 0;
                    assert(self@.segment =~= Seq::<TokenView>::empty());
                    (Some(segment), ACCEPTING)
                } else {
                    self.cur_state = next;
                    self.segment.push(token);
                    assert(self@.segment =~= old(self)@.segment.push(token@));
                    (None, next)
                }
            },
        }
    }
}

} // verus!
