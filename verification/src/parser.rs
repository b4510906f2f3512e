//! The parser: drives the segmentation automaton over the tokens and turns
//! each statement into a node of the syntax tree.

use crate::ast::{node_views, ASTNode, NodeView};
use crate::expression::{between, expression, reduce, tail};
use crate::fsm::{token_views, FiniteStateMachine, FsmView, REJECTED};
use crate::rpn::{binding, precedence, to_rpn, Yard};
use crate::statement::{
    arguments, array_declaration, assignment, block_end, condition, declaration, first_of,
    function_call, function_definition, if_header, names, print_statement, statement,
    while_header, Parsed,
};
use crate::symbol_table::{SymbolTable, TableView};
use crate::text::{parse_numeral, same_text, text_pairs, texts};
use crate::token::{Token, TokenType, TokenView};
use vstd::prelude::*;

verus! {

/// The yard that two lists of tokens stand for.
pub open spec fn yard_of(output: Seq<Token>, stack: Seq<Token>) -> Yard {
    Yard { output: token_views(output), stack: token_views(stack) }
}

/// How tightly the binary operator `op` binds.
pub fn precedence_of(op: &str) -> (level: u8)
    ensures
        level == precedence(op@),
{
    if same_text(op, "+") || same_text(op, "-") {
        1
    } else if same_text(op, "*") || same_text(op, "/") {
        2
    } else if same_text(op, "^") {
        3
    } else {
        0
    }
}

/// How tightly the operator token `token` binds.
pub fn binding_of(token: &Token) -> (level: u8)
    ensures
        level == binding(token@),
{
    match &token.value {
        Some(text) => precedence_of(text.as_str()),
        None => {
            let empty = String::new();
            precedence_of(empty.as_str())
        },
    }
}

/// A copy of the tokens of `segment` from `from` up to, not including,
/// `to`; none if the positions are not in order within it.
pub fn slice(segment: &Vec<Token>, from: usize, to: usize) -> (part: Vec<Token>)
    ensures
        token_views(part@) == between(token_views(segment@), from as int, to as int),
{
    let mut part: Vec<Token> = Vec::new();
    if from <= to && to <= segment.len() {
        let mut i: usize = from;
        while i < to
            invariant
                from <= i <= to <= segment@.len(),
                part@.len() == i - from,
                forall|j: int| 0 <= j < part@.len() ==> part@[j]@ == segment@[from + j]@,
            decreases to - i,
        {
            part.push(segment[i].clone());
            i += 1;
        }
        assert(token_views(part@) =~= token_views(segment@).subrange(from as int, to as int));
    } else {
        assert(token_views(part@) =~= Seq::<TokenView>::empty());
    }
    part
}

/// A copy of the tokens of `segment` from `from` on; none if there are
/// fewer.
pub fn rest(segment: &Vec<Token>, from: usize) -> (part: Vec<Token>)
    ensures
        token_views(part@) == tail(token_views(segment@), from as int),
{
    let part = slice(segment, from, segment.len());
    proof {
        let views = token_views(segment@);
        if from <= segment@.len() {
            assert(views.subrange(from as int, views.len() as int) == views.skip(from as int));
        }
    }
    part
}

/// Moves operators from `stack` to `output` while the top yields to
/// `level`.
fn pop_yielding(output: &mut Vec<Token>, stack: &mut Vec<Token>, level: u8)
    ensures
        yard_of(final(output)@, final(stack)@) == yard_of(old(output)@, old(stack)@).pop_yielding(
            level as nat,
        ),
{
    while stack.len() > 0 && stack[stack.len() - 1].ttype == TokenType::BinaryOperator
        && binding_of(&stack[stack.len() - 1]) >= level
        invariant
            yard_of(output@, stack@).pop_yielding(level as nat) == yard_of(
                old(output)@,
                old(stack)@,
            ).pop_yielding(level as nat),
        decreases stack@.len(),
    {
        let ghost before = yard_of(output@, stack@);
        proof {
            assert(before.stack.last() == stack@.last()@);
        }
        let top = stack.pop().unwrap();
        output.push(top);
        proof {
            assert(yard_of(output@, stack@).output =~= before.pop().output);
            assert(yard_of(output@, stack@).stack =~= before.pop().stack);
        }
    }
    proof {
        if stack@.len() > 0 {
            assert(yard_of(output@, stack@).stack.last() == stack@.last()@);
        }
    }
}

/// Moves `stack` to `output` down to the nearest opening bracket, which is
/// dropped.
fn close_bracket(output: &mut Vec<Token>, stack: &mut Vec<Token>)
    ensures
        yard_of(final(output)@, final(stack)@) == yard_of(
            old(output)@,
            old(stack)@,
        ).close_bracket(),
{
    while stack.len() > 0 && stack[stack.len() - 1].ttype != TokenType::OpenBracket
        invariant
            yard_of(output@, stack@).close_bracket() == yard_of(
                old(output)@,
                old(stack)@,
            ).close_bracket(),
        decreases stack@.len(),
    {
        let ghost before = yard_of(output@, stack@);
        proof {
            assert(before.stack.last() == stack@.last()@);
        }
        let top = stack.pop().unwrap();
        output.push(top);
        proof {
            assert(yard_of(output@, stack@).output =~= before.pop().output);
            assert(yard_of(output@, stack@).stack =~= before.pop().stack);
        }
    }
    let ghost before = yard_of(output@, stack@);
    if stack.len() > 0 {
        proof {
            assert(before.stack.last() == stack@.last()@);
        }
        stack.pop();
        proof {
            assert(yard_of(output@, stack@).stack =~= before.stack.drop_last());
        }
    }
}

/// Moves the whole of `stack` to `output`, top first.
fn drain(output: &mut Vec<Token>, stack: &mut Vec<Token>)
    ensures
        token_views(final(output)@) == yard_of(old(output)@, old(stack)@).drain(),
{
    while stack.len() > 0
        invariant
            yard_of(output@, stack@).drain() == yard_of(old(output)@, old(stack)@).drain(),
        decreases stack@.len(),
    {
        let ghost before = yard_of(output@, stack@);
        proof {
            assert(before.stack.last() == stack@.last()@);
        }
        let top = stack.pop().unwrap();
        output.push(top);
        proof {
            assert(yard_of(output@, stack@).output =~= before.pop().output);
            assert(yard_of(output@, stack@).stack =~= before.pop().stack);
        }
    }
}

/// The tokens of an infix expression in reverse-Polish order.
pub fn convert_to_rpn(tokens: &Vec<Token>) -> (rpn: Vec<Token>)
    ensures
        token_views(rpn@) == to_rpn(token_views(tokens@)),
{
    let ghost views = token_views(tokens@);
    let mut result: Vec<Token> = Vec::new();
    let mut operator_stack: Vec<Token> = Vec::new();
    let mut i: usize = 0;
    proof {
        assert(views.skip(0) == views);
        assert(yard_of(result@, operator_stack@).output =~= Yard::start().output);
        assert(yard_of(result@, operator_stack@).stack =~= Yard::start().stack);
    }
    while i < tokens.len()
        invariant
            i <= tokens@.len(),
            views == token_views(tokens@),
            yard_of(result@, operator_stack@).shunt_all(views.skip(i as int))
                == Yard::start().shunt_all(views),
        decreases tokens@.len() - i,
    {
        let ghost before = yard_of(result@, operator_stack@);
        let token = &tokens[i];
        proof {
            assert(views.skip(i as int)[0] == token@);
            assert(views.skip(i as int).skip(1) == views.skip(i + 1));
        }
        if token.ttype == TokenType::BinaryOperator {
            pop_yielding(&mut result, &mut operator_stack, binding_of(token));
            let ghost popped = yard_of(result@, operator_stack@);
            operator_stack.push(token.clone());
            proof {
                assert(yard_of(result@, operator_stack@).stack =~= popped.stack.push(token@));
            }
        } else if token.ttype == TokenType::IntLiteral || token.ttype == TokenType::Variable {
            result.push(token.clone());
            proof {
                assert(yard_of(result@, operator_stack@).output =~= before.output.push(token@));
            }
        } else if token.ttype == TokenType::OpenBracket {
            operator_stack.push(token.clone());
            proof {
                assert(yard_of(result@, operator_stack@).stack =~= before.stack.push(token@));
            }
        } else if token.ttype == TokenType::CloseBracket {
            close_bracket(&mut result, &mut operator_stack);
        }
        i += 1;
    }
    drain(&mut result, &mut operator_stack);
    result
}

/// The expression `segment`, read with the names declared in `table`.
pub fn parse_expression_with(table: &SymbolTable, segment: &Vec<Token>) -> (node: ASTNode)
    ensures
        node@ == expression(token_views(segment@), table@),
    decreases segment@.len(),
{
    let ghost views = token_views(segment@);
    let rpn_tokens = convert_to_rpn(segment);
    let ghost rpn = token_views(rpn_tokens@);
    let mut stack: Vec<ASTNode> = Vec::new();
    let mut i: usize = 0;
    proof {
        assert(rpn.skip(0) == rpn);
        assert(node_views(stack@) =~= Seq::<NodeView>::empty());
    }
    while i < rpn_tokens.len()
        invariant
            i <= rpn_tokens@.len(),
            views == token_views(segment@),
            rpn == token_views(rpn_tokens@),
            reduce(rpn.skip(i as int), node_views(stack@), views, table@) == expression(
                views,
                table@,
            ),
        decreases rpn_tokens@.len() - i,
    {
        let ghost trees = node_views(stack@);
        let token = &rpn_tokens[i];
        proof {
            assert(rpn.skip(i as int)[0] == token@);
            assert(rpn.skip(i as int).skip(1) == rpn.skip(i + 1));
        }
        match &token.value {
            None => {
                return ASTNode::Error;
            },
            Some(text) => {
                if token.ttype == TokenType::IntLiteral {
                    let leaf = ASTNode::Literal(text.clone());
                    stack.push(leaf);
                    proof {
                        assert(node_views(stack@) =~= trees.push(NodeView::Literal(text@)));
                    }
                } else if token.ttype == TokenType::Variable {
                    match table.check_table(text.clone()) {
                        None => {
                            return ASTNode::Error;
                        },
                        Some(entry) => {
                            if same_text(entry.kind().as_str(), "int") {
                                let leaf = ASTNode::Variable(text.clone());
                                stack.push(leaf);
                                proof {
                                    assert(node_views(stack@) =~= trees.push(
                                        NodeView::Variable(text@),
                                    ));
                                }
                            } else if same_text(entry.kind().as_str(), "arr") {
                                let index = if segment.len() >= 2 {
                                    let inner = rest(segment, 2);
                                    proof {
                                        assert(token_views(inner@).len() == views.len() - 2);
                                    }
                                    parse_expression_with(table, &inner)
                                } else {
                                    ASTNode::Error
                                };
                                return ASTNode::Array {
                                    arr_name: entry.name().clone(),
                                    index: Box::new(index),
                                };
                            }
                        },
                    }
                } else if token.ttype == TokenType::BinaryOperator {
                    if stack.len() >= 2 {
                        let right = stack.pop().unwrap();
                        let left = stack.pop().unwrap();
                        let ghost joined = NodeView::BinaryOperation {
                            op: text@,
                            left: Box::new(left@),
                            right: Box::new(right@),
                        };
                        stack.push(
                            ASTNode::BinaryOperation {
                                op: text.clone(),
                                left: Box::new(left),
                                right: Box::new(right),
                            },
                        );
                        proof {
                            assert(right@ == trees[trees.len() - 1]);
                            assert(left@ == trees[trees.len() - 2]);
                            assert(node_views(stack@) =~= trees.drop_last().drop_last().push(
                                joined,
                            ));
                        }
                    } else {
                        return ASTNode::Error;
                    }
                } else {
                    return ASTNode::Error;
                }
            },
        }
        i += 1;
    }
    if stack.len() == 1 {
        let tree = stack.pop().unwrap();
        tree
    } else {
        ASTNode::Error
    }
}

/// The position of the first token of category `kind` at or after `from`;
/// the length of the segment if there is none.
pub fn find(segment: &Vec<Token>, kind: TokenType, from: usize) -> (at: usize)
    ensures
        at == first_of(token_views(segment@), kind, from as int),
        at <= segment@.len(),
        from <= segment@.len() ==> from <= at,
        at < segment@.len() ==> segment@[at as int].ttype == kind,
{
    let ghost views = token_views(segment@);
    if from >= segment.len() {
        return segment.len();
    }
    let mut i: usize = from;
    while i < segment.len() && segment[i].ttype != kind
        invariant
            from <= i <= segment@.len(),
            views == token_views(segment@),
            first_of(views, kind, from as int) == first_of(views, kind, i as int),
        decreases segment@.len() - i,
    {
        proof {
            assert(views[i as int] == segment@[i as int]@);
        }
        i += 1;
    }
    proof {
        if i < segment@.len() {
            assert(views[i as int] == segment@[i as int]@);
        }
    }
    i
}

/// Whether `node` is the error node.
pub fn is_error(node: &ASTNode) -> (yes: bool)
    ensures
        yes == (node@ is Error),
{
    match node {
        ASTNode::Error => true,
        _ => false,
    }
}

/// A list in front of another, if there is another.
pub open spec fn prepend<A>(first: Seq<A>, rest: Option<Seq<A>>) -> Option<Seq<A>> {
    match rest {
        Some(rest) => Some(first + rest),
        None => None,
    }
}

/// The parser: the tokens, how far they have been read, the segmentation
/// automaton and the symbol table.
#[derive(Debug)]
pub struct Parser {
    tokens: Vec<Token>,
    position: usize,
    automata: FiniteStateMachine,
    symbol_table: SymbolTable,
}

/// The mathematical value of a parser.
pub struct ParserView {
    pub tokens: Seq<TokenView>,
    pub position: nat,
    pub machine: FsmView,
    pub table: TableView,
}

/// What looking for the next statement gives.
pub enum ScanView {
    /// A complete statement, without its terminator.
    Segment(Seq<TokenView>),
    /// A token without a transition: the state the automaton was in, the
    /// category of the token, and how many tokens of the statement had
    /// been read before it.
    Rejected { state: i8, kind: TokenType, position: nat },
    /// No token is left.
    Exhausted,
}

/// What looking for the next statement gives, and the parser after it.
pub struct Scanned {
    pub outcome: ScanView,
    pub parser: ParserView,
}

/// What parsing the next statement gives, and the parser after it.
pub struct Advanced {
    pub node: NodeView,
    pub parser: ParserView,
}

impl ParserView {
    /// The parser with the symbol table `table`.
    pub open spec fn with_table(self, table: TableView) -> ParserView {
        ParserView {
            tokens: self.tokens,
            position: self.position,
            machine: self.machine,
            table,
        }
    }

    /// Feeds tokens to the automaton until it completes a statement, has
    /// no transition for a token, or no token is left. The token without
    /// a transition counts as read.
    pub open spec fn scan(self) -> Scanned
        decreases self.tokens.len() - self.position,
    {
        if self.position >= self.tokens.len() {
            Scanned { outcome: ScanView::Exhausted, parser: self }
        } else {
            let token = self.tokens[self.position as int];
            let step = self.machine.step(token);
            let after = ParserView {
                tokens: self.tokens,
                position: self.position + 1,
                machine: step.machine,
                table: self.table,
            };
            if step.state == REJECTED {
                Scanned {
                    outcome: ScanView::Rejected {
                        state: self.machine.state,
                        kind: token.ttype,
                        position: self.machine.segment.len(),
                    },
                    parser: after,
                }
            } else {
                match step.segment {
                    Some(segment) => Scanned { outcome: ScanView::Segment(segment), parser: after },
                    None => after.scan(),
                }
            }
        }
    }

    /// The next node: the end node when no token is left, the error node
    /// when a token has no transition, and else the node of the next
    /// statement whose first token starts one. Statements that start with
    /// anything else are passed over.
    pub open spec fn parse(self) -> Advanced
        decreases self.tokens.len() - self.position,
    {
        let scanned = self.scan();
        match scanned.outcome {
            ScanView::Exhausted => Advanced { node: NodeView::End, parser: scanned.parser },
            ScanView::Rejected { .. } => Advanced { node: NodeView::Error, parser: scanned.parser },
            ScanView::Segment(segment) => match statement(segment, scanned.parser.table) {
                Some(parsed) => Advanced {
                    node: parsed.node,
                    parser: scanned.parser.with_table(parsed.table),
                },
                None => {
                    proof {
                        lemma_scan_advances(self);
                    }
                    scanned.parser.parse()
                },
            },
        }
    }
}

/// Looking for the next statement never goes back, stays within the
/// tokens, and reads at least one token unless none is left.
pub proof fn lemma_scan_advances(parser: ParserView)
    ensures
        parser.scan().parser.tokens == parser.tokens,
        parser.scan().parser.table == parser.table,
        parser.position <= parser.tokens.len() ==> parser.scan().parser.position
            <= parser.tokens.len(),
        !(parser.scan().outcome is Exhausted) ==> parser.scan().parser.position > parser.position,
        parser.scan().parser.position >= parser.position,
    decreases parser.tokens.len() - parser.position,
{
    if parser.position < parser.tokens.len() {
        let token = parser.tokens[parser.position as int];
        let step = parser.machine.step(token);
        let after = ParserView {
            tokens: parser.tokens,
            position: parser.position + 1,
            machine: step.machine,
            table: parser.table,
        };
        if step.state != REJECTED && step.segment.is_none() {
            lemma_scan_advances(after);
        }
    }
}

impl View for Parser {
    type V = ParserView;

    closed spec fn view(&self) -> ParserView {
        ParserView {
            tokens: token_views(self.tokens@),
            position: self.position as nat,
            machine: self.automata@,
            table: self.symbol_table@,
        }
    }
}

/// What looking for the next statement gives.
#[derive(Debug)]
pub enum Scan {
    /// A complete statement, without its terminator.
    Segment(Vec<Token>),
    /// A token without a transition: the state the automaton was in, the
    /// category of the token, and how many tokens of the statement had
    /// been read before it.
    Rejected { state: i8, kind: TokenType, position: usize },
    /// No token is left.
    Exhausted,
}

impl View for Scan {
    type V = ScanView;

    open spec fn view(&self) -> ScanView {
        match self {
            Scan::Segment(segment) => ScanView::Segment(token_views(segment@)),
            Scan::Rejected { state, kind, position } => ScanView::Rejected {
                state: *state,
                kind: *kind,
                position: *position as nat,
            },
            Scan::Exhausted => ScanView::Exhausted,
        }
    }
}

impl Parser {
    /// A parser for `token_vec`, at its first token, with `symbol_table`
    /// brought back to the outermost level.
    pub fn new(token_vec: Vec<Token>, symbol_table: SymbolTable) -> (parser: Self)
        ensures
            parser@ == (ParserView {
                tokens: token_views(token_vec@),
                position: 0,
                machine: FsmView::fresh(),
                table: symbol_table@.at_top(),
            }),
    {
        let mut symbol_table = symbol_table;
        symbol_table.reset_level();
        Parser { tokens: token_vec, position: 0, automata: FiniteStateMachine::new(), symbol_table }
    }

    /// The symbol table as the statements read so far have left it.
    pub fn symbol_table(&self) -> (table: &SymbolTable)
        ensures
            table@ == self@.table,
    {
        &self.symbol_table
    }

    /// Gives up the parser for its symbol table.
    pub fn into_symbol_table(self) -> (table: SymbolTable)
        ensures
            table@ == self@.table,
    {
        self.symbol_table
    }

    /// The number of tokens read so far.
    pub fn position(&self) -> (position: usize)
        ensures
            position == self@.position,
    {
        self.position
    }

    /// The tokens of an infix expression in reverse-Polish order.
    pub fn convert_to_rpn(tokens: &Vec<Token>) -> (rpn: Vec<Token>)
        ensures
            token_views(rpn@) == to_rpn(token_views(tokens@)),
    {
        convert_to_rpn(tokens)
    }

    /// The expression `segment`, read with the names declared so far.
    pub fn parse_expression(&self, segment: &Vec<Token>) -> (node: ASTNode)
        ensures
            node@ == expression(token_views(segment@), self@.table),
    {
        parse_expression_with(&self.symbol_table, segment)
    }

    /// The declaration of an array.
    fn parse_array_declaration(&mut self, segment: &Vec<Token>, name: &String) -> (node: ASTNode)
        ensures
            node@ == array_declaration(token_views(segment@), name@, old(self)@.table).node,
            final(self)@ == old(self)@.with_table(
                array_declaration(token_views(segment@), name@, old(self)@.table).table,
            ),
    {
        let end = find(segment, TokenType::CloseArray, 0);
        let stop = if end < segment.len() {
            end + 1
        } else {
            end
        };
        let size = self.parse_expression(&slice(segment, 3, stop));
        let length = match &size {
            ASTNode::Literal(text) => Some(parse_numeral(text.as_str(), u32::MAX)),
            _ => None,
        };
        match length {
            Some(Some(length)) => {
                self.symbol_table.add_to_table(name.clone(), String::from_str("arr"), length);
                ASTNode::ArrayDeclaration { arr_name: name.clone(), size: Box::new(size) }
            },
            Some(None) => ASTNode::Error,
            None => ASTNode::ArrayDeclaration { arr_name: name.clone(), size: Box::new(size) },
        }
    }

    /// A statement that starts with `var` or with a name: a declaration or
    /// an assignment.
    pub fn parse_assignment(&mut self, segment: &Vec<Token>) -> (node: ASTNode)
        ensures
            node@ == assignment(token_views(segment@), old(self)@.table).node,
            final(self)@ == old(self)@.with_table(
                assignment(token_views(segment@), old(self)@.table).table,
            ),
    {
        let ghost views = token_views(segment@);
        if segment.len() < 2 {
            return ASTNode::Error;
        }
        proof {
            assert(views[0] == segment@[0]@);
            assert(views[1] == segment@[1]@);
        }
        if segment[0].ttype == TokenType::Var {
            match &segment[1].value {
                None => ASTNode::Error,
                Some(var_name) => {
                    if segment.len() == 2 {
                        self.symbol_table.add_to_table(
                            var_name.clone(),
                            String::from_str("int"),
                            0,
                        );
                        let zero = ASTNode::Literal(String::from_str("0"));
                        assert(zero@ == NodeView::Literal("0"@));
                        ASTNode::Assignment { var_name: var_name.clone(), expr: Box::new(zero) }
                    } else {
                        proof {
                            assert(views[2] == segment@[2]@);
                        }
                        if segment[2].ttype == TokenType::OpenArray {
                            self.parse_array_declaration(segment, var_name)
                        } else if segment[2].ttype == TokenType::AssignmentOperator {
                            self.symbol_table.add_to_table(
                                var_name.clone(),
                                String::from_str("int"),
                                0,
                            );
                            let expr = self.parse_expression(&rest(segment, 3));
                            ASTNode::Assignment { var_name: var_name.clone(), expr: Box::new(expr) }
                        } else {
                            ASTNode::Error
                        }
                    }
                },
            }
        } else {
            match &segment[0].value {
                None => ASTNode::Error,
                Some(var_name) => {
                    if segment[1].ttype == TokenType::AssignmentOperator {
                        let expr = self.parse_expression(&rest(segment, 2));
                        ASTNode::Assignment { var_name: var_name.clone(), expr: Box::new(expr) }
                    } else if segment[1].ttype != TokenType::OpenArray {
                        ASTNode::Error
                    } else {
                        let eq_index = find(segment, TokenType::AssignmentOperator, 0);
                        if eq_index < segment.len() {
                            let position = self.parse_expression(&slice(segment, 2, eq_index));
                            let value = self.parse_expression(&rest(segment, eq_index + 1));
                            ASTNode::ArrayAssignment {
                                arr_name: var_name.clone(),
                                position: Box::new(position),
                                value: Box::new(value),
                            }
                        } else {
                            ASTNode::Error
                        }
                    }
                },
            }
        }
    }

    /// The two sides of the condition of a block header and the operator
    /// between them, if the header is well formed.
    fn parse_condition(&self, segment: &Vec<Token>) -> (parts: Option<(ASTNode, String, ASTNode)>)
        ensures
            match parts {
                Some((left, op, right)) => condition(token_views(segment@), self@.table) == Some(
                    (left@, op@, right@),
                ),
                None => condition(token_views(segment@), self@.table).is_none(),
            },
    {
        let ghost views = token_views(segment@);
        let comp_op_index = find(segment, TokenType::ComparisonOperator, 1);
        if comp_op_index >= segment.len() {
            return None;
        }
        proof {
            assert(views[comp_op_index as int] == segment@[comp_op_index as int]@);
        }
        let left = self.parse_expression(&slice(segment, 1, comp_op_index));
        if is_error(&left) {
            return None;
        }
        let right = self.parse_expression(&rest(segment, comp_op_index + 1));
        if is_error(&right) {
            return None;
        }
        match &segment[comp_op_index].value {
            Some(op) => Some((left, op.clone(), right)),
            None => None,
        }
    }

    /// The header of an `if` block.
    pub fn parse_if(&mut self, segment: &Vec<Token>) -> (node: ASTNode)
        ensures
            node@ == if_header(token_views(segment@), old(self)@.table).node,
            final(self)@ == old(self)@.with_table(
                if_header(token_views(segment@), old(self)@.table).table,
            ),
    {
        match self.parse_condition(segment) {
            Some((left, op, right)) => {
                if self.symbol_table.level() < u32::MAX {
                    self.symbol_table.up();
                    let node = ASTNode::IfOperation {
                        first_half: Box::new(left),
                        comparison_op: op,
                        second_half: Box::new(right),
                        content: Vec::new(),
                    };
                    assert(node@->IfOperation_content =~= Seq::<NodeView>::empty());
                    node
                } else {
                    ASTNode::Error
                }
            },
            None => ASTNode::Error,
        }
    }

    /// The header of a `while` block.
    pub fn parse_while(&mut self, segment: &Vec<Token>) -> (node: ASTNode)
        ensures
            node@ == while_header(token_views(segment@), old(self)@.table).node,
            final(self)@ == old(self)@.with_table(
                while_header(token_views(segment@), old(self)@.table).table,
            ),
    {
        match self.parse_condition(segment) {
            Some((left, op, right)) => {
                if self.symbol_table.level() < u32::MAX {
                    self.symbol_table.up();
                    let node = ASTNode::WhileOperation {
                        first_half: Box::new(left),
                        comparison_op: op,
                        second_half: Box::new(right),
                        content: Vec::new(),
                    };
                    assert(node@->WhileOperation_content =~= Seq::<NodeView>::empty());
                    node
                } else {
                    ASTNode::Error
                }
            },
            None => ASTNode::Error,
        }
    }

    /// The end of a block.
    fn parse_block_end(&mut self, marker: ASTNode) -> (node: ASTNode)
        requires
            marker@ is EndIf || marker@ is EndWhile,
        ensures
            node@ == block_end(marker@, old(self)@.table).node,
            final(self)@ == old(self)@.with_table(block_end(marker@, old(self)@.table).table),
    {
        if self.symbol_table.level() > 0 {
            self.symbol_table.down();
            marker
        } else {
            ASTNode::Error
        }
    }

    /// A function definition.
    pub fn parse_func_def(segment: &Vec<Token>) -> (node: ASTNode)
        ensures
            node@ == function_definition(token_views(segment@)),
    {
        let ghost views = token_views(segment@);
        if segment.len() < 2 {
            return ASTNode::Error;
        }
        proof {
            assert(views[1] == segment@[1]@);
        }
        let name = match &segment[1].value {
            Some(name) => name.clone(),
            None => {
                return ASTNode::Error;
            },
        };
        if segment.len() == 2 {
            return ASTNode::FunctionDef { name, parameters: None };
        }
        let mut params: Vec<String> = Vec::new();
        let mut i: usize = 3;
        proof {
            assert(texts(params@) =~= Seq::<Seq<char>>::empty());
            match names(views, 3) {
                Some(all) => {
                    assert(Seq::<Seq<char>>::empty() + all == all);
                },
                None => {},
            }
        }
        while i < segment.len()
            invariant
                3 <= i,
                views == token_views(segment@),
                names(views, 3) == prepend(texts(params@), names(views, i as int)),
            decreases segment@.len() - i,
        {
            let ghost seen = texts(params@);
            proof {
                assert(views[i as int] == segment@[i as int]@);
            }
            if segment[i].ttype != TokenType::Comma {
                match &segment[i].value {
                    Some(text) => {
                        params.push(text.clone());
                        proof {
                            assert(texts(params@) =~= seen + seq![text@]);
                            match names(views, i + 1) {
                                Some(more) => {
                                    assert(seen + (seq![text@] + more) == (seen + seq![text@])
                                        + more);
                                },
                                None => {},
                            }
                        }
                    },
                    None => {
                        return ASTNode::Error;
                    },
                }
            }
            i += 1;
        }
        proof {
            assert(texts(params@) + Seq::<Seq<char>>::empty() == texts(params@));
        }
        ASTNode::FunctionDef { name, parameters: Some(params) }
    }

    /// A call.
    pub fn parse_func_call(segment: &Vec<Token>) -> (node: ASTNode)
        ensures
            node@ == function_call(token_views(segment@)),
    {
        let ghost views = token_views(segment@);
        if segment.len() < 2 {
            return ASTNode::Error;
        }
        proof {
            assert(views[1] == segment@[1]@);
        }
        let name = match &segment[1].value {
            Some(name) => name.clone(),
            None => {
                return ASTNode::Error;
            },
        };
        if segment.len() == 2 {
            return ASTNode::FuntionCall { name, parameters: None };
        }
        let mut params: Vec<(String, String)> = Vec::new();
        let mut i: usize = 3;
        proof {
            assert(text_pairs(params@) =~= Seq::<(Seq<char>, Seq<char>)>::empty());
            match arguments(views, 3) {
                Some(all) => {
                    assert(Seq::<(Seq<char>, Seq<char>)>::empty() + all == all);
                },
                None => {},
            }
        }
        while i < segment.len()
            invariant
                3 <= i,
                views == token_views(segment@),
                arguments(views, 3) == prepend(text_pairs(params@), arguments(views, i as int)),
            decreases segment@.len() - i,
        {
            let ghost seen = text_pairs(params@);
            if segment.len() - i <= 2 {
                return ASTNode::Error;
            }
            proof {
                assert(views[i as int] == segment@[i as int]@);
                assert(views[i + 2] == segment@[i + 2]@);
            }
            match (&segment[i].value, &segment[i + 2].value) {
                (Some(key), Some(value)) => {
                    params.push((key.clone(), value.clone()));
                    proof {
                        assert(text_pairs(params@) =~= seen + seq![(key@, value@)]);
                        match arguments(views, i + 4) {
                            Some(more) => {
                                assert(seen + (seq![(key@, value@)] + more) == (seen + seq![
                                    (key@, value@),
                                ]) + more);
                            },
                            None => {},
                        }
                    }
                },
                _ => {
                    return ASTNode::Error;
                },
            }
            if segment.len() - i <= 4 {
                i = segment.len();
            } else {
                i += 4;
            }
        }
        proof {
            assert(text_pairs(params@) + Seq::<(Seq<char>, Seq<char>)>::empty() == text_pairs(
                params@,
            ));
        }
        ASTNode::FuntionCall { name, parameters: Some(params) }
    }

    /// A print statement.
    pub fn parse_print(&mut self, segment: &Vec<Token>) -> (node: ASTNode)
        ensures
            node@ == print_statement(token_views(segment@), old(self)@.table),
            final(self)@ == old(self)@,
    {
        if segment.len() >= 2 {
            ASTNode::Print(Box::new(self.parse_expression(&rest(segment, 1))))
        } else {
            ASTNode::Error
        }
    }

    /// The statement that `segment` is, if its first token starts one.
    pub fn parse_statement(&mut self, segment: &Vec<Token>) -> (node: Option<ASTNode>)
        ensures
            match node {
                Some(node) => statement(token_views(segment@), old(self)@.table) == Some(
                    Parsed { node: node@, table: final(self)@.table },
                ),
                None => statement(token_views(segment@), old(self)@.table).is_none(),
            },
            final(self)@ == old(self)@.with_table(final(self)@.table),
            statement(token_views(segment@), old(self)@.table).is_none() ==> final(self)@ == old(
                self,
            )@,
    {
        if segment.len() == 0 {
            return None;
        }
        proof {
            assert(token_views(segment@)[0] == segment@[0]@);
        }
        match segment[0].ttype {
            TokenType::Var => Some(self.parse_assignment(segment)),
            TokenType::If => Some(self.parse_if(segment)),
            TokenType::EndIf => Some(self.parse_block_end(ASTNode::EndIf)),
            TokenType::While => Some(self.parse_while(segment)),
            TokenType::EndWhile => Some(self.parse_block_end(ASTNode::EndWhile)),
            TokenType::Func => Some(Self::parse_func_def(segment)),
            TokenType::Endfunc => Some(ASTNode::EndFunctionDef),
            TokenType::Call => Some(Self::parse_func_call(segment)),
            TokenType::Print => Some(self.parse_print(segment)),
            TokenType::Variable => Some(self.parse_assignment(segment)),
            _ => None,
        }
    }

    /// Feeds tokens to the automaton until it completes a statement, has
    /// no transition for a token, or no token is left.
    pub fn next_segment(&mut self) -> (scan: Scan)
        ensures
            scan@ == old(self)@.scan().outcome,
            final(self)@ == old(self)@.scan().parser,
    {
        while self.position < self.tokens.len()
            invariant
                self@.scan() == old(self)@.scan(),
            decreases self.tokens@.len() - self.position,
        {
            let token = self.tokens[self.position].clone();
            let kind = token.ttype;
            let state = self.automata.state();
            let pending = self.automata.pending();
            proof {
                assert(token_views(self.tokens@)[self.position as int] == token@);
            }
            self.position += 1;
            let (segment, reached) = self.automata.step(token);
            if reached == REJECTED {
                return Scan::Rejected { state, kind, position: pending };
            }
            match segment {
                Some(segment) => {
                    return Scan::Segment(segment);
                },
                None => {},
            }
        }
        Scan::Exhausted
    }

    /// The next node of the program: see `ParserView::parse`.
    pub fn parse(&mut self) -> (node: ASTNode)
        ensures
            node@ == old(self)@.parse().node,
            final(self)@ == old(self)@.parse().parser,
    {
        loop
            invariant
                self@.parse() == old(self)@.parse(),
            decreases self@.tokens.len() - self@.position,
        {
            let ghost before = self@;
            proof {
                lemma_scan_advances(before);
            }
            match self.next_segment() {
                Scan::Exhausted => {
                    return ASTNode::End;
                },
                Scan::Rejected { .. } => {
                    return ASTNode::Error;
                },
                Scan::Segment(segment) => {
                    match self.parse_statement(&segment) {
                        Some(node) => {
                            return node;
                        },
                        None => {},
                    }
                },
            }
        }
    }
}

} // verus!
