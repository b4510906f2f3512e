//! The abstract syntax tree, and the pass that nests the flat statement list
//! into blocks.

use crate::text::{text_pairs, texts};
use vstd::prelude::*;

verus! {

/// A node of the syntax tree.
#[derive(Debug, PartialEq)]
#[allow(inconsistent_fields)]
pub enum ASTNode {
    Assignment { var_name: String, expr: Box<ASTNode> },
    ArrayDeclaration { arr_name: String, size: Box<ASTNode> },
    ArrayAssignment { arr_name: String, position: Box<ASTNode>, value: Box<ASTNode> },
    BinaryOperation { op: String, left: Box<ASTNode>, right: Box<ASTNode> },
    IfOperation {
        first_half: Box<ASTNode>,
        comparison_op: String,
        second_half: Box<ASTNode>,
        content: Vec<Box<ASTNode>>,
    },
    EndIf,
    WhileOperation {
        first_half: Box<ASTNode>,
        comparison_op: String,
        second_half: Box<ASTNode>,
        content: Vec<Box<ASTNode>>,
    },
    EndWhile,
    FunctionDef { name: String, parameters: Option<Vec<String>> },
    EndFunctionDef,
    FuntionCall { name: String, parameters: Option<Vec<(String, String)>> },
    Array { arr_name: String, index: Box<ASTNode> },
    Print(Box<ASTNode>),
    Literal(String),
    Variable(String),
    Start,
    End,
    Error,
}

/// The mathematical value of a node: the same tree with texts as character
/// sequences and child lists as sequences.
#[allow(inconsistent_fields)]
pub enum NodeView {
    Assignment { var_name: Seq<char>, expr: Box<NodeView> },
    ArrayDeclaration { arr_name: Seq<char>, size: Box<NodeView> },
    ArrayAssignment { arr_name: Seq<char>, position: Box<NodeView>, value: Box<NodeView> },
    BinaryOperation { op: Seq<char>, left: Box<NodeView>, right: Box<NodeView> },
    IfOperation {
        first_half: Box<NodeView>,
        comparison_op: Seq<char>,
        second_half: Box<NodeView>,
        content: Seq<NodeView>,
    },
    EndIf,
    WhileOperation {
        first_half: Box<NodeView>,
        comparison_op: Seq<char>,
        second_half: Box<NodeView>,
        content: Seq<NodeView>,
    },
    EndWhile,
    FunctionDef { name: Seq<char>, parameters: Option<Seq<Seq<char>>> },
    EndFunctionDef,
    FuntionCall { name: Seq<char>, parameters: Option<Seq<(Seq<char>, Seq<char>)>> },
    Array { arr_name: Seq<char>, index: Box<NodeView> },
    Print(Box<NodeView>),
    Literal(Seq<char>),
    Variable(Seq<char>),
    Start,
    End,
    Error,
}

impl ASTNode {
    /// The value of this node.
    pub open spec fn model(&self) -> NodeView
        decreases self,
    {
        match self {
            ASTNode::Assignment { var_name, expr } => NodeView::Assignment {
                var_name: var_name@,
                expr: Box::new(expr.model()),
            },
            ASTNode::ArrayDeclaration { arr_name, size } => NodeView::ArrayDeclaration {
                arr_name: arr_name@,
                size: Box::new(size.model()),
            },
            ASTNode::ArrayAssignment { arr_name, position, value } => NodeView::ArrayAssignment {
                arr_name: arr_name@,
                position: Box::new(position.model()),
                value: Box::new(value.model()),
            },
            ASTNode::BinaryOperation { op, left, right } => NodeView::BinaryOperation {
                op: op@,
                left: Box::new(left.model()),
                right: Box::new(right.model()),
            },
            ASTNode::IfOperation { first_half, comparison_op, second_half, content } => {
                NodeView::IfOperation {
                    first_half: Box::new(first_half.model()),
                    comparison_op: comparison_op@,
                    second_half: Box::new(second_half.model()),
                    content: Seq::new(
                        content@.len(),
                        |i: int|
                            if 0 <= i < content@.len() {
                                content@[i].model()
                            } else {
                                NodeView::Error
                            },
                    ),
                }
            },
            ASTNode::EndIf => NodeView::EndIf,
            ASTNode::WhileOperation { first_half, comparison_op, second_half, content } => {
                NodeView::WhileOperation {
                    first_half: Box::new(first_half.model()),
                    comparison_op: comparison_op@,
                    second_half: Box::new(second_half.model()),
                    content: Seq::new(
                        content@.len(),
                        |i: int|
                            if 0 <= i < content@.len() {
                                content@[i].model()
                            } else {
                                NodeView::Error
                            },
                    ),
                }
            },
            ASTNode::EndWhile => NodeView::EndWhile,
            ASTNode::FunctionDef { name, parameters } => NodeView::FunctionDef {
                name: name@,
                parameters: match parameters {
                    Some(list) => Some(texts(list@)),
                    None => None,
                },
            },
            ASTNode::EndFunctionDef => NodeView::EndFunctionDef,
            ASTNode::FuntionCall { name, parameters } => NodeView::FuntionCall {
                name: name@,
                parameters: match parameters {
                    Some(list) => Some(text_pairs(list@)),
                    None => None,
                },
            },
            ASTNode::Array { arr_name, index } => NodeView::Array {
                arr_name: arr_name@,
                index: Box::new(index.model()),
            },
            ASTNode::Print(expr) => NodeView::Print(Box::new(expr.model())),
            ASTNode::Literal(text) => NodeView::Literal(text@),
            ASTNode::Variable(name) => NodeView::Variable(name@),
            ASTNode::Start => NodeView::Start,
            ASTNode::End => NodeView::End,
            ASTNode::Error => NodeView::Error,
        }
    }
}

impl View for ASTNode {
    type V = NodeView;

    open spec fn view(&self) -> NodeView {
        self.model()
    }
}

impl Clone for ASTNode {
    fn clone(&self) -> (copy: Self)
        ensures
            copy@ == self@,
    {
        self.duplicate()
    }
}

/// The values of a list of boxed nodes.
pub open spec fn boxed_views(nodes: Seq<Box<ASTNode>>) -> Seq<NodeView> {
    Seq::new(nodes.len(), |i: int| nodes[i]@)
}

/// The values of a list of nodes.
pub open spec fn node_views(nodes: Seq<ASTNode>) -> Seq<NodeView> {
    Seq::new(nodes.len(), |i: int| nodes[i]@)
}

/// A copy of a list of strings.
pub fn clone_names(names: &Vec<String>) -> (copy: Vec<String>)
    ensures
        texts(copy@) == texts(names@),
{
    let mut copy: Vec<String> = Vec::new();
    let mut i: usize = 0;
    while i < names.len()
        invariant
            i <= names.len(),
            copy@.len() == i,
            forall|j: int| 0 <= j < i ==> copy@[j]@ == names@[j]@,
        decreases names.len() - i,
    {
        copy.push(names[i].clone());
        i += 1;
    }
    assert(texts(copy@) =~= texts(names@));
    copy
}

/// A copy of a list of string pairs.
pub fn clone_pairs(pairs: &Vec<(String, String)>) -> (copy: Vec<(String, String)>)
    ensures
        text_pairs(copy@) == text_pairs(pairs@),
{
    let mut copy: Vec<(String, String)> = Vec::new();
    let mut i: usize = 0;
    while i < pairs.len()
        invariant
            i <= pairs.len(),
            copy@.len() == i,
            forall|j: int|
                0 <= j < i ==> copy@[j].0@ == pairs@[j].0@ && copy@[j].1@ == pairs@[j].1@,
        decreases pairs.len() - i,
    {
        copy.push((pairs[i].0.clone(), pairs[i].1.clone()));
        i += 1;
    }
    assert(text_pairs(copy@) =~= text_pairs(pairs@));
    copy
}

impl ASTNode {
    /// A deep copy of this node.
    pub fn duplicate(&self) -> (copy: ASTNode)
        ensures
            copy@ == self@,
        decreases self,
    {
        match self {
            ASTNode::Assignment { var_name, expr } => ASTNode::Assignment {
                var_name: var_name.clone(),
                expr: Box::new(expr.duplicate()),
            },
            ASTNode::ArrayDeclaration { arr_name, size } => ASTNode::ArrayDeclaration {
                arr_name: arr_name.clone(),
                size: Box::new(size.duplicate()),
            },
            ASTNode::ArrayAssignment { arr_name, position, value } => ASTNode::ArrayAssignment {
                arr_name: arr_name.clone(),
                position: Box::new(position.duplicate()),
                value: Box::new(value.duplicate()),
            },
            ASTNode::BinaryOperation { op, left, right } => ASTNode::BinaryOperation {
                op: op.clone(),
                left: Box::new(left.duplicate()),
                right: Box::new(right.duplicate()),
            },
            ASTNode::IfOperation { first_half, comparison_op, second_half, content } => {
                let body = Self::duplicate_block(content);
                let copy = ASTNode::IfOperation {
                    first_half: Box::new(first_half.duplicate()),
                    comparison_op: comparison_op.clone(),
                    second_half: Box::new(second_half.duplicate()),
                    content: body,
                };
                assert(copy@->IfOperation_content =~= self@->IfOperation_content);
                copy
            },
            ASTNode::EndIf => ASTNode::EndIf,
            ASTNode::WhileOperation { first_half, comparison_op, second_half, content } => {
                let body = Self::duplicate_block(content);
                let copy = ASTNode::WhileOperation {
                    first_half: Box::new(first_half.duplicate()),
                    comparison_op: comparison_op.clone(),
                    second_half: Box::new(second_half.duplicate()),
                    content: body,
                };
                assert(copy@->WhileOperation_content =~= self@->WhileOperation_content);
                copy
            },
            ASTNode::EndWhile => ASTNode::EndWhile,
            ASTNode::FunctionDef { name, parameters } => ASTNode::FunctionDef {
                name: name.clone(),
                parameters: match parameters {
                    Some(list) => Some(clone_names(list)),
                    None => None,
                },
            },
            ASTNode::EndFunctionDef => ASTNode::EndFunctionDef,
            ASTNode::FuntionCall { name, parameters } => ASTNode::FuntionCall {
                name: name.clone(),
                parameters: match parameters {
                    Some(list) => Some(clone_pairs(list)),
                    None => None,
                },
            },
            ASTNode::Array { arr_name, index } => ASTNode::Array {
                arr_name: arr_name.clone(),
                index: Box::new(index.duplicate()),
            },
            ASTNode::Print(expr) => ASTNode::Print(Box::new(expr.duplicate())),
            ASTNode::Literal(text) => ASTNode::Literal(text.clone()),
            ASTNode::Variable(name) => ASTNode::Variable(name.clone()),
            ASTNode::Start => ASTNode::Start,
            ASTNode::End => ASTNode::End,
            ASTNode::Error => ASTNode::Error,
        }
    }

    /// A deep copy of a block's statements.
    pub fn duplicate_block(block: &Vec<Box<ASTNode>>) -> (copy: Vec<Box<ASTNode>>)
        ensures
            copy@.len() == block@.len(),
            forall|j: int| 0 <= j < block@.len() ==> copy@[j]@ == block@[j]@,
        decreases block,
    {
        let mut copy: Vec<Box<ASTNode>> = Vec::new();
        let mut i: usize = 0;
        while i < block.len()
            invariant
                i <= block.len(),
                copy@.len() == i,
                forall|j: int| 0 <= j < i ==> copy@[j]@ == block@[j]@,
            decreases block.len() - i,
        {
            copy.push(Box::new(block[i].duplicate()));
            i += 1;
        }
        copy
    }
}

/// A program: the top-level nodes in source order.
#[derive(Debug)]
pub struct AST {
    pub nodes: Vec<ASTNode>,
}

impl View for AST {
    type V = Seq<NodeView>;

    open spec fn view(&self) -> Seq<NodeView> {
        node_views(self.nodes@)
    }
}

impl AST {
    /// A program of the given nodes.
    pub fn new(nodes: Vec<ASTNode>) -> (ast: Self)
        ensures
            ast.nodes == nodes,
    {
        AST { nodes }
    }

    /// Appends a node.
    pub fn add_node(&mut self, node: ASTNode)
        ensures
            final(self).nodes@ == old(self).nodes@.push(node),
            final(self)@ == old(self)@.push(node@),
    {
        self.nodes.push(node);
        assert(self@ =~= old(self)@.push(node@));
    }

    /// The node at `index`, if there is one.
    pub fn get_node(&self, index: usize) -> (node: Option<&ASTNode>)
        ensures
            index < self.nodes@.len() ==> node == Some(&self.nodes@[index as int]),
            index >= self.nodes@.len() ==> node.is_none(),
    {
        if index < self.nodes.len() {
            Some(&self.nodes[index])
        } else {
            None
        }
    }

    /// A copy of the nodes.
    pub fn get_nodes(&self) -> (nodes: Vec<ASTNode>)
        ensures
            node_views(nodes@) == self@,
    {
        let mut nodes: Vec<ASTNode> = Vec::new();
        let mut i: usize = 0;
        while i < self.nodes.len()
            invariant
                i <= self.nodes.len(),
                nodes@.len() == i,
                forall|j: int| 0 <= j < i ==> nodes@[j]@ == self.nodes@[j]@,
            decreases self.nodes.len() - i,
        {
            nodes.push(self.nodes[i].duplicate());
            i += 1;
        }
        assert(node_views(nodes@) =~= self@);
        nodes
    }
}

/// Whether `node` is the header of a block: an `if` or a `while`.
pub open spec fn is_header(node: NodeView) -> bool {
    node is IfOperation || node is WhileOperation
}

/// The marker that closes the block that `header` opens.
pub open spec fn closing(header: NodeView) -> NodeView {
    if header is IfOperation {
        NodeView::EndIf
    } else {
        NodeView::EndWhile
    }
}

/// The header `header` with `body` as the statements of its block.
pub open spec fn with_body(header: NodeView, body: Seq<NodeView>) -> NodeView {
    match header {
        NodeView::IfOperation { first_half, comparison_op, second_half, content } => {
            NodeView::IfOperation { first_half, comparison_op, second_half, content: body }
        },
        NodeView::WhileOperation { first_half, comparison_op, second_half, content } => {
            NodeView::WhileOperation { first_half, comparison_op, second_half, content: body }
        },
        _ => header,
    }
}

/// The statements of a block, and the position in the flat list at which
/// reading goes on after the block.
pub struct Block {
    pub nodes: Seq<NodeView>,
    pub next: int,
}

/// The block that starts at position `from` of the flat list `flat` and is
/// closed by the marker `end`, or by nothing but the end of the list. A
/// header in the block takes the statements that follow it, up to its own
/// closing marker, as its body, and so on to any depth. A marker that
/// closes no block is a statement like any other.
pub open spec fn collect(flat: Seq<NodeView>, from: int, end: Option<NodeView>) -> Block
    decreases flat.len() - from,
{
    if from < 0 || from >= flat.len() {
        Block { nodes: Seq::empty(), next: from }
    } else if is_header(flat[from]) {
        let body = collect(flat, from + 1, Some(closing(flat[from])));
        // A block ends after its start and within the list, so reading
        // always goes on there.
        let resume = if from < body.next <= flat.len() {
            body.next
        } else {
            from + 1
        };
        let rest = collect(flat, resume, end);
        Block { nodes: seq![with_body(flat[from], body.nodes)] + rest.nodes, next: rest.next }
    } else if end == Some(flat[from]) {
        Block { nodes: Seq::empty(), next: from + 1 }
    } else {
        let rest = collect(flat, from + 1, end);
        Block { nodes: seq![flat[from]] + rest.nodes, next: rest.next }
    }
}

/// The flat list of statements as a tree: every header owns the
/// statements of its block.
pub open spec fn nest(flat: Seq<NodeView>) -> Seq<NodeView> {
    collect(flat, 0, None).nodes
}

/// A block that starts inside the list ends after its start and not
/// beyond the end of the list.
pub proof fn lemma_collect_advances(flat: Seq<NodeView>, from: int, end: Option<NodeView>)
    requires
        0 <= from <= flat.len(),
    ensures
        from < flat.len() ==> from < collect(flat, from, end).next,
        collect(flat, from, end).next <= flat.len(),
    decreases flat.len() - from,
{
    if from < flat.len() {
        if is_header(flat[from]) {
            lemma_collect_advances(flat, from + 1, Some(closing(flat[from])));
            let body = collect(flat, from + 1, Some(closing(flat[from])));
            lemma_collect_advances(flat, body.next, end);
        } else if end == Some(flat[from]) {
        } else {
            lemma_collect_advances(flat, from + 1, end);
        }
    }
}

/// The position of the first node equal to `end` at or after `from`, or
/// the length of the list if there is none.
pub open spec fn first_marker(flat: Seq<NodeView>, from: int, end: NodeView) -> int
    decreases flat.len() - from,
{
    if from < 0 || from >= flat.len() {
        flat.len() as int
    } else if flat[from] == end {
        from
    } else {
        first_marker(flat, from + 1, end)
    }
}

/// The first marker at or after a position is at or after that position.
pub proof fn lemma_first_marker_bounds(flat: Seq<NodeView>, from: int, end: NodeView)
    requires
        0 <= from <= flat.len(),
    ensures
        from <= first_marker(flat, from, end) <= flat.len(),
    decreases flat.len() - from,
{
    if from < flat.len() && flat[from] != end {
        lemma_first_marker_bounds(flat, from + 1, end);
    }
}

/// The flat list from position `from` with one level of blocks: a header
/// takes the statements that follow it, as they are, up to the first
/// marker of its kind. Headers among those statements keep their bodies.
pub open spec fn group(flat: Seq<NodeView>, from: int) -> Seq<NodeView>
    decreases flat.len() - from,
{
    if from < 0 || from >= flat.len() {
        Seq::empty()
    } else if is_header(flat[from]) {
        proof {
            lemma_first_marker_bounds(flat, from + 1, closing(flat[from]));
        }
        let stop = first_marker(flat, from + 1, closing(flat[from]));
        let resume = if stop < flat.len() {
            stop + 1
        } else {
            stop
        };
        seq![with_body(flat[from], flat.subrange(from + 1, stop))] + group(flat, resume)
    } else {
        seq![flat[from]] + group(flat, from + 1)
    }
}

/// The statements of the block of a header.
pub open spec fn body_of(header: NodeView) -> Seq<NodeView> {
    match header {
        NodeView::IfOperation { first_half, comparison_op, second_half, content } => content,
        NodeView::WhileOperation { first_half, comparison_op, second_half, content } => content,
        _ => Seq::empty(),
    }
}

/// The statements of a tree as a flat list: each header, without its
/// block, followed by the statements of its block and by its closing
/// marker.
pub open spec fn flatten(nodes: Seq<NodeView>) -> Seq<NodeView>
    decreases nodes, 0nat,
{
    if nodes.len() == 0 {
        Seq::empty()
    } else {
        flatten_node(nodes[0]) + flatten(nodes.skip(1))
    }
}

/// One statement of a tree as a flat list.
pub open spec fn flatten_node(node: NodeView) -> Seq<NodeView>
    decreases node, 1nat,
{
    if is_header(node) {
        seq![with_body(node, Seq::empty())] + flatten(body_of(node)) + seq![closing(node)]
    } else {
        seq![node]
    }
}

/// Whether the statements `nodes` can stand in a block closed by `end`:
/// none of them is that marker, and the same holds of the block of every
/// header among them, to any depth.
pub open spec fn well_nested(nodes: Seq<NodeView>, end: Option<NodeView>) -> bool
    decreases nodes, 0nat,
{
    nodes.len() == 0 || (node_well_nested(nodes[0], end) && well_nested(nodes.skip(1), end))
}

/// Whether the statement `node` can stand in a block closed by `end`.
pub open spec fn node_well_nested(node: NodeView, end: Option<NodeView>) -> bool
    decreases node, 1nat,
{
    if is_header(node) {
        well_nested(body_of(node), Some(closing(node)))
    } else {
        end != Some(node)
    }
}

/// What closes a block in the flat list: its marker, or nothing at the
/// top level.
pub open spec fn closing_part(end: Option<NodeView>) -> Seq<NodeView> {
    match end {
        Some(marker) => seq![marker],
        None => Seq::empty(),
    }
}

/// Collecting a block from where its flattened statements stand gives
/// those statements back, and goes on after the closing marker.
pub proof fn lemma_collect_flatten(
    before: Seq<NodeView>,
    nodes: Seq<NodeView>,
    end: Option<NodeView>,
    after: Seq<NodeView>,
)
    requires
        well_nested(nodes, end),
        end matches Some(marker) ==> marker is EndIf || marker is EndWhile,
        end.is_none() ==> after.len() == 0,
    ensures
        collect(before + flatten(nodes) + closing_part(end) + after, before.len() as int, end)
            == (Block {
            nodes,
            next: (before.len() + flatten(nodes).len() + closing_part(end).len()) as int,
        }),
    decreases nodes, 0nat,
{
    let flat = before + flatten(nodes) + closing_part(end) + after;
    let from = before.len() as int;
    if nodes.len() == 0 {
        assert(flatten(nodes).len() == 0);
        match end {
            Some(marker) => {
                assert(flat[from] == marker);
            },
            None => {
                assert(flat.len() == from);
            },
        }
        assert(nodes =~= Seq::<NodeView>::empty());
    } else {
        let first = nodes[0];
        let others = nodes.skip(1);
        let head = flatten_node(first);
        assert(flatten(nodes) == head + flatten(others));
        assert(node_well_nested(first, end) && well_nested(others, end));
        assert(flat =~= (before + head) + flatten(others) + closing_part(end) + after);
        lemma_collect_flatten(before + head, others, end, after);
        let rest = collect(flat, from + head.len(), end);
        assert(rest.nodes == others);
        if is_header(first) {
            let header = with_body(first, Seq::empty());
            let close = Some(closing(first));
            let following = flatten(others) + closing_part(end) + after;
            assert(head == seq![header] + flatten(body_of(first)) + seq![closing(first)]);
            assert(flat =~= (before + seq![header]) + flatten(body_of(first)) + closing_part(close)
                + following);
            lemma_collect_flatten(before + seq![header], body_of(first), close, following);
            assert(flat[from] == header);
            assert(is_header(header));
            assert(closing(header) == closing(first));
            let body = collect(flat, from + 1, close);
            assert(body.nodes == body_of(first));
            assert(body.next == from + head.len());
            assert(with_body(header, body_of(first)) == first);
            assert(collect(flat, from, end) == Block {
                nodes: seq![first] + others,
                next: rest.next,
            });
        } else {
            assert(head == seq![first]);
            assert(flat[from] == first);
            assert(end != Some(first));
            assert(collect(flat, from, end) == Block {
                nodes: seq![first] + others,
                next: rest.next,
            });
        }
        assert(seq![first] + others =~= nodes);
    }
}

/// Nesting inverts flattening: the flat list of a tree whose blocks hold
/// no marker of their own kind nests back into that tree.
pub proof fn lemma_nest_flatten(nodes: Seq<NodeView>)
    requires
        well_nested(nodes, None),
    ensures
        nest(flatten(nodes)) == nodes,
{
    let none = Seq::<NodeView>::empty();
    lemma_collect_flatten(none, nodes, None, none);
    assert(none + flatten(nodes) + closing_part(None) + none =~= flatten(nodes));
}

/// What closes the block being collected.
#[derive(Clone, Copy, PartialEq, Eq, Structural)]
enum Closer {
    EndOfList,
    EndIf,
    EndWhile,
}

impl Closer {
    /// The marker, if the block has one.
    spec fn marker(self) -> Option<NodeView> {
        match self {
            Closer::EndOfList => None,
            Closer::EndIf => Some(NodeView::EndIf),
            Closer::EndWhile => Some(NodeView::EndWhile),
        }
    }

    /// Whether `node` closes the block.
    fn closes(self, node: &ASTNode) -> (yes: bool)
        ensures
            yes == (self.marker() == Some(node@)),
    {
        match (self, node) {
            (Closer::EndIf, ASTNode::EndIf) => true,
            (Closer::EndWhile, ASTNode::EndWhile) => true,
            _ => false,
        }
    }
}

/// The header `header` with `body` as the statements of its block.
fn attach(header: &ASTNode, body: Vec<Box<ASTNode>>) -> (node: ASTNode)
    requires
        is_header(header@),
    ensures
        node@ == with_body(header@, boxed_views(body@)),
{
    let node = match header {
        ASTNode::IfOperation { first_half, comparison_op, second_half, content: _ } => {
            ASTNode::IfOperation {
                first_half: Box::new(first_half.duplicate()),
                comparison_op: comparison_op.clone(),
                second_half: Box::new(second_half.duplicate()),
                content: body,
            }
        },
        ASTNode::WhileOperation { first_half, comparison_op, second_half, content: _ } => {
            ASTNode::WhileOperation {
                first_half: Box::new(first_half.duplicate()),
                comparison_op: comparison_op.clone(),
                second_half: Box::new(second_half.duplicate()),
                content: body,
            }
        },
        _ => ASTNode::Error,
    };
    proof {
        if header is IfOperation {
            assert(node@->IfOperation_content =~= boxed_views(body@));
        } else {
            assert(node@->WhileOperation_content =~= boxed_views(body@));
        }
    }
    node
}

/// Whether `node` is the header of a block.
fn opens_block(node: &ASTNode) -> (yes: bool)
    ensures
        yes == is_header(node@),
{
    match node {
        ASTNode::IfOperation { .. } => true,
        ASTNode::WhileOperation { .. } => true,
        _ => false,
    }
}

/// The marker that closes the block that `header` opens.
fn closer_of(header: &ASTNode) -> (closer: Closer)
    requires
        is_header(header@),
    ensures
        closer.marker() == Some(closing(header@)),
{
    match header {
        ASTNode::IfOperation { .. } => Closer::EndIf,
        _ => Closer::EndWhile,
    }
}

/// Collects the block that starts at `from` and is closed by `closer`.
fn collect_block(flat: &Vec<ASTNode>, from: usize, closer: Closer) -> (block: (
    Vec<Box<ASTNode>>,
    usize,
))
    requires
        from <= flat@.len(),
    ensures
        boxed_views(block.0@) == collect(node_views(flat@), from as int, closer.marker()).nodes,
        block.1 == collect(node_views(flat@), from as int, closer.marker()).next,
        block.1 <= flat@.len(),
        from < flat@.len() ==> from < block.1,
    decreases flat@.len() - from,
{
    let ghost list = node_views(flat@);
    let ghost end = closer.marker();
    let mut content: Vec<Box<ASTNode>> = Vec::new();
    let mut i: usize = from;
    proof {
        lemma_collect_advances(list, from as int, end);
        assert(boxed_views(content@) + collect(list, i as int, end).nodes == collect(
            list,
            from as int,
            end,
        ).nodes);
    }
    while i < flat.len()
        invariant
            from <= i <= flat@.len(),
            list == node_views(flat@),
            end == closer.marker(),
            collect(list, from as int, end).nodes == boxed_views(content@) + collect(
                list,
                i as int,
                end,
            ).nodes,
            collect(list, from as int, end).next == collect(list, i as int, end).next,
            from < i || i == from,
            i == from ==> content@.len() == 0,
        decreases flat@.len() - i,
    {
        let ghost before = boxed_views(content@);
        let node = &flat[i];
        proof {
            assert(list[i as int] == node@);
        }
        if opens_block(node) {
            let (body, next) = collect_block(flat, i + 1, closer_of(node));
            let nested = attach(node, body);
            content.push(Box::new(nested));
            proof {
                let rest = collect(list, next as int, end);
                assert(boxed_views(content@) == before + seq![nested@]);
                assert(before + (seq![nested@] + rest.nodes) == (before + seq![nested@])
                    + rest.nodes);
            }
            i = next;
        } else if closer.closes(node) {
            proof {
                assert(before + Seq::<NodeView>::empty() == before);
            }
            return (content, i + 1);
        } else {
            let copy = node.duplicate();
            content.push(Box::new(copy));
            proof {
                let rest = collect(list, i + 1, end);
                assert(boxed_views(content@) == before + seq![copy@]);
                assert(before + (seq![copy@] + rest.nodes) == (before + seq![copy@]) + rest.nodes);
            }
            i += 1;
        }
    }
    proof {
        assert(boxed_views(content@) + Seq::<NodeView>::empty() == boxed_views(content@));
    }
    (content, i)
}

impl AST {
    /// Gives every block header the statements of its block, to any depth:
    /// the flat list of statements becomes a tree.
    pub fn bttr_transform_ast(&mut self)
        ensures
            final(self)@ == nest(old(self)@),
    {
        let ghost list = self@;
        let mut new_nodes: Vec<ASTNode> = Vec::new();
        let mut i: usize = 0;
        proof {
            assert(node_views(new_nodes@) + collect(list, 0, None).nodes == nest(list));
        }
        while i < self.nodes.len()
            invariant
                i <= self.nodes@.len(),
                list == self@,
                nest(list) == node_views(new_nodes@) + collect(list, i as int, None).nodes,
            decreases self.nodes@.len() - i,
        {
            let ghost before = node_views(new_nodes@);
            let node = &self.nodes[i];
            proof {
                assert(list[i as int] == node@);
            }
            if opens_block(node) {
                let (body, next) = collect_block(&self.nodes, i + 1, closer_of(node));
                let nested = attach(node, body);
                new_nodes.push(nested);
                proof {
                    let rest = collect(list, next as int, None);
                    assert(node_views(new_nodes@) == before + seq![nested@]);
                    assert(before + (seq![nested@] + rest.nodes) == (before + seq![nested@])
                        + rest.nodes);
                }
                i = next;
            } else {
                let copy = node.duplicate();
                new_nodes.push(copy);
                proof {
                    let rest = collect(list, i + 1, None);
                    assert(node_views(new_nodes@) == before + seq![copy@]);
                    assert(before + (seq![copy@] + rest.nodes) == (before + seq![copy@])
                        + rest.nodes);
                }
                i += 1;
            }
        }
        proof {
            assert(node_views(new_nodes@) + Seq::<NodeView>::empty() == node_views(new_nodes@));
        }
        self.nodes = new_nodes;
    }

    /// Gives every block header of the top level the statements that
    /// follow it, up to the first marker of its kind. Blocks inside blocks
    /// stay flat.
    pub fn transform_ast(&mut self)
        ensures
            final(self)@ == group(old(self)@, 0),
    {
        let ghost list = self@;
        let mut new_nodes: Vec<ASTNode> = Vec::new();
        let mut i: usize = 0;
        proof {
            assert(node_views(new_nodes@) + group(list, 0) == group(list, 0));
        }
        while i < self.nodes.len()
            invariant
                i <= self.nodes@.len(),
                list == self@,
                group(list, 0) == node_views(new_nodes@) + group(list, i as int),
            decreases self.nodes@.len() - i,
        {
            let ghost before = node_views(new_nodes@);
            let node = &self.nodes[i];
            proof {
                assert(list[i as int] == node@);
            }
            if opens_block(node) {
                let closer = closer_of(node);
                let ghost end = closing(node@);
                let mut content: Vec<Box<ASTNode>> = Vec::new();
                let mut j: usize = i + 1;
                proof {
                    assert(list.subrange(i + 1, j as int) == boxed_views(content@));
                }
                while j < self.nodes.len() && !closer.closes(&self.nodes[j])
                    invariant
                        i < j <= self.nodes@.len(),
                        list == self@,
                        closer.marker() == Some(end),
                        first_marker(list, i + 1, end) == first_marker(list, j as int, end),
                        boxed_views(content@) == list.subrange(i + 1, j as int),
                    decreases self.nodes@.len() - j,
                {
                    let ghost seen = boxed_views(content@);
                    let copy = self.nodes[j].duplicate();
                    content.push(Box::new(copy));
                    proof {
                        assert(list[j as int] == self.nodes@[j as int]@);
                        assert(boxed_views(content@) == seen + seq![copy@]);
                        assert(list.subrange(i + 1, j + 1) == list.subrange(i + 1, j as int)
                            + seq![list[j as int]]);
                    }
                    j += 1;
                }
                proof {
                    if j < self.nodes@.len() {
                        assert(list[j as int] == self.nodes@[j as int]@);
                    }
                }
                let nested = attach(node, content);
                new_nodes.push(nested);
                let resume = if j < self.nodes.len() {
                    j + 1
                } else {
                    j
                };
                proof {
                    let rest = group(list, resume as int);
                    assert(node_views(new_nodes@) == before + seq![nested@]);
                    assert(before + (seq![nested@] + rest) == (before + seq![nested@]) + rest);
                }
                i = resume;
            } else {
                let copy = node.duplicate();
                new_nodes.push(copy);
                proof {
                    let rest = group(list, i + 1);
                    assert(node_views(new_nodes@) == before + seq![copy@]);
                    assert(before + (seq![copy@] + rest) == (before + seq![copy@]) + rest);
                }
                i += 1;
            }
        }
        proof {
            assert(node_views(new_nodes@) + Seq::<NodeView>::empty() == node_views(new_nodes@));
        }
        self.nodes = new_nodes;
    }
}

} // verus!
