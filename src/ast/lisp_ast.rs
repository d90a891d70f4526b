use vstd::prelude::*;

verus! {

/// A token of the S-expression language.
#[derive(Debug, PartialEq)]
pub enum Token {
    ParenOpen,
    ParenClose,
    Name(String),
    Number(String),
}

/// What a token stands for, with its text as a sequence of characters.
pub enum TokenView {
    Open,
    Close,
    Name(Seq<char>),
    Number(Seq<char>),
}

impl View for Token {
    type V = TokenView;

    open spec fn view(&self) -> TokenView {
        match self {
            Token::ParenOpen => TokenView::Open,
            Token::ParenClose => TokenView::Close,
            Token::Name(s) => TokenView::Name(s@),
            Token::Number(s) => TokenView::Number(s@),
        }
    }
}

/// The mathematical shape of a source tree.
pub enum SourceTree {
    Program(Seq<SourceTree>),
    Call(Seq<char>, Seq<SourceTree>),
    Number(Seq<char>),
}

/// A call or a number whose nested nodes are calls and numbers again: what may
/// stand in a program's body or among a call's parameters.
pub open spec fn is_expression(n: SourceTree) -> bool
    decreases n,
{
    match n {
        SourceTree::Call(_, params) => forall|i: int|
            0 <= i < params.len() ==> is_expression(#[trigger] params[i]),
        SourceTree::Number(_) => true,
        SourceTree::Program(_) => false,
    }
}

/// A program whose body holds expressions only.
pub open spec fn is_program(n: SourceTree) -> bool {
    match n {
        SourceTree::Program(body) => forall|i: int|
            0 <= i < body.len() ==> is_expression(#[trigger] body[i]),
        _ => false,
    }
}

#[derive(Debug)]
pub struct CallExpression {
    pub name: String,
    pub params: Vec<Node>,
}

#[derive(Debug)]
pub struct Program {
    pub body: Vec<Node>,
}

#[derive(Debug)]
pub struct NumberLiteral {
    pub value: String,
}

#[derive(Debug)]
pub enum Node {
    Program(Program),
    CallExpression(CallExpression),
    NumberLiteral(NumberLiteral),
}

/// The shape of one node.
pub open spec fn tree_of(n: Node) -> SourceTree
    decreases n,
{
    match n {
        Node::Program(p) => SourceTree::Program(trees_of(p.body@)),
        Node::CallExpression(c) => SourceTree::Call(c.name@, trees_of(c.params@)),
        Node::NumberLiteral(l) => SourceTree::Number(l.value@),
    }
}

/// The shapes of a sequence of nodes, element by element.
pub open spec fn trees_of(ns: Seq<Node>) -> Seq<SourceTree>
    decreases ns,
{
    Seq::new(
        ns.len(),
        |i: int|
            if 0 <= i < ns.len() {
                tree_of(ns[i])
            } else {
                SourceTree::Number(Seq::empty())
            },
    )
}

impl View for Node {
    type V = SourceTree;

    open spec fn view(&self) -> SourceTree {
        tree_of(*self)
    }
}

impl View for CallExpression {
    type V = SourceTree;

    open spec fn view(&self) -> SourceTree {
        SourceTree::Call(self.name@, trees_of(self.params@))
    }
}

impl View for Program {
    type V = SourceTree;

    open spec fn view(&self) -> SourceTree {
        SourceTree::Program(trees_of(self.body@))
    }
}

impl View for NumberLiteral {
    type V = SourceTree;

    open spec fn view(&self) -> SourceTree {
        SourceTree::Number(self.value@)
    }
}

impl Node {
    pub fn new_program(body: Vec<Node>) -> (r: Node)
        ensures
            r == Node::Program(Program { body }),
    {
        Node::Program(Program { body })
    }

    pub fn new_call_expression(name: String, params: Vec<Node>) -> (r: Node)
        ensures
            r == Node::CallExpression(CallExpression { name, params }),
    {
        Node::CallExpression(CallExpression { name, params })
    }

    pub fn new_number_literal(value: String) -> (r: Node)
        ensures
            r == Node::NumberLiteral(NumberLiteral { value }),
    {
        Node::NumberLiteral(NumberLiteral { value })
    }
}


/// One callback of a traversal, with the node it is about and, but for the
/// program's own callbacks, that node's parent.
pub enum Event {
    EnterProgram(SourceTree),
    ExitProgram(SourceTree),
    EnterCall(SourceTree, SourceTree),
    ExitCall(SourceTree, SourceTree),
    EnterNumber(SourceTree, SourceTree),
    ExitNumber(SourceTree, SourceTree),
}

/// What a pass does on entering and leaving each kind of node. Each callback
/// moves the visitor's state as `step` says for the matching event.
pub trait Visitor: View + Sized {
    spec fn step(state: Self::V, event: Event) -> Self::V;

    fn enter_program(&mut self, program: &Program)
        ensures
            final(self)@ == Self::step(old(self)@, Event::EnterProgram(program@)),
    ;

    fn exit_program(&mut self, program: &Program)
        ensures
            final(self)@ == Self::step(old(self)@, Event::ExitProgram(program@)),
    ;

    fn enter_number_literal(&mut self, node: &NumberLiteral, parent: &Node)
        ensures
            final(self)@ == Self::step(old(self)@, Event::EnterNumber(node@, parent@)),
    ;

    fn exit_number_literal(&mut self, node: &NumberLiteral, parent: &Node)
        ensures
            final(self)@ == Self::step(old(self)@, Event::ExitNumber(node@, parent@)),
    ;

    fn enter_call_expression(&mut self, node: &CallExpression, parent: &Node)
        ensures
            final(self)@ == Self::step(old(self)@, Event::EnterCall(node@, parent@)),
    ;

    fn exit_call_expression(&mut self, node: &CallExpression, parent: &Node)
        ensures
            final(self)@ == Self::step(old(self)@, Event::ExitCall(node@, parent@)),
    ;
}

} // verus!
