use vstd::prelude::*;

verus! {

/// The mathematical shape of a target tree.
pub enum TargetTree {
    Program(Seq<TargetTree>),
    Statement(Box<TargetTree>),
    Call(Seq<char>, Seq<TargetTree>),
    Number(Seq<char>),
}

#[derive(Debug)]
pub enum Callee {
    Identifier(String),
}

#[derive(Debug)]
pub struct CallExpression {
    pub callee: Callee,
    pub arguments: Vec<Node>,
}

#[derive(Debug)]
pub struct ExpressionStatement {
    pub expression: Box<Node>,
}

#[derive(Debug)]
pub struct NumberLiteral {
    pub value: String,
}

#[derive(Debug)]
pub struct Program {
    pub body: Vec<Node>,
}

#[derive(Debug)]
pub enum Node {
    Program(Program),
    ExpressionStatement(ExpressionStatement),
    CallExpression(CallExpression),
    NumberLiteral(NumberLiteral),
}

/// The name a callee calls.
pub open spec fn callee_name(c: Callee) -> Seq<char> {
    match c {
        Callee::Identifier(s) => s@,
    }
}

/// The shape of one node.
pub open spec fn tree_of(n: Node) -> TargetTree
    decreases n,
{
    match n {
        Node::Program(p) => TargetTree::Program(trees_of(p.body@)),
        Node::ExpressionStatement(s) => TargetTree::Statement(Box::new(tree_of(*s.expression))),
        Node::CallExpression(c) => TargetTree::Call(callee_name(c.callee), trees_of(c.arguments@)),
        Node::NumberLiteral(l) => TargetTree::Number(l.value@),
    }
}

/// The shapes of a sequence of nodes, element by element.
pub open spec fn trees_of(ns: Seq<Node>) -> Seq<TargetTree>
    decreases ns,
{
    Seq::new(
        ns.len(),
        |i: int|
            if 0 <= i < ns.len() {
                tree_of(ns[i])
            } else {
                TargetTree::Number(Seq::empty())
            },
    )
}

impl View for Node {
    type V = TargetTree;

    open spec fn view(&self) -> TargetTree {
        tree_of(*self)
    }
}

impl View for CallExpression {
    type V = TargetTree;

    open spec fn view(&self) -> TargetTree {
        TargetTree::Call(callee_name(self.callee), trees_of(self.arguments@))
    }
}

impl Node {
    pub fn new_program(body: Vec<Node>) -> (r: Node)
        ensures
            r == Node::Program(Program { body }),
    {
        Node::Program(Program { body })
    }

    pub fn new_expression_statement(expression: Box<Node>) -> (r: Node)
        ensures
            r == Node::ExpressionStatement(ExpressionStatement { expression }),
    {
        Node::ExpressionStatement(ExpressionStatement { expression })
    }

    pub fn new_call_expression(callee: Callee, arguments: Vec<Node>) -> (r: Node)
        ensures
            r == Node::CallExpression(CallExpression { callee, arguments }),
    {
        Node::CallExpression(CallExpression { callee, arguments })
    }

    pub fn new_number_literal(value: String) -> (r: Node)
        ensures
            r == Node::NumberLiteral(NumberLiteral { value }),
    {
        Node::NumberLiteral(NumberLiteral { value })
    }
}

} // verus!
