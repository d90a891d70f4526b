use vstd::prelude::*;

use crate::ast::c_ast::{self, Callee, TargetTree};
use crate::ast::lisp_ast::{
    self, is_expression, is_program, trees_of, Event, Node, SourceTree, Visitor,
};
use crate::error::CompileError;

verus! {

/// The state of a visitor after it has seen `events` in order.
pub open spec fn run<V: Visitor>(state: V::V, events: Seq<Event>) -> V::V
    decreases events.len(),
{
    if events.len() == 0 {
        state
    } else {
        V::step(run::<V>(state, events.drop_last()), events.last())
    }
}

/// Running two stretches of events is running the first, then the second.
pub proof fn lemma_run_append<V: Visitor>(state: V::V, a: Seq<Event>, b: Seq<Event>)
    ensures
        run::<V>(state, a + b) == run::<V>(run::<V>(state, a), b),
    decreases b.len(),
{
    if b.len() == 0 {
        assert(a + b =~= a);
    } else {
        assert((a + b).drop_last() =~= a + b.drop_last());
        lemma_run_append::<V>(state, a, b.drop_last());
    }
}

/// Running one event is one step.
pub proof fn lemma_run_one<V: Visitor>(state: V::V, e: Event)
    ensures
        run::<V>(state, seq![e]) == V::step(state, e),
{
    assert(seq![e].drop_last() =~= Seq::<Event>::empty());
    assert(run::<V>(state, Seq::<Event>::empty()) == state);
}

/// The callbacks that visiting `n` under `parent` makes, in order.
pub open spec fn node_events(n: SourceTree, parent: SourceTree) -> Seq<Event>
    decreases n,
{
    match n {
        SourceTree::Call(_, params) => seq![Event::EnterCall(n, parent)] + nodes_events(params, n)
            + seq![Event::ExitCall(n, parent)],
        SourceTree::Number(_) => seq![Event::EnterNumber(n, parent), Event::ExitNumber(n, parent)],
        SourceTree::Program(_) => Seq::empty(),
    }
}

/// The callbacks that visiting `ns` one after another under `parent` makes.
pub open spec fn nodes_events(ns: Seq<SourceTree>, parent: SourceTree) -> Seq<Event>
    decreases ns,
{
    if ns.len() == 0 {
        Seq::empty()
    } else {
        nodes_events(ns.drop_last(), parent) + node_events(ns.last(), parent)
    }
}

/// The callbacks of a whole traversal: the program's entry, its body, its exit.
pub open spec fn program_events(p: SourceTree) -> Seq<Event> {
    match p {
        SourceTree::Program(body) => seq![Event::EnterProgram(p)] + nodes_events(body, p)
            + seq![Event::ExitProgram(p)],
        _ => Seq::empty(),
    }
}

fn traverse_node<T: Visitor>(node: &Node, parent: &Node, visitor: &mut T)
    requires
        is_expression(node@),
    ensures
        final(visitor)@ == run::<T>(old(visitor)@, node_events(node@, parent@)),
    decreases node,
{
    match node {
        Node::CallExpression(current) => {
            let ghost s0 = visitor@;
            visitor.enter_call_expression(current, parent);
            let ghost s1 = visitor@;
            assert(node@ == SourceTree::Call(current.name@, trees_of(current.params@)));
            assert(is_expression(node@));
            assert forall|i: int| 0 <= i < current.params@.len() implies is_expression(
                #[trigger] trees_of(current.params@)[i],
            ) by {
                assert(is_expression(node@->Call_1[i]));
            }
            traverse_nodes(&current.params, node, visitor);
            let ghost s2 = visitor@;
            visitor.exit_call_expression(current, parent);
            proof {
                let a = seq![Event::EnterCall(node@, parent@)];
                let b = nodes_events(node@->Call_1, node@);
                let c = seq![Event::ExitCall(node@, parent@)];
                lemma_run_one::<T>(s0, a[0]);
                lemma_run_append::<T>(s0, a, b);
                lemma_run_append::<T>(s0, a + b, c);
                lemma_run_one::<T>(s2, c[0]);
            }
        },
        Node::NumberLiteral(current) => {
            let ghost s0 = visitor@;
            visitor.enter_number_literal(current, parent);
            visitor.exit_number_literal(current, parent);
            proof {
                let evs = node_events(node@, parent@);
                assert(evs.drop_last() =~= seq![evs[0]]);
                lemma_run_one::<T>(s0, evs[0]);
            }
        },
        Node::Program(_) => {},
    }
}

fn traverse_nodes<T: Visitor>(nodes: &Vec<Node>, parent: &Node, visitor: &mut T)
    requires
        forall|i: int| 0 <= i < nodes@.len() ==> is_expression(#[trigger] trees_of(nodes@)[i]),
    ensures
        final(visitor)@ == run::<T>(old(visitor)@, nodes_events(trees_of(nodes@), parent@)),
    decreases nodes,
{
    let ghost s0 = visitor@;
    let ghost ts = trees_of(nodes@);
    let mut i: usize = 0;
    assert(ts.take(0) =~= Seq::<SourceTree>::empty());
    while i < nodes.len()
        invariant
            i <= nodes@.len(),
            ts == trees_of(nodes@),
            forall|k: int| 0 <= k < nodes@.len() ==> is_expression(#[trigger] ts[k]),
            visitor@ == run::<T>(s0, nodes_events(ts.take(i as int), parent@)),
        decreases nodes@.len() - i,
    {
        let ghost before = visitor@;
        assert(ts[i as int] == nodes@[i as int]@);
        traverse_node(&nodes[i], parent, visitor);
        proof {
            let pre = ts.take(i as int);
            let next = ts.take(i + 1);
            assert(next.drop_last() =~= pre);
            lemma_run_append::<T>(s0, nodes_events(pre, parent@), node_events(ts[i as int], parent@));
        }
        i = i + 1;
    }
    assert(ts.take(i as int) =~= ts);
}

/// Walks a program depth first: the program's entry, then each node of its
/// body in order, each call's entry before and its exit after its parameters,
/// then the program's exit. Each callback gets the node's immediate parent.
pub fn traverser<T: Visitor>(ast: &Node, visitor: &mut T)
    requires
        is_program(ast@),
    ensures
        final(visitor)@ == run::<T>(old(visitor)@, program_events(ast@)),
{
    if let Node::Program(node) = ast {
        let ghost s0 = visitor@;
        visitor.enter_program(node);
        assert(ast@ == SourceTree::Program(trees_of(node.body@)));
        assert forall|i: int| 0 <= i < node.body@.len() implies is_expression(
            #[trigger] trees_of(node.body@)[i],
        ) by {
            assert(is_expression(ast@->Program_0[i]));
        }
        traverse_nodes(&node.body, ast, visitor);
        let ghost s2 = visitor@;
        visitor.exit_program(node);
        proof {
            let a = seq![Event::EnterProgram(ast@)];
            let b = nodes_events(ast@->Program_0, ast@);
            let c = seq![Event::ExitProgram(ast@)];
            lemma_run_one::<T>(s0, a[0]);
            lemma_run_append::<T>(s0, a, b);
            lemma_run_append::<T>(s0, a + b, c);
            lemma_run_one::<T>(s2, c[0]);
        }
    }
}


/// The target form of one source expression: calls stay calls with their
/// arguments converted in order, numbers keep their text.
pub open spec fn convert(n: SourceTree) -> TargetTree
    decreases n,
{
    match n {
        SourceTree::Call(name, params) => TargetTree::Call(name, converts(params)),
        SourceTree::Number(value) => TargetTree::Number(value),
        // not an expression
        SourceTree::Program(_) => TargetTree::Program(Seq::empty()),
    }
}

/// `convert` applied to each of `ns`.
pub open spec fn converts(ns: Seq<SourceTree>) -> Seq<TargetTree>
    decreases ns,
{
    Seq::new(
        ns.len(),
        |i: int|
            if 0 <= i < ns.len() {
                convert(ns[i])
            } else {
                TargetTree::Number(Seq::empty())
            },
    )
}

/// A top-level expression becomes a statement that wraps its target form.
pub open spec fn statement_of(n: SourceTree) -> TargetTree {
    TargetTree::Statement(Box::new(convert(n)))
}

/// `statement_of` applied to each of `ns`.
pub open spec fn statements_of(ns: Seq<SourceTree>) -> Seq<TargetTree> {
    Seq::new(ns.len(), |i: int| statement_of(ns[i]))
}

/// The target program of a source program, or `None` where a number stands
/// at the top level, where no call could take it as an argument.
pub open spec fn transform_program(p: SourceTree) -> Option<TargetTree> {
    match p {
        SourceTree::Program(body) => if forall|i: int| 0 <= i < body.len() ==> #[trigger] body[i] is Call {
            Some(TargetTree::Program(statements_of(body)))
        } else {
            None
        },
        _ => None,
    }
}

/// What the transformer holds between callbacks: the statements built so far,
/// the calls still open (innermost last), and whether it has failed.
pub struct BuildState {
    pub body: Seq<TargetTree>,
    pub stack: Seq<TargetTree>,
    pub failed: bool,
}

/// Appends `arg` to the arguments of a call.
pub open spec fn add_argument(call: TargetTree, arg: TargetTree) -> TargetTree {
    match call {
        TargetTree::Call(name, args) => TargetTree::Call(name, args.push(arg)),
        _ => call,
    }
}

/// Closes the innermost open call: it becomes the last argument of the call
/// around it, or, where there is none, a statement of the program.
pub open spec fn close_call(s: BuildState) -> BuildState {
    if s.stack.len() == 0 {
        s
    } else {
        let done = s.stack.last();
        let rest = s.stack.drop_last();
        if rest.len() == 0 {
            BuildState {
                body: s.body.push(TargetTree::Statement(Box::new(done))),
                stack: rest,
                failed: s.failed,
            }
        } else {
            BuildState {
                body: s.body,
                stack: rest.drop_last().push(add_argument(rest.last(), done)),
                failed: s.failed,
            }
        }
    }
}

/// How the transformer answers each callback.
pub open spec fn build_step(s: BuildState, e: Event) -> BuildState {
    if s.failed {
        s
    } else {
        match e {
            Event::EnterProgram(_) => BuildState { body: Seq::empty(), stack: s.stack, failed: false },
            Event::EnterCall(SourceTree::Call(name, _), _) => BuildState {
                body: s.body,
                stack: s.stack.push(TargetTree::Call(name, Seq::empty())),
                failed: false,
            },
            Event::ExitCall(_, _) => close_call(s),
            Event::EnterNumber(SourceTree::Number(value), _) => if s.stack.len() == 0 {
                BuildState { body: s.body, stack: s.stack, failed: true }
            } else {
                BuildState {
                    body: s.body,
                    stack: s.stack.drop_last().push(
                        add_argument(s.stack.last(), TargetTree::Number(value)),
                    ),
                    failed: false,
                }
            },
            _ => s,
        }
    }
}

/// The visitor that builds the target program: a stack of the calls still
/// open, and the statements finished so far.
pub struct TargetBuilder {
    body: Vec<c_ast::Node>,
    stack: Vec<c_ast::CallExpression>,
    failed: bool,
}

/// The shapes of the open calls, innermost last.
pub open spec fn calls_of(cs: Seq<c_ast::CallExpression>) -> Seq<TargetTree> {
    Seq::new(cs.len(), |i: int| cs[i]@)
}

impl View for TargetBuilder {
    type V = BuildState;

    closed spec fn view(&self) -> BuildState {
        BuildState {
            body: c_ast::trees_of(self.body@),
            stack: calls_of(self.stack@),
            failed: self.failed,
        }
    }
}

impl TargetBuilder {
    pub fn new() -> (r: TargetBuilder)
        ensures
            r@ == (BuildState { body: Seq::empty(), stack: Seq::empty(), failed: false }),
    {
        let r = TargetBuilder { body: Vec::new(), stack: Vec::new(), failed: false };
        assert(r@.body =~= Seq::<TargetTree>::empty());
        assert(r@.stack =~= Seq::<TargetTree>::empty());
        r
    }

    /// Whether a number met no call to take it.
    pub fn has_failed(&self) -> (r: bool)
        ensures
            r == self@.failed,
    {
        self.failed
    }

    /// The program built so far.
    pub fn into_program(self) -> (r: c_ast::Node)
        ensures
            r@ == TargetTree::Program(self@.body),
    {
        c_ast::Node::new_program(self.body)
    }

    /// Appends `arg` to the arguments of the innermost open call.
    fn push_argument(&mut self, arg: c_ast::Node)
        requires
            old(self).stack@.len() > 0,
        ensures
            final(self)@ == (BuildState {
                body: old(self)@.body,
                stack: old(self)@.stack.drop_last().push(add_argument(old(self)@.stack.last(), arg@)),
                failed: old(self)@.failed,
            }),
    {
        let ghost before = self@;
        let mut top = self.stack.pop().unwrap();
        let ghost top0 = top@;
        top.arguments.push(arg);
        assert(c_ast::trees_of(top.arguments@) =~= top0->Call_1.push(arg@));
        self.stack.push(top);
        assert(self@.stack =~= before.stack.drop_last().push(add_argument(before.stack.last(), arg@)));
    }
}

impl Visitor for TargetBuilder {
    open spec fn step(state: BuildState, event: Event) -> BuildState {
        build_step(state, event)
    }

    fn enter_program(&mut self, _program: &lisp_ast::Program) {
        if !self.failed {
            self.body = Vec::new();
            assert(self@.body =~= Seq::<TargetTree>::empty());
        }
    }

    fn exit_program(&mut self, _program: &lisp_ast::Program) {
    }

    fn enter_number_literal(&mut self, node: &lisp_ast::NumberLiteral, _parent: &Node) {
        if !self.failed {
            if self.stack.len() == 0 {
                self.failed = true;
            } else {
                let literal = c_ast::Node::new_number_literal(node.value.clone());
                self.push_argument(literal);
            }
        }
    }

    fn exit_number_literal(&mut self, _node: &lisp_ast::NumberLiteral, _parent: &Node) {
    }

    fn enter_call_expression(&mut self, node: &lisp_ast::CallExpression, _parent: &Node) {
        if !self.failed {
            let ghost before = self@;
            let call = c_ast::CallExpression {
                callee: Callee::Identifier(node.name.clone()),
                arguments: Vec::new(),
            };
            assert(c_ast::trees_of(call.arguments@) =~= Seq::<TargetTree>::empty());
            self.stack.push(call);
            assert(self@.stack =~= before.stack.push(call@));
        }
    }

    fn exit_call_expression(&mut self, _node: &lisp_ast::CallExpression, _parent: &Node) {
        if !self.failed {
            let ghost before = self@;
            if let Some(top) = self.stack.pop() {
                let done = c_ast::Node::CallExpression(top);
                assert(done@ == before.stack.last());
                if self.stack.len() == 0 {
                    self.body.push(c_ast::Node::new_expression_statement(Box::new(done)));
                    assert(self@.body =~= before.body.push(
                        TargetTree::Statement(Box::new(before.stack.last())),
                    ));
                    assert(self@.stack =~= before.stack.drop_last());
                } else {
                    assert(self@.stack =~= before.stack.drop_last());
                    self.push_argument(done);
                }
            }
        }
    }
}


/// Appends `extra` to the arguments of a call.
pub open spec fn append_arguments(call: TargetTree, extra: Seq<TargetTree>) -> TargetTree {
    match call {
        TargetTree::Call(name, args) => TargetTree::Call(name, args + extra),
        _ => call,
    }
}

/// Once failed, the transformer ignores every further callback.
proof fn lemma_failed_stays(s: BuildState, evs: Seq<Event>)
    requires
        s.failed,
    ensures
        run::<TargetBuilder>(s, evs) == s,
    decreases evs.len(),
{
    if evs.len() > 0 {
        lemma_failed_stays(s, evs.drop_last());
    }
}

/// Inside an open call, visiting an expression adds its target form as the
/// call's last argument.
proof fn lemma_nested_node(s: BuildState, n: SourceTree, parent: SourceTree)
    requires
        !s.failed,
        s.stack.len() > 0,
        s.stack.last() is Call,
        is_expression(n),
    ensures
        run::<TargetBuilder>(s, node_events(n, parent)) == (BuildState {
            body: s.body,
            stack: s.stack.drop_last().push(add_argument(s.stack.last(), convert(n))),
            failed: false,
        }),
    decreases n,
{
    match n {
        SourceTree::Call(name, params) => {
            let a = seq![Event::EnterCall(n, parent)];
            let b = nodes_events(params, n);
            let c = seq![Event::ExitCall(n, parent)];
            lemma_run_one::<TargetBuilder>(s, a[0]);
            let s1 = build_step(s, a[0]);
            assert(s1.stack.drop_last() =~= s.stack);
            lemma_nested_nodes(s1, params, n);
            lemma_run_append::<TargetBuilder>(s, a, b);
            let s2 = run::<TargetBuilder>(s1, b);
            assert(Seq::<TargetTree>::empty() + converts(params) =~= converts(params));
            lemma_run_append::<TargetBuilder>(s, a + b, c);
            lemma_run_one::<TargetBuilder>(s2, c[0]);
            assert(s2.stack.drop_last() =~= s.stack);
            assert(node_events(n, parent) == a + b + c);
        },
        SourceTree::Number(_) => {
            let evs = node_events(n, parent);
            assert(evs.drop_last() =~= seq![evs[0]]);
            lemma_run_one::<TargetBuilder>(s, evs[0]);
        },
        SourceTree::Program(_) => {},
    }
}

/// Inside an open call, visiting expressions one after another appends their
/// target forms, in order, to the call's arguments.
proof fn lemma_nested_nodes(s: BuildState, ns: Seq<SourceTree>, parent: SourceTree)
    requires
        !s.failed,
        s.stack.len() > 0,
        s.stack.last() is Call,
        forall|i: int| 0 <= i < ns.len() ==> is_expression(#[trigger] ns[i]),
    ensures
        run::<TargetBuilder>(s, nodes_events(ns, parent)) == (BuildState {
            body: s.body,
            stack: s.stack.drop_last().push(append_arguments(s.stack.last(), converts(ns))),
            failed: false,
        }),
    decreases ns,
{
    if ns.len() == 0 {
        assert(s.stack.last()->Call_1 + converts(ns) =~= s.stack.last()->Call_1);
        assert(s.stack.drop_last().push(s.stack.last()) =~= s.stack);
    } else {
        let init = ns.drop_last();
        lemma_nested_nodes(s, init, parent);
        let s1 = run::<TargetBuilder>(s, nodes_events(init, parent));
        assert(s1.stack.drop_last() =~= s.stack.drop_last());
        lemma_nested_node(s1, ns.last(), parent);
        lemma_run_append::<TargetBuilder>(
            s,
            nodes_events(init, parent),
            node_events(ns.last(), parent),
        );
        let args = s.stack.last()->Call_1;
        assert((args + converts(init)).push(convert(ns.last())) =~= args + converts(ns));
    }
}

/// At the top level, visiting a call adds one statement that wraps its target form.
proof fn lemma_top_call(s: BuildState, n: SourceTree, parent: SourceTree)
    requires
        !s.failed,
        s.stack.len() == 0,
        n is Call,
        is_expression(n),
    ensures
        run::<TargetBuilder>(s, node_events(n, parent)) == (BuildState {
            body: s.body.push(statement_of(n)),
            stack: s.stack,
            failed: false,
        }),
{
    let name = n->Call_0;
    let params = n->Call_1;
    let a = seq![Event::EnterCall(n, parent)];
    let b = nodes_events(params, n);
    let c = seq![Event::ExitCall(n, parent)];
    lemma_run_one::<TargetBuilder>(s, a[0]);
    let s1 = build_step(s, a[0]);
    lemma_nested_nodes(s1, params, n);
    lemma_run_append::<TargetBuilder>(s, a, b);
    let s2 = run::<TargetBuilder>(s1, b);
    assert(Seq::<TargetTree>::empty() + converts(params) =~= converts(params));
    lemma_run_append::<TargetBuilder>(s, a + b, c);
    lemma_run_one::<TargetBuilder>(s2, c[0]);
    assert(s2.stack.drop_last() =~= s.stack);
    assert(node_events(n, parent) == a + b + c);
}

/// At the top level, visiting expressions adds one statement per call, in
/// order, and fails where one of them is a number.
proof fn lemma_top_nodes(s: BuildState, ns: Seq<SourceTree>, parent: SourceTree)
    requires
        !s.failed,
        s.stack.len() == 0,
        forall|i: int| 0 <= i < ns.len() ==> is_expression(#[trigger] ns[i]),
    ensures
        ({
            let r = run::<TargetBuilder>(s, nodes_events(ns, parent));
            if forall|i: int| 0 <= i < ns.len() ==> #[trigger] ns[i] is Call {
                r == (BuildState { body: s.body + statements_of(ns), stack: s.stack, failed: false })
            } else {
                r.failed
            }
        }),
    decreases ns.len(),
{
    if ns.len() == 0 {
        assert(s.body + statements_of(ns) =~= s.body);
    } else {
        let init = ns.drop_last();
        let last = ns.last();
        lemma_top_nodes(s, init, parent);
        let s1 = run::<TargetBuilder>(s, nodes_events(init, parent));
        lemma_run_append::<TargetBuilder>(s, nodes_events(init, parent), node_events(last, parent));
        if forall|i: int| 0 <= i < init.len() ==> #[trigger] init[i] is Call {
            if last is Call {
                lemma_top_call(s1, last, parent);
                assert((s.body + statements_of(init)).push(statement_of(last)) =~= s.body
                    + statements_of(ns));
                assert forall|i: int| 0 <= i < ns.len() implies #[trigger] ns[i] is Call by {
                    if i < init.len() {
                        assert(ns[i] == init[i]);
                    }
                }
            } else {
                let evs = node_events(last, parent);
                assert(evs.drop_last() =~= seq![evs[0]]);
                lemma_run_one::<TargetBuilder>(s1, evs[0]);
                assert(!(ns[ns.len() - 1] is Call));
            }
        } else {
            lemma_failed_stays(s1, node_events(last, parent));
            let i = choose|i: int| 0 <= i < init.len() && !(#[trigger] init[i] is Call);
            assert(ns[i] == init[i]);
        }
    }
}

/// Rewrites a source program into a target program by one traversal: each
/// top-level call becomes a statement, nested calls become arguments. A number
/// at the top level, which the parser accepts, is rejected here.
pub fn transformer(ast: &Node) -> (r: Result<c_ast::Node, CompileError>)
    requires
        is_program(ast@),
    ensures
        match transform_program(ast@) {
            Some(t) => r matches Ok(n) && n@ == t,
            None => r == Err::<c_ast::Node, CompileError>(CompileError::MalformedTargetShape),
        },
{
    let mut v = TargetBuilder::new();
    let ghost s0 = v@;
    traverser(ast, &mut v);
    proof {
        let p = ast@;
        let body = p->Program_0;
        let a = seq![Event::EnterProgram(p)];
        let b = nodes_events(body, p);
        let c = seq![Event::ExitProgram(p)];
        lemma_run_one::<TargetBuilder>(s0, a[0]);
        let s1 = build_step(s0, a[0]);
        lemma_top_nodes(s1, body, p);
        lemma_run_append::<TargetBuilder>(s0, a, b);
        lemma_run_append::<TargetBuilder>(s0, a + b, c);
        let s2 = run::<TargetBuilder>(s1, b);
        lemma_run_one::<TargetBuilder>(s2, c[0]);
        assert(s1.body + statements_of(body) =~= statements_of(body));
    }
    if v.has_failed() {
        Err(CompileError::MalformedTargetShape)
    } else {
        Ok(v.into_program())
    }
}

} // verus!
