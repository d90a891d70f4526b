use vstd::prelude::*;

use crate::ast::c_ast::{trees_of, Callee, Node, TargetTree};

verus! {

/// The text of a target tree: statements one per line, a call as
/// `name(arg, arg)`, a number as its text.
pub open spec fn render(t: TargetTree) -> Seq<char>
    decreases t,
{
    match t {
        TargetTree::Program(statements) => render_joined(statements, seq!['\n']),
        TargetTree::Statement(expression) => render(*expression),
        TargetTree::Call(name, args) => name + seq!['('] + render_joined(args, seq![',', ' '])
            + seq![')'],
        TargetTree::Number(value) => value,
    }
}

/// The texts of `ts` in order, with `sep` between each two of them.
pub open spec fn render_joined(ts: Seq<TargetTree>, sep: Seq<char>) -> Seq<char>
    decreases ts,
{
    if ts.len() == 0 {
        Seq::empty()
    } else if ts.len() == 1 {
        render(ts[0])
    } else {
        render_joined(ts.drop_last(), sep) + sep + render(ts.last())
    }
}

fn emit(node: &Node, out: &mut String)
    ensures
        final(out)@ == old(out)@ + render(node@),
    decreases node,
{
    match node {
        Node::Program(program) => {
            proof {
                reveal_strlit("\n");
            }
            assert("\n"@ =~= seq!['\n']);
            assert(node@ == TargetTree::Program(trees_of(program.body@)));
            emit_joined(&program.body, "\n", out);
        },
        Node::ExpressionStatement(statement) => {
            emit(&statement.expression, out);
        },
        Node::CallExpression(call) => {
            let Callee::Identifier(name) = &call.callee;
            proof {
                reveal_strlit("(");
                reveal_strlit(", ");
                reveal_strlit(")");
            }
            assert("("@ =~= seq!['(']);
            assert(", "@ =~= seq![',', ' ']);
            assert(")"@ =~= seq![')']);
            assert(node@ == TargetTree::Call(name@, trees_of(call.arguments@)));
            let ghost start = out@;
            out.append(name.as_str());
            out.append("(");
            emit_joined(&call.arguments, ", ", out);
            out.append(")");
            assert(out@ =~= start + render(node@));
        },
        Node::NumberLiteral(literal) => {
            out.append(literal.value.as_str());
        },
    }
}

fn emit_joined(nodes: &Vec<Node>, sep: &str, out: &mut String)
    ensures
        final(out)@ == old(out)@ + render_joined(trees_of(nodes@), sep@),
    decreases nodes,
{
    let ghost start = out@;
    let ghost ts = trees_of(nodes@);
    let mut i: usize = 0;
    assert(out@ =~= start + render_joined(ts.take(0), sep@));
    while i < nodes.len()
        invariant
            i <= nodes@.len(),
            ts == trees_of(nodes@),
            out@ == start + render_joined(ts.take(i as int), sep@),
        decreases nodes@.len() - i,
    {
        let ghost before = out@;
        if i > 0 {
            out.append(sep);
        }
        assert(ts[i as int] == nodes@[i as int]@);
        emit(&nodes[i], out);
        proof {
            let next = ts.take(i + 1);
            assert(next.drop_last() =~= ts.take(i as int));
            if i == 0 {
                assert(out@ =~= start + render_joined(next, sep@));
            } else {
                assert(out@ =~= start + render_joined(next, sep@));
            }
        }
        i = i + 1;
    }
    assert(ts.take(i as int) =~= ts);
}

/// Generation reads its tree and nothing else: two texts that `codegen` may
/// return for one tree, as on two runs over the same tree, are equal.
pub proof fn lemma_codegen_repeatable(t: TargetTree, first: String, second: String)
    requires
        first@ == render(t),
        second@ == render(t),
    ensures
        first@ == second@,
{
}

/// Renders a target tree as text. The tree is only read.
pub fn codegen(ast: &Node) -> (r: String)
    ensures
        r@ == render(ast@),
{
    let mut code = String::new();
    emit(ast, &mut code);
    assert(code@ =~= render(ast@));
    code
}

} // verus!
