use the_super_tiny_rusty_compiler::ast::c_ast;
use the_super_tiny_rusty_compiler::ast::lisp_ast::{Node, Token};
use the_super_tiny_rusty_compiler::codegen;
use the_super_tiny_rusty_compiler::compile;
use the_super_tiny_rusty_compiler::error::CompileError;
use the_super_tiny_rusty_compiler::parser;
use the_super_tiny_rusty_compiler::tokenizer;
use the_super_tiny_rusty_compiler::transform::{traverser, TargetBuilder};
use the_super_tiny_rusty_compiler::transformer;

fn ok(s: &str) -> Result<String, CompileError> {
    Ok(String::from(s))
}

#[test]
fn two_numbers() {
    assert_eq!(compile("(add 1 2)"), ok("add(1, 2)"));
}

#[test]
fn zero_argument_call() {
    assert_eq!(compile("(foo)"), ok("foo()"));
}

#[test]
fn extra_spaces_change_nothing() {
    assert_eq!(compile("(add  2   3)"), compile("(add 2 3)"));
    assert_eq!(compile("  ( add 2 ( subtract 4 2 ) )  "), ok("add(2, subtract(4, 2))"));
}

#[test]
fn deep_nesting_keeps_structure() {
    assert_eq!(
        compile("(a (b (c (d 1 2) 3) (e)) 4)"),
        ok("a(b(c(d(1, 2), 3), e()), 4)")
    );
}

#[test]
fn number_text_is_kept() {
    assert_eq!(compile("(f 007 0 12345678901234567890123)"), ok("f(007, 0, 12345678901234567890123)"));
}

#[test]
fn unbalanced_parens() {
    assert_eq!(compile("(add 2"), Err(CompileError::UnbalancedParens));
    assert_eq!(compile("("), Err(CompileError::UnbalancedParens));
    assert_eq!(compile("(add"), Err(CompileError::UnbalancedParens));
}

#[test]
fn number_where_name_is_required() {
    assert_eq!(compile("(2 3)"), Err(CompileError::UnexpectedToken(1)));
}

#[test]
fn empty_parens_are_rejected() {
    assert_eq!(compile("()"), Err(CompileError::UnexpectedToken(1)));
}

#[test]
fn stray_close_paren() {
    assert_eq!(compile(")"), Err(CompileError::UnexpectedToken(0)));
    assert_eq!(compile("(a) )"), Err(CompileError::UnexpectedToken(3)));
}

#[test]
fn name_outside_call() {
    assert_eq!(compile("add"), Err(CompileError::UnexpectedToken(0)));
}

#[test]
fn invalid_character() {
    assert_eq!(compile("(add 1 #)"), Err(CompileError::InvalidCharacter('#')));
    assert_eq!(compile("(add 1 -2)"), Err(CompileError::InvalidCharacter('-')));
    assert_eq!(compile("(é)"), Err(CompileError::InvalidCharacter('é')));
}

#[test]
fn bare_number_at_top_level() {
    assert_eq!(compile("2"), Err(CompileError::MalformedTargetShape));
    assert_eq!(compile("(a) 2"), Err(CompileError::MalformedTargetShape));
}

#[test]
fn empty_input() {
    assert_eq!(compile(""), ok(""));
    assert_eq!(compile("   "), ok(""));
}

#[test]
fn one_line_per_top_level_call() {
    assert_eq!(compile("(a 1)(b (c))"), ok("a(1)\nb(c())"));
}

#[test]
fn compile_is_deterministic() {
    let input = "(add 2 (subtract 4 2)) (mul 3 3)";
    assert_eq!(compile(input), compile(input));
}

#[test]
fn tokens_are_maximal_runs() {
    let tokens = tokenizer("(ab12cd 34)").unwrap();
    assert_eq!(
        tokens,
        vec![
            Token::ParenOpen,
            Token::Name(String::from("ab")),
            Token::Number(String::from("12")),
            Token::Name(String::from("cd")),
            Token::Number(String::from("34")),
            Token::ParenClose,
        ]
    );
    assert_eq!(tokenizer(""), Ok(vec![]));
}

#[test]
fn parser_builds_nested_calls() {
    let tokens = tokenizer("(add 2 (sub 4))").unwrap();
    let ast = parser(&tokens).unwrap();
    match ast {
        Node::Program(p) => {
            assert_eq!(p.body.len(), 1);
            match &p.body[0] {
                Node::CallExpression(c) => {
                    assert_eq!(c.name, "add");
                    assert_eq!(c.params.len(), 2);
                    assert!(matches!(&c.params[0], Node::NumberLiteral(n) if n.value == "2"));
                    assert!(matches!(&c.params[1], Node::CallExpression(d) if d.name == "sub" && d.params.len() == 1));
                }
                _ => panic!("expected a call"),
            }
        }
        _ => panic!("expected a program"),
    }
}

#[test]
fn transformer_wraps_top_level_calls() {
    let tokens = tokenizer("(f 1) (g)").unwrap();
    let ast = parser(&tokens).unwrap();
    let target = transformer(&ast).unwrap();
    match &target {
        c_ast::Node::Program(p) => {
            assert_eq!(p.body.len(), 2);
            for s in &p.body {
                assert!(matches!(s, c_ast::Node::ExpressionStatement(_)));
            }
        }
        _ => panic!("expected a program"),
    }
    assert_eq!(codegen(&target), "f(1)\ng()");
}

#[test]
fn codegen_twice_gives_the_same_text() {
    let call = c_ast::Node::new_call_expression(
        c_ast::Callee::Identifier(String::from("add")),
        vec![
            c_ast::Node::new_number_literal(String::from("1")),
            c_ast::Node::new_call_expression(c_ast::Callee::Identifier(String::from("neg")), vec![]),
        ],
    );
    let program = c_ast::Node::new_program(vec![c_ast::Node::new_expression_statement(Box::new(call))]);
    let first = codegen(&program);
    let second = codegen(&program);
    assert_eq!(first, "add(1, neg())");
    assert_eq!(first, second);
}

#[test]
fn source_constructors() {
    let n = Node::new_call_expression(String::from("f"), vec![Node::new_number_literal(String::from("9"))]);
    let p = Node::new_program(vec![n]);
    let target = transformer(&p).unwrap();
    assert_eq!(codegen(&target), "f(9)");
}

#[test]
fn builder_used_through_the_traverser() {
    let tokens = tokenizer("(outer (inner 5) 6)").unwrap();
    let ast = parser(&tokens).unwrap();
    let mut builder = TargetBuilder::new();
    traverser(&ast, &mut builder);
    assert!(!builder.has_failed());
    assert_eq!(codegen(&builder.into_program()), "outer(inner(5), 6)");
}
