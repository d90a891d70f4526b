use vstd::prelude::*;

use crate::ast::lisp_ast::{is_expression, trees_of, Node, SourceTree, Token, TokenView};
use crate::error::CompileError;
use crate::token::{
    is_digit, is_letter, lemma_lex_concat, lemma_lex_run, lex, token_views,
};

verus! {

/// Parses one expression that starts at token `p`: the expression and the
/// position just after it.
pub open spec fn parse_expr(t: Seq<TokenView>, p: int) -> Result<(SourceTree, int), CompileError>
    decreases t.len() - p, 0int,
{
    if p < 0 || p >= t.len() {
        Err(CompileError::UnbalancedParens)
    } else {
        match t[p] {
            TokenView::Open => {
                if p + 1 >= t.len() {
                    Err(CompileError::UnbalancedParens)
                } else {
                    match t[p + 1] {
                        TokenView::Name(name) => match parse_params(t, p + 2) {
                            Ok((params, q)) => Ok((SourceTree::Call(name, params), q)),
                            Err(e) => Err(e),
                        },
                        _ => Err(CompileError::UnexpectedToken((p + 1) as usize)),
                    }
                }
            },
            TokenView::Number(value) => Ok((SourceTree::Number(value), p + 1)),
            _ => Err(CompileError::UnexpectedToken(p as usize)),
        }
    }
}

/// Parses the parameters of a call from token `p` up to and including the
/// closing parenthesis: the parameters and the position after that parenthesis.
pub open spec fn parse_params(t: Seq<TokenView>, p: int) -> Result<
    (Seq<SourceTree>, int),
    CompileError,
>
    decreases t.len() - p, 1int,
{
    if p < 0 || p >= t.len() {
        Err(CompileError::UnbalancedParens)
    } else if t[p] is Close {
        Ok((Seq::empty(), p + 1))
    } else {
        match parse_expr(t, p) {
            Ok((first, q)) => {
                // `parse_expr` always advances (`lemma_parse_advances`), so the
                // second branch is never taken.
                if p < q <= t.len() {
                    match parse_params(t, q) {
                        Ok((rest, r)) => Ok((seq![first] + rest, r)),
                        Err(e) => Err(e),
                    }
                } else {
                    Err(CompileError::UnbalancedParens)
                }
            },
            Err(e) => Err(e),
        }
    }
}

/// Parses expressions from token `p` to the end of the sequence.
pub open spec fn parse_body(t: Seq<TokenView>, p: int) -> Result<Seq<SourceTree>, CompileError>
    decreases t.len() - p,
{
    if p < 0 || p >= t.len() {
        Ok(Seq::empty())
    } else {
        match parse_expr(t, p) {
            Ok((first, q)) => {
                if p < q <= t.len() {
                    match parse_body(t, q) {
                        Ok(rest) => Ok(seq![first] + rest),
                        Err(e) => Err(e),
                    }
                } else {
                    Err(CompileError::UnbalancedParens)
                }
            },
            Err(e) => Err(e),
        }
    }
}

/// The program that a token sequence spells.
pub open spec fn parse_program(t: Seq<TokenView>) -> Result<SourceTree, CompileError> {
    match parse_body(t, 0) {
        Ok(body) => Ok(SourceTree::Program(body)),
        Err(e) => Err(e),
    }
}

/// A parsed expression lies strictly after its start and within the tokens,
/// and holds calls and numbers only.
pub proof fn lemma_parse_advances(t: Seq<TokenView>, p: int)
    ensures
        parse_expr(t, p) matches Ok((n, q)) ==> p < q <= t.len() && is_expression(n),
    decreases t.len() - p, 0int,
{
    if 0 <= p < t.len() && t[p] is Open && p + 1 < t.len() && t[p + 1] is Name {
        lemma_parse_params_advances(t, p + 2);
    }
}

/// Parsed parameters lie strictly after their start and within the tokens, and
/// are expressions.
pub proof fn lemma_parse_params_advances(t: Seq<TokenView>, p: int)
    ensures
        parse_params(t, p) matches Ok((ns, q)) ==> p < q <= t.len() && forall|i: int|
            0 <= i < ns.len() ==> is_expression(#[trigger] ns[i]),
    decreases t.len() - p, 1int,
{
    if 0 <= p < t.len() && !(t[p] is Close) {
        lemma_parse_advances(t, p);
        if let Ok((first, q)) = parse_expr(t, p) {
            lemma_parse_params_advances(t, q);
            if let Ok((rest, r)) = parse_params(t, q) {
                let ns = seq![first] + rest;
                assert forall|i: int| 0 <= i < ns.len() implies is_expression(#[trigger] ns[i]) by {
                    if i > 0 {
                        assert(ns[i] == rest[i - 1]);
                    }
                }
            }
        }
    }
}

/// Parsing the program's body yields expressions only.
pub proof fn lemma_parse_body_expressions(t: Seq<TokenView>, p: int)
    ensures
        parse_body(t, p) matches Ok(ns) ==> forall|i: int|
            0 <= i < ns.len() ==> is_expression(#[trigger] ns[i]),
    decreases t.len() - p,
{
    if 0 <= p < t.len() {
        lemma_parse_advances(t, p);
        if let Ok((first, q)) = parse_expr(t, p) {
            lemma_parse_body_expressions(t, q);
            if let Ok(rest) = parse_body(t, q) {
                let ns = seq![first] + rest;
                assert forall|i: int| 0 <= i < ns.len() implies is_expression(#[trigger] ns[i]) by {
                    if i > 0 {
                        assert(ns[i] == rest[i - 1]);
                    }
                }
            }
        }
    }
}

/// Puts `ns` in front of the parameters of a successful parse.
pub open spec fn prepend_params(
    ns: Seq<SourceTree>,
    r: Result<(Seq<SourceTree>, int), CompileError>,
) -> Result<(Seq<SourceTree>, int), CompileError> {
    match r {
        Ok((rest, q)) => Ok((ns + rest, q)),
        Err(e) => Err(e),
    }
}

/// Puts `ns` in front of the expressions of a successful parse.
pub open spec fn prepend_body(ns: Seq<SourceTree>, r: Result<Seq<SourceTree>, CompileError>) -> Result<
    Seq<SourceTree>,
    CompileError,
> {
    match r {
        Ok(rest) => Ok(ns + rest),
        Err(e) => Err(e),
    }
}

/// Parses the expression at `*current` and moves `*current` past it.
fn walk(current: &mut usize, tokens: &Vec<Token>) -> (r: Result<Node, CompileError>)
    ensures
        match parse_expr(token_views(tokens@), *old(current) as int) {
            Ok((n, q)) => r matches Ok(node) && node@ == n && *final(current) == q,
            Err(e) => r == Err::<Node, CompileError>(e),
        },
    decreases tokens@.len() - *old(current),
{
    let ghost t = token_views(tokens@);
    let p = *current;
    if p >= tokens.len() {
        return Err(CompileError::UnbalancedParens);
    }
    assert(t[p as int] == tokens@[p as int]@);
    match &tokens[p] {
        Token::ParenOpen => {
            if p + 1 >= tokens.len() {
                return Err(CompileError::UnbalancedParens);
            }
            assert(t[p + 1] == tokens@[p + 1]@);
            match &tokens[p + 1] {
                Token::Name(name) => {
                    let mut params: Vec<Node> = Vec::new();
                    let mut cur: usize = p + 2;
                    loop
                        invariant_except_break
                            p + 2 <= cur <= tokens@.len(),
                            p == *old(current),
                            t == token_views(tokens@),
                            t[p as int] == TokenView::Open,
                            t[p + 1] == TokenView::Name(name@),
                            parse_params(t, p + 2) == prepend_params(
                                trees_of(params@),
                                parse_params(t, cur as int),
                            ),
                        ensures
                            p + 2 <= cur < tokens@.len(),
                            p == *old(current),
                            t[p as int] == TokenView::Open,
                            t[p + 1] == TokenView::Name(name@),
                            parse_params(t, p + 2) == Ok::<(Seq<SourceTree>, int), CompileError>(
                                (trees_of(params@), cur + 1),
                            ),
                        decreases tokens@.len() - cur,
                    {
                        if cur >= tokens.len() {
                            return Err(CompileError::UnbalancedParens);
                        }
                        if let Token::ParenClose = &tokens[cur] {
                            assert(trees_of(params@) + Seq::<SourceTree>::empty() =~= trees_of(
                                params@,
                            ));
                            break;
                        }
                        let ghost at = cur as int;
                        let ghost before = trees_of(params@);
                        proof {
                            lemma_parse_advances(t, at);
                            assert(!(t[at] is Close));
                        }
                        match walk(&mut cur, tokens) {
                            Ok(node) => {
                                proof {
                                    let r = parse_params(t, cur as int);
                                    if let Ok((rest, q)) = r {
                                        assert(before + (seq![node@] + rest) =~= before.push(
                                            node@,
                                        ) + rest);
                                    }
                                }
                                params.push(node);
                                assert(trees_of(params@) =~= before.push(node@));
                            },
                            Err(e) => {
                                return Err(e);
                            },
                        }
                    }
                    *current = cur + 1;
                    Ok(Node::new_call_expression(name.clone(), params))
                },
                _ => Err(CompileError::UnexpectedToken(p + 1)),
            }
        },
        Token::Number(value) => {
            *current = p + 1;
            Ok(Node::new_number_literal(value.clone()))
        },
        _ => Err(CompileError::UnexpectedToken(p)),
    }
}

/// Parses a token sequence into a program, one expression after another
/// until the tokens end.
pub fn parser(tokens: &Vec<Token>) -> (r: Result<Node, CompileError>)
    ensures
        match parse_program(token_views(tokens@)) {
            Ok(tree) => r matches Ok(node) && node@ == tree,
            Err(e) => r == Err::<Node, CompileError>(e),
        },
{
    let ghost t = token_views(tokens@);
    let mut current: usize = 0;
    let mut body: Vec<Node> = Vec::new();
    assert(trees_of(body@) + parse_body(t, 0)->Ok_0 =~= parse_body(t, 0)->Ok_0);
    while current < tokens.len()
        invariant
            current <= tokens@.len(),
            t == token_views(tokens@),
            parse_body(t, 0) == prepend_body(trees_of(body@), parse_body(t, current as int)),
        decreases tokens@.len() - current,
    {
        let ghost at = current as int;
        let ghost before = trees_of(body@);
        proof {
            lemma_parse_advances(t, at);
        }
        match walk(&mut current, tokens) {
            Ok(node) => {
                proof {
                    if let Ok(rest) = parse_body(t, current as int) {
                        assert(before + (seq![node@] + rest) =~= before.push(node@) + rest);
                    }
                }
                body.push(node);
                assert(trees_of(body@) =~= before.push(node@));
            },
            Err(e) => {
                return Err(e);
            },
        }
    }
    assert(trees_of(body@) + Seq::<SourceTree>::empty() =~= trees_of(body@));
    Ok(Node::new_program(body))
}


/// The tokens that spell an expression: a call as `(`, its name, its
/// parameters' tokens and `)`; a number as its one token.
pub open spec fn expr_tokens(n: SourceTree) -> Seq<TokenView>
    decreases n,
{
    match n {
        SourceTree::Call(name, params) => seq![TokenView::Open, TokenView::Name(name)]
            + exprs_tokens(params) + seq![TokenView::Close],
        SourceTree::Number(value) => seq![TokenView::Number(value)],
        SourceTree::Program(body) => exprs_tokens(body),
    }
}

/// The tokens of `ns`, one expression after another.
pub open spec fn exprs_tokens(ns: Seq<SourceTree>) -> Seq<TokenView>
    decreases ns,
{
    if ns.len() == 0 {
        Seq::empty()
    } else {
        expr_tokens(ns[0]) + exprs_tokens(ns.drop_first())
    }
}

/// An expression's tokens begin with `(` or a number, never with `)`.
proof fn lemma_expr_tokens_start(n: SourceTree)
    requires
        is_expression(n),
    ensures
        expr_tokens(n).len() > 0,
        expr_tokens(n)[0] is Open || expr_tokens(n)[0] is Number,
{
}

/// Where the tokens of `n` stand at `p`, `n` is parsed there.
proof fn lemma_parse_expr_tokens(t: Seq<TokenView>, p: int, n: SourceTree)
    requires
        is_expression(n),
        0 <= p,
        p + expr_tokens(n).len() <= t.len(),
        t.subrange(p, p + expr_tokens(n).len()) == expr_tokens(n),
    ensures
        parse_expr(t, p) == Ok::<(SourceTree, int), CompileError>((n, p + expr_tokens(n).len())),
    decreases n,
{
    let toks = expr_tokens(n);
    let e = p + toks.len();
    assert(t[p] == toks[0]);
    if let SourceTree::Call(name, params) = n {
        let inner = exprs_tokens(params);
        assert(t[p + 1] == toks[1]);
        let tail = inner + seq![TokenView::Close];
        assert(toks == seq![TokenView::Open, TokenView::Name(name)] + tail);
        assert forall|j: int| 0 <= j < tail.len() implies #[trigger] t.subrange(p + 2, e)[j]
            == tail[j] by {
            assert(t.subrange(p, e)[j + 2] == toks[j + 2]);
        }
        assert(t.subrange(p + 2, e) =~= tail);
        assert forall|i: int| 0 <= i < params.len() implies is_expression(#[trigger] params[i]) by {}
        lemma_parse_params_tokens(t, p + 2, params);
    }
}

/// Where the tokens of `ns` and a `)` stand at `p`, `ns` are parsed there as
/// parameters.
proof fn lemma_parse_params_tokens(t: Seq<TokenView>, p: int, ns: Seq<SourceTree>)
    requires
        forall|i: int| 0 <= i < ns.len() ==> is_expression(#[trigger] ns[i]),
        0 <= p,
        p + exprs_tokens(ns).len() + 1 <= t.len(),
        t.subrange(p, p + exprs_tokens(ns).len() + 1) == exprs_tokens(ns) + seq![TokenView::Close],
    ensures
        parse_params(t, p) == Ok::<(Seq<SourceTree>, int), CompileError>(
            (ns, p + exprs_tokens(ns).len() + 1),
        ),
    decreases ns,
{
    let toks = exprs_tokens(ns) + seq![TokenView::Close];
    let e = p + toks.len();
    assert(t[p] == toks[0]);
    if ns.len() == 0 {
        assert(ns =~= Seq::<SourceTree>::empty());
    } else {
        let first = ns[0];
        let rest = ns.drop_first();
        let ft = expr_tokens(first);
        lemma_expr_tokens_start(first);
        assert(toks[0] == ft[0]);
        assert(t.subrange(p, p + ft.len()) =~= ft);
        lemma_parse_expr_tokens(t, p, first);
        let q = p + ft.len();
        let tail = exprs_tokens(rest) + seq![TokenView::Close];
        assert(toks =~= ft + tail);
        assert forall|j: int| 0 <= j < tail.len() implies #[trigger] t.subrange(q, e)[j]
            == tail[j] by {
            assert(t.subrange(p, e)[j + ft.len()] == toks[j + ft.len()]);
        }
        assert(t.subrange(q, e) =~= tail);
        assert forall|i: int| 0 <= i < rest.len() implies is_expression(#[trigger] rest[i]) by {
            assert(rest[i] == ns[i + 1]);
        }
        lemma_parse_params_tokens(t, q, rest);
        assert(seq![first] + rest =~= ns);
    }
}

/// Where the tokens of `ns` fill the sequence from `p` on, `ns` are parsed there.
proof fn lemma_parse_body_tokens(t: Seq<TokenView>, p: int, ns: Seq<SourceTree>)
    requires
        forall|i: int| 0 <= i < ns.len() ==> is_expression(#[trigger] ns[i]),
        0 <= p,
        p + exprs_tokens(ns).len() == t.len(),
        t.subrange(p, t.len() as int) == exprs_tokens(ns),
    ensures
        parse_body(t, p) == Ok::<Seq<SourceTree>, CompileError>(ns),
    decreases ns,
{
    if ns.len() == 0 {
        assert(ns =~= Seq::<SourceTree>::empty());
    } else {
        let first = ns[0];
        let rest = ns.drop_first();
        let ft = expr_tokens(first);
        lemma_expr_tokens_start(first);
        assert(t.subrange(p, p + ft.len()) =~= ft);
        lemma_parse_expr_tokens(t, p, first);
        let q = p + ft.len();
        let toks = exprs_tokens(ns);
        let tail = exprs_tokens(rest);
        assert(toks == ft + tail);
        assert forall|j: int| 0 <= j < tail.len() implies #[trigger] t.subrange(
            q,
            t.len() as int,
        )[j] == tail[j] by {
            assert(t.subrange(p, t.len() as int)[j + ft.len()] == toks[j + ft.len()]);
        }
        assert(t.subrange(q, t.len() as int) =~= tail);
        assert forall|i: int| 0 <= i < rest.len() implies is_expression(#[trigger] rest[i]) by {
            assert(rest[i] == ns[i + 1]);
        }
        lemma_parse_body_tokens(t, q, rest);
        assert(seq![first] + rest =~= ns);
    }
}

/// Parsing undoes spelling: the tokens of any expressions, nested to any
/// depth, parse back to the same expressions in the same order.
pub proof fn lemma_parse_tokens_round_trip(body: Seq<SourceTree>)
    requires
        forall|i: int| 0 <= i < body.len() ==> is_expression(#[trigger] body[i]),
    ensures
        parse_program(exprs_tokens(body)) == Ok::<SourceTree, CompileError>(
            SourceTree::Program(body),
        ),
{
    let t = exprs_tokens(body);
    assert(t.subrange(0, t.len() as int) =~= t);
    lemma_parse_body_tokens(t, 0, body);
}


/// One or more letters: text that scans as a single name.
pub open spec fn is_name_text(s: Seq<char>) -> bool {
    s.len() > 0 && forall|i: int| 0 <= i < s.len() ==> is_letter(#[trigger] s[i])
}

/// One or more digits: text that scans as a single number.
pub open spec fn is_number_text(s: Seq<char>) -> bool {
    s.len() > 0 && forall|i: int| 0 <= i < s.len() ==> is_digit(#[trigger] s[i])
}

/// An expression that can be written as source text: its names are letters,
/// its numbers digits.
pub open spec fn is_writable(n: SourceTree) -> bool
    decreases n,
{
    match n {
        SourceTree::Call(name, params) => is_name_text(name) && forall|i: int|
            0 <= i < params.len() ==> is_writable(#[trigger] params[i]),
        SourceTree::Number(value) => is_number_text(value),
        SourceTree::Program(_) => false,
    }
}

/// The source text of an expression: `(name arg arg)`, a number as its digits.
pub open spec fn expr_text(n: SourceTree) -> Seq<char>
    decreases n,
{
    match n {
        SourceTree::Call(name, params) => seq!['('] + name + spaced_text(params) + seq![')'],
        SourceTree::Number(value) => value,
        SourceTree::Program(body) => spaced_text(body),
    }
}

/// The source texts of `ns`, each after one space.
pub open spec fn spaced_text(ns: Seq<SourceTree>) -> Seq<char>
    decreases ns,
{
    if ns.len() == 0 {
        Seq::empty()
    } else {
        seq![' '] + expr_text(ns[0]) + spaced_text(ns.drop_first())
    }
}

/// The text of a writable expression scans as its tokens, and ends with `)`
/// or a digit.
pub proof fn lemma_expr_text(n: SourceTree)
    requires
        is_writable(n),
    ensures
        is_expression(n),
        expr_text(n).len() > 0,
        expr_text(n).last() == ')' || is_digit(expr_text(n).last()),
        lex(expr_text(n)) == Ok::<Seq<TokenView>, CompileError>(expr_tokens(n)),
    decreases n,
{
    match n {
        SourceTree::Call(name, params) => {
            let spaced = spaced_text(params);
            let close = seq![')'];
            assert forall|i: int| 0 <= i < params.len() implies is_writable(#[trigger] params[i]) by {}
            lemma_spaced_text(params);
            assert(close.drop_first() =~= Seq::<char>::empty());
            assert(lex(Seq::<char>::empty()) == Ok::<Seq<TokenView>, CompileError>(Seq::empty()));
            assert(seq![TokenView::Close] + Seq::<TokenView>::empty() =~= seq![TokenView::Close]);
            lemma_lex_concat(spaced, close);
            let tail = spaced + close;
            lemma_lex_run(name, true);
            lemma_lex_concat(name, tail);
            let text = seq!['('] + (name + tail);
            assert(text.drop_first() =~= name + tail);
            assert(text =~= expr_text(n));
            assert(seq![TokenView::Open] + (seq![TokenView::Name(name)] + (exprs_tokens(params)
                + seq![TokenView::Close])) =~= expr_tokens(n));
        },
        SourceTree::Number(value) => {
            lemma_lex_run(value, false);
        },
        SourceTree::Program(_) => {},
    }
}

/// The spaced text of writable expressions scans as their tokens.
pub proof fn lemma_spaced_text(ns: Seq<SourceTree>)
    requires
        forall|i: int| 0 <= i < ns.len() ==> is_writable(#[trigger] ns[i]),
    ensures
        forall|i: int| 0 <= i < ns.len() ==> is_expression(#[trigger] ns[i]),
        ns.len() == 0 <==> spaced_text(ns).len() == 0,
        ns.len() > 0 ==> spaced_text(ns)[0] == ' ',
        ns.len() > 0 ==> spaced_text(ns).last() == ')' || is_digit(spaced_text(ns).last()),
        lex(spaced_text(ns)) == Ok::<Seq<TokenView>, CompileError>(exprs_tokens(ns)),
    decreases ns,
{
    if ns.len() > 0 {
        let first = ns[0];
        let rest = ns.drop_first();
        lemma_expr_text(first);
        assert forall|i: int| 0 <= i < rest.len() implies is_writable(#[trigger] rest[i]) by {
            assert(rest[i] == ns[i + 1]);
        }
        lemma_spaced_text(rest);
        assert forall|i: int| 0 <= i < ns.len() implies is_expression(#[trigger] ns[i]) by {
            if i > 0 {
                assert(ns[i] == rest[i - 1]);
            }
        }
        let body = expr_text(first) + spaced_text(rest);
        lemma_lex_concat(expr_text(first), spaced_text(rest));
        let text = seq![' '] + body;
        assert(text.drop_first() =~= body);
        assert(text =~= spaced_text(ns));
        if rest.len() == 0 {
            assert(body =~= expr_text(first));
        } else {
            assert(body.last() == spaced_text(rest).last());
        }
    } else {
        assert(exprs_tokens(ns) =~= Seq::<TokenView>::empty());
    }
}

} // verus!
