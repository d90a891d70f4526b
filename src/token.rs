use vstd::prelude::*;

use crate::ast::lisp_ast::{Token, TokenView};
use crate::error::CompileError;

verus! {

/// A decimal digit.
pub open spec fn is_digit(c: char) -> bool {
    '0' <= c <= '9'
}

/// An ASCII letter.
pub open spec fn is_letter(c: char) -> bool {
    ('a' <= c <= 'z') || ('A' <= c <= 'Z')
}

/// Digits when `letters` is false, letters when it is true.
pub open spec fn in_class(c: char, letters: bool) -> bool {
    if letters {
        is_letter(c)
    } else {
        is_digit(c)
    }
}

/// Length of the longest prefix of `s` whose characters are all in the class.
pub open spec fn run_len(s: Seq<char>, letters: bool) -> nat
    decreases s.len(),
{
    if s.len() > 0 && in_class(s[0], letters) {
        1 + run_len(s.drop_first(), letters)
    } else {
        0
    }
}

/// A run lies within its text, holds characters of its class only, and stops
/// before one of another class.
pub proof fn lemma_run_len(s: Seq<char>, letters: bool)
    ensures
        run_len(s, letters) <= s.len(),
        forall|j: int| 0 <= j < run_len(s, letters) ==> in_class(#[trigger] s[j], letters),
        run_len(s, letters) < s.len() ==> !in_class(s[run_len(s, letters) as int], letters),
    decreases s.len(),
{
    if s.len() > 0 && in_class(s[0], letters) {
        lemma_run_len(s.drop_first(), letters);
        assert forall|j: int| 0 <= j < run_len(s, letters) implies in_class(
            #[trigger] s[j],
            letters,
        ) by {
            if j > 0 {
                assert(s[j] == s.drop_first()[j - 1]);
            }
        }
    }
}

/// A run is the longest prefix of its class: this pins its length down.
pub proof fn lemma_run_len_unique(s: Seq<char>, letters: bool, n: int)
    requires
        0 <= n <= s.len(),
        forall|j: int| 0 <= j < n ==> in_class(#[trigger] s[j], letters),
        n < s.len() ==> !in_class(s[n], letters),
    ensures
        run_len(s, letters) == n,
    decreases s.len(),
{
    if n > 0 {
        assert(in_class(s[0], letters));
        assert forall|j: int| 0 <= j < n - 1 implies in_class(
            #[trigger] s.drop_first()[j],
            letters,
        ) by {
            assert(s.drop_first()[j] == s[j + 1]);
        }
        lemma_run_len_unique(s.drop_first(), letters, n - 1);
    }
}

/// Puts `t` in front of the tokens of a successful scan.
pub open spec fn cons_token(t: TokenView, r: Result<Seq<TokenView>, CompileError>) -> Result<
    Seq<TokenView>,
    CompileError,
> {
    match r {
        Ok(ts) => Ok(seq![t] + ts),
        Err(e) => Err(e),
    }
}

/// Puts `ts` in front of the tokens of a successful scan.
pub open spec fn prepend_tokens(ts: Seq<TokenView>, r: Result<Seq<TokenView>, CompileError>) -> Result<
    Seq<TokenView>,
    CompileError,
> {
    match r {
        Ok(rest) => Ok(ts + rest),
        Err(e) => Err(e),
    }
}

/// The token sequence of a text, or the first character that no token can hold.
pub open spec fn lex(s: Seq<char>) -> Result<Seq<TokenView>, CompileError>
    decreases s.len(),
{
    if s.len() == 0 {
        Ok(Seq::empty())
    } else {
        let c = s[0];
        if c == '(' {
            cons_token(TokenView::Open, lex(s.drop_first()))
        } else if c == ')' {
            cons_token(TokenView::Close, lex(s.drop_first()))
        } else if c == ' ' {
            lex(s.drop_first())
        } else if is_digit(c) || is_letter(c) {
            let letters = is_letter(c);
            let n = run_len(s, letters);
            proof {
                lemma_run_len(s, letters);
            }
            let text = s.take(n as int);
            let t = if letters {
                TokenView::Name(text)
            } else {
                TokenView::Number(text)
            };
            cons_token(t, lex(s.skip(n as int)))
        } else {
            Err(CompileError::InvalidCharacter(c))
        }
    }
}

/// Position `k` of `s` lies between tokens: not inside a run of digits nor
/// inside a run of letters.
pub open spec fn at_token_boundary(s: Seq<char>, k: int) -> bool {
    &&& 0 <= k <= s.len()
    &&& 0 < k < s.len() ==> !(is_digit(s[k - 1]) && is_digit(s[k]))
    &&& 0 < k < s.len() ==> !(is_letter(s[k - 1]) && is_letter(s[k]))
}

/// A space inserted between tokens leaves the token sequence, and the first
/// invalid character, as they were.
pub proof fn lemma_lex_space_between_tokens(s: Seq<char>, k: int)
    requires
        at_token_boundary(s, k),
    ensures
        lex(s.insert(k, ' ')) == lex(s),
    decreases s.len(),
{
    let s2 = s.insert(k, ' ');
    assert(s2.len() == s.len() + 1);
    if k == 0 {
        assert(s2.drop_first() =~= s);
    } else {
        let c = s[0];
        assert(s2[0] == c);
        if c == '(' || c == ')' || c == ' ' {
            assert(s2.drop_first() =~= s.drop_first().insert(k - 1, ' '));
            lemma_lex_space_between_tokens(s.drop_first(), k - 1);
        } else if is_digit(c) || is_letter(c) {
            let letters = is_letter(c);
            let n = run_len(s, letters) as int;
            lemma_run_len(s, letters);
            if k < n {
                assert(in_class(s[k - 1], letters) && in_class(s[k], letters));
            }
            assert(n <= k);
            assert forall|j: int| 0 <= j < n implies in_class(#[trigger] s2[j], letters) by {
                assert(s2[j] == s[j]);
                assert(in_class(s[j], letters));
            }
            if n < k {
                assert(s2[n] == s[n]);
            }
            lemma_run_len_unique(s2, letters, n);
            assert(s2.take(n) =~= s.take(n));
            let rest = s.skip(n);
            assert(s2.skip(n) =~= rest.insert(k - n, ' '));
            if 0 < k - n < rest.len() {
                assert(rest[k - n - 1] == s[k - 1]);
                assert(rest[k - n] == s[k]);
            }
            lemma_lex_space_between_tokens(rest, k - n);
        }
    }
}

/// The tokens of two texts scanned one after the other, or the first error.
pub open spec fn join_tokens(
    a: Result<Seq<TokenView>, CompileError>,
    b: Result<Seq<TokenView>, CompileError>,
) -> Result<Seq<TokenView>, CompileError> {
    match a {
        Err(e) => Err(e),
        Ok(x) => prepend_tokens(x, b),
    }
}

/// Where `a` ends and `b` begins no run of digits or of letters goes on.
pub open spec fn splits_between_tokens(a: Seq<char>, b: Seq<char>) -> bool {
    a.len() > 0 && b.len() > 0 ==> !(is_digit(a.last()) && is_digit(b[0])) && !(is_letter(a.last())
        && is_letter(b[0]))
}

/// Two texts that meet between tokens scan as the first, then the second.
pub proof fn lemma_lex_concat(a: Seq<char>, b: Seq<char>)
    requires
        splits_between_tokens(a, b),
    ensures
        lex(a + b) == join_tokens(lex(a), lex(b)),
    decreases a.len(),
{
    let ab = a + b;
    if a.len() == 0 {
        assert(ab =~= b);
        if let Ok(y) = lex(b) {
            assert(Seq::<TokenView>::empty() + y =~= y);
        }
    } else {
        let c = a[0];
        assert(ab[0] == c);
        if c == '(' || c == ')' || c == ' ' {
            assert(ab.drop_first() =~= a.drop_first() + b);
            if a.drop_first().len() > 0 {
                assert(a.drop_first().last() == a.last());
            }
            lemma_lex_concat(a.drop_first(), b);
            if let Ok(x) = lex(a.drop_first()) {
                if let Ok(y) = lex(b) {
                    let t = if c == '(' { TokenView::Open } else { TokenView::Close };
                    assert(seq![t] + (x + y) =~= (seq![t] + x) + y);
                }
            }
        } else if is_digit(c) || is_letter(c) {
            let letters = is_letter(c);
            let m = run_len(a, letters) as int;
            lemma_run_len(a, letters);
            assert forall|j: int| 0 <= j < m implies in_class(#[trigger] ab[j], letters) by {
                assert(ab[j] == a[j]);
                assert(in_class(a[j], letters));
            }
            if m < a.len() {
                assert(ab[m] == a[m]);
            } else if b.len() > 0 {
                assert(ab[m] == b[0]);
                assert(in_class(a[m - 1], letters));
            }
            lemma_run_len_unique(ab, letters, m);
            assert(ab.take(m) =~= a.take(m));
            let rest = a.skip(m);
            assert(ab.skip(m) =~= rest + b);
            if rest.len() > 0 {
                assert(rest.last() == a.last());
            }
            lemma_lex_concat(rest, b);
            if let Ok(x) = lex(rest) {
                if let Ok(y) = lex(b) {
                    let text = a.take(m);
                    let t = if letters { TokenView::Name(text) } else { TokenView::Number(text) };
                    assert(seq![t] + (x + y) =~= (seq![t] + x) + y);
                }
            }
        }
    }
}

/// A run of one class, alone, scans as its one token.
pub proof fn lemma_lex_run(s: Seq<char>, letters: bool)
    requires
        s.len() > 0,
        forall|j: int| 0 <= j < s.len() ==> in_class(#[trigger] s[j], letters),
    ensures
        lex(s) == Ok::<Seq<TokenView>, CompileError>(
            seq![if letters { TokenView::Name(s) } else { TokenView::Number(s) }],
        ),
{
    assert(in_class(s[0], letters));
    lemma_run_len_unique(s, letters, s.len() as int);
    assert(s.take(s.len() as int) =~= s);
    assert(s.skip(s.len() as int) =~= Seq::<char>::empty());
    assert(lex(Seq::<char>::empty()) == Ok::<Seq<TokenView>, CompileError>(Seq::empty()));
    assert(is_letter(s[0]) == letters);
    let t = if letters { TokenView::Name(s) } else { TokenView::Number(s) };
    assert(seq![t] + Seq::<TokenView>::empty() =~= seq![t]);
}

/// The views of a token sequence, element by element.
pub open spec fn token_views(ts: Seq<Token>) -> Seq<TokenView> {
    Seq::new(ts.len(), |i: int| ts[i]@)
}


/// Putting a token in front, then more tokens, is putting both in front.
proof fn lemma_prepend_cons(ts: Seq<TokenView>, t: TokenView, r: Result<Seq<TokenView>, CompileError>)
    ensures
        prepend_tokens(ts, cons_token(t, r)) == prepend_tokens(ts.push(t), r),
{
    if let Ok(rest) = r {
        assert(ts + (seq![t] + rest) =~= ts.push(t) + rest);
    }
}

/// The characters of a text, in order.
fn chars_of(input: &str) -> (r: Vec<char>)
    ensures
        r@ == input@,
{
    let mut v: Vec<char> = Vec::new();
    for c in it: input.chars()
        invariant
            v@ == it.seq().take(it.index() as int),
    {
        v.push(c);
    }
    assert(v@ =~= input@);
    v
}

/// Whether `c` belongs to the class: `in_class` for running code.
fn char_in_class(c: char, letters: bool) -> (r: bool)
    ensures
        r == in_class(c, letters),
{
    if letters {
        ('a' <= c && c <= 'z') || ('A' <= c && c <= 'Z')
    } else {
        '0' <= c && c <= '9'
    }
}

/// Splits a text into tokens in one left-to-right scan.
pub fn tokenizer(input: &str) -> (r: Result<Vec<Token>, CompileError>)
    ensures
        match r {
            Ok(tokens) => lex(input@) == Ok::<Seq<TokenView>, CompileError>(token_views(tokens@)),
            Err(e) => lex(input@) == Err::<Seq<TokenView>, CompileError>(e),
        },
{
    let chars = chars_of(input);
    let ghost s = input@;
    let mut tokens: Vec<Token> = Vec::new();
    let mut current: usize = 0;
    assert(s.skip(0) =~= s);
    while current < chars.len()
        invariant
            chars@ == s,
            s == input@,
            current <= s.len(),
            lex(s) == prepend_tokens(token_views(tokens@), lex(s.skip(current as int))),
        decreases s.len() - current,
    {
        let ghost rest = s.skip(current as int);
        let ghost before = token_views(tokens@);
        assert(rest.drop_first() =~= s.skip(current + 1));
        let c = chars[current];
        if c == '(' || c == ')' {
            let t = if c == '(' {
                Token::ParenOpen
            } else {
                Token::ParenClose
            };
            proof {
                lemma_prepend_cons(before, t@, lex(rest.drop_first()));
            }
            tokens.push(t);
            assert(token_views(tokens@) =~= before.push(t@));
            current = current + 1;
        } else if c == ' ' {
            current = current + 1;
        } else if ('0' <= c && c <= '9') || ('a' <= c && c <= 'z') || ('A' <= c && c <= 'Z') {
            let letters = ('a' <= c && c <= 'z') || ('A' <= c && c <= 'Z');
            let mut end: usize = current + 1;
            while end < chars.len() && char_in_class(chars[end], letters)
                invariant
                    chars@ == s,
                    current < end <= s.len(),
                    forall|k: int| current <= k < end ==> in_class(#[trigger] s[k], letters),
                decreases s.len() - end,
            {
                end = end + 1;
            }
            proof {
                assert forall|k: int| 0 <= k < end - current implies in_class(
                    #[trigger] rest[k],
                    letters,
                ) by {
                    assert(rest[k] == s[current + k]);
                }
                if end < s.len() {
                    assert(rest[end - current] == s[end as int]);
                }
                lemma_run_len_unique(rest, letters, end - current);
                assert(rest.take(end - current) =~= s.subrange(current as int, end as int));
                assert(rest.skip(end - current) =~= s.skip(end as int));
            }
            let text = input.substring_char(current, end).to_owned();
            let t = if letters {
                Token::Name(text)
            } else {
                Token::Number(text)
            };
            proof {
                lemma_prepend_cons(before, t@, lex(s.skip(end as int)));
            }
            tokens.push(t);
            assert(token_views(tokens@) =~= before.push(t@));
            current = end;
        } else {
            return Err(CompileError::InvalidCharacter(c));
        }
    }
    assert(s.skip(current as int) =~= Seq::<char>::empty());
    assert(token_views(tokens@) + Seq::<TokenView>::empty() =~= token_views(tokens@));
    Ok(tokens)
}

} // verus!
