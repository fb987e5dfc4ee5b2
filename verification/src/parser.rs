//! Pattern lexing and infix-to-postfix rewriting.

use vstd::prelude::*;
use vstd::string::StrSliceExecFns;

use crate::error::CompileError;
use crate::matcher::chars_of;

verus! {

/// The mathematical value of a [`Token`].
#[verifier::ext_equal]
pub enum TokenV {
    Plus,
    Star,
    Question,
    Literal(char),
    EndRef,
    StartRef,
    ComplexLiteral(Seq<char>),
    LBracket,
    RBracket,
    Concat,
    Or,
}

/// One lexed pattern token.  `ComplexLiteral` carries the verbatim text of a
/// class specifier (`.`, `\d`, `\w`, `\s`, or a whole `[...]`); `Concat` is
/// the synthetic concatenation operator; `LBracket`/`RBracket` are the
/// grouping parentheses.
#[derive(Debug)]
pub enum Token {
    Plus,
    Star,
    Question,
    Literal(char),
    EndRef,
    StartRef,
    ComplexLiteral(String),
    LBracket,
    RBracket,
    Concat,
    Or,
}

impl View for Token {
    type V = TokenV;

    open spec fn view(&self) -> TokenV {
        match self {
            Token::Plus => TokenV::Plus,
            Token::Star => TokenV::Star,
            Token::Question => TokenV::Question,
            Token::Literal(c) => TokenV::Literal(*c),
            Token::EndRef => TokenV::EndRef,
            Token::StartRef => TokenV::StartRef,
            Token::ComplexLiteral(s) => TokenV::ComplexLiteral(s@),
            Token::LBracket => TokenV::LBracket,
            Token::RBracket => TokenV::RBracket,
            Token::Concat => TokenV::Concat,
            Token::Or => TokenV::Or,
        }
    }
}

/// A token sequence, viewed mathematically.
pub open spec fn tok_views(ts: Seq<Token>) -> Seq<TokenV> {
    ts.map_values(|t: Token| t@)
}

/// The index of the first occurrence of `c` in `s` at or after `i`, or
/// `s.len()` if there is none.
pub open spec fn first_idx_of(s: Seq<char>, i: int, c: char) -> int
    decreases s.len() - i,
    when 0 <= i <= s.len()
{
    if i >= s.len() {
        s.len() as int
    } else if s[i] == c {
        i
    } else {
        first_idx_of(s, i + 1, c)
    }
}

proof fn lemma_first_idx(s: Seq<char>, i: int, c: char)
    requires
        0 <= i <= s.len(),
    ensures
        i <= first_idx_of(s, i, c) <= s.len(),
        first_idx_of(s, i, c) < s.len() ==> s[first_idx_of(s, i, c)] == c,
        forall|k: int| i <= k < first_idx_of(s, i, c) ==> s[k] != c,
    decreases s.len() - i,
{
    if i < s.len() && s[i] != c {
        lemma_first_idx(s, i + 1, c);
    }
}

/// Lexes the pattern from position `i` on.  One pass, left to right: `[`
/// opens a class that copies every character verbatim up to the matching
/// `]`; `\` escapes the next character (`d`/`w`/`s` become class
/// specifiers, anything else a literal); `.` becomes the dot class; the
/// operator characters become their tokens; everything else is a literal.
pub open spec fn lex_from(s: Seq<char>, i: int) -> Result<Seq<TokenV>, CompileError>
    decreases s.len() - i,
    when 0 <= i <= s.len()
    via lex_from_dec
{
    if i >= s.len() {
        Ok(Seq::empty())
    } else {
        let c = s[i];
        if c == '[' {
            let j = first_idx_of(s, i + 1, ']');
            if j >= s.len() {
                Err(CompileError::UnterminatedClass)
            } else {
                match lex_from(s, j + 1) {
                    Ok(rest) => Ok(seq![TokenV::ComplexLiteral(s.subrange(i, j + 1))] + rest),
                    Err(e) => Err(e),
                }
            }
        } else if c == ']' {
            Err(CompileError::UnmatchedBracket)
        } else if c == '\\' {
            if i + 1 >= s.len() {
                Err(CompileError::TrailingEscape)
            } else {
                let c2 = s[i + 1];
                let t = if c2 == 'd' || c2 == 'w' || c2 == 's' {
                    TokenV::ComplexLiteral(s.subrange(i, i + 2))
                } else {
                    TokenV::Literal(c2)
                };
                match lex_from(s, i + 2) {
                    Ok(rest) => Ok(seq![t] + rest),
                    Err(e) => Err(e),
                }
            }
        } else {
            let t = if c == '+' {
                TokenV::Plus
            } else if c == '*' {
                TokenV::Star
            } else if c == '?' {
                TokenV::Question
            } else if c == '$' {
                TokenV::EndRef
            } else if c == '^' {
                TokenV::StartRef
            } else if c == '|' {
                TokenV::Or
            } else if c == '(' {
                TokenV::LBracket
            } else if c == ')' {
                TokenV::RBracket
            } else if c == '.' {
                TokenV::ComplexLiteral(s.subrange(i, i + 1))
            } else {
                TokenV::Literal(c)
            };
            match lex_from(s, i + 1) {
                Ok(rest) => Ok(seq![t] + rest),
                Err(e) => Err(e),
            }
        }
    }
}

#[via_fn]
proof fn lex_from_dec(s: Seq<char>, i: int) {
    if 0 <= i < s.len() && s[i] == '[' {
        lemma_first_idx(s, i + 1, ']');
    }
}

/// Whether a synthetic `Concat` belongs between adjacent tokens: the first
/// must close an operand (an operand token, `)`, or a quantifier) and the
/// second must open one (an operand token or `(`).
pub open spec fn needs_concat_v(prev: TokenV, next: TokenV) -> bool {
    (match prev {
        TokenV::Literal(_) => true,
        TokenV::ComplexLiteral(_) => true,
        TokenV::RBracket => true,
        TokenV::Star => true,
        TokenV::Plus => true,
        TokenV::Question => true,
        _ => false,
    }) && (match next {
        TokenV::Literal(_) => true,
        TokenV::ComplexLiteral(_) => true,
        TokenV::LBracket => true,
        _ => false,
    })
}

/// Inserts a synthetic `Concat` between each adjacent pair that needs one.
pub open spec fn insert_concats(ts: Seq<TokenV>) -> Seq<TokenV>
    decreases ts.len(),
{
    if ts.len() == 0 {
        Seq::empty()
    } else if ts.len() == 1 {
        ts
    } else {
        let head = if needs_concat_v(ts[0], ts[1]) {
            seq![ts[0], TokenV::Concat]
        } else {
            seq![ts[0]]
        };
        head + insert_concats(ts.drop_first())
    }
}

/// The token stream of a pattern: the lexer's output with implicit
/// concatenation made explicit.
pub open spec fn spec_tokens(s: Seq<char>) -> Result<Seq<TokenV>, CompileError> {
    match lex_from(s, 0) {
        Ok(ts) => Ok(insert_concats(ts)),
        Err(e) => Err(e),
    }
}

/// Whether a synthetic `Concat` belongs between `prev` and `next`.
fn needs_concat(prev: &Token, next: &Token) -> (r: bool)
    ensures
        r == needs_concat_v(prev@, next@),
{
    (matches!(
        prev,
        Token::Literal(_)
            | Token::ComplexLiteral(_)
            | Token::RBracket
            | Token::Star
            | Token::Plus
            | Token::Question
    )) && (matches!(next, Token::Literal(_) | Token::ComplexLiteral(_) | Token::LBracket))
}

/// Pushing a token appends its view to the sequence of views.
proof fn lemma_tok_views_push(pre: Seq<Token>, post: Seq<Token>, tv: TokenV)
    requires
        post.len() == pre.len() + 1,
        forall|m: int| 0 <= m < pre.len() ==> post[m] == pre[m],
        post[pre.len() as int]@ == tv,
    ensures
        tok_views(post) == tok_views(pre).push(tv),
{
    assert forall|m: int| 0 <= m < post.len() implies tok_views(post)[m] == tok_views(pre).push(
        tv,
    )[m] by {
        assert(tok_views(post)[m] == post[m]@);
        if m < pre.len() {
            assert(post[m]@ == tok_views(pre)[m]);
        }
    }
    assert(tok_views(post) =~= tok_views(pre).push(tv));
}

/// Splicing one element between two sequences is appending it to the first.
proof fn lemma_cons_assoc<A>(a: Seq<A>, x: A, c: Seq<A>)
    ensures
        a + (seq![x] + c) == a.push(x) + c,
{
    assert forall|m: int| 0 <= m < a.len() + 1 + c.len() implies (a + (seq![x] + c))[m] == (a.push(
        x,
    ) + c)[m] by {
        if m < a.len() {
        } else if m == a.len() {
            assert((seq![x] + c)[m - a.len()] == x);
        } else {
            assert((seq![x] + c)[m - a.len()] == c[m - a.len() - 1]);
        }
    }
    assert((a + (seq![x] + c)) =~= (a.push(x) + c));
}


/// Lexes the single token starting at position `i`: returns it with the
/// position where the scan resumes, or the lexing error at `i`.
fn lex_step(input: &str, cs: &Vec<char>, i: usize) -> (r: Result<(Token, usize), CompileError>)
    requires
        cs@ == input@,
        i < cs@.len(),
    ensures
        match r {
            Ok(p) => ({
                &&& i < p.1 <= cs@.len()
                &&& lex_from(input@, i as int) == (match lex_from(input@, p.1 as int) {
                    Ok(rest) => Ok::<Seq<TokenV>, CompileError>(seq![p.0@] + rest),
                    Err(e) => Err::<Seq<TokenV>, CompileError>(e),
                })
            }),
            Err(e) => lex_from(input@, i as int) == Err::<Seq<TokenV>, CompileError>(e),
        },
{
    let ghost s = input@;
    let n = cs.len();
    let c = cs[i];
    if c == '[' {
        // scan for the closing bracket
        let mut j = i + 1;
        while j < n && cs[j] != ']'
            invariant
                i + 1 <= j <= n,
                n == s.len(),
                cs@ == s,
                forall|k: int| i + 1 <= k < j ==> s[k] != ']',
            decreases n - j,
        {
            j += 1;
        }
        proof {
            lemma_first_idx(s, i + 1, ']');
            assert(first_idx_of(s, i + 1, ']') == j as int) by {
                if j < n {
                    assert(s[j as int] == ']');
                }
                if first_idx_of(s, i + 1, ']') < j {
                    assert(s[first_idx_of(s, i + 1, ']')] != ']');
                }
                if j < first_idx_of(s, i + 1, ']') {
                    assert(s[j as int] != ']');
                }
            }
        }
        if j >= n {
            return Err(CompileError::UnterminatedClass);
        }
        let tok = Token::ComplexLiteral(input.substring_char(i, j + 1).to_owned());
        proof {
            assert(tok@ == TokenV::ComplexLiteral(s.subrange(i as int, j + 1)));
        }
        Ok((tok, j + 1))
    } else if c == ']' {
        Err(CompileError::UnmatchedBracket)
    } else if c == '\\' {
        if i + 1 >= n {
            return Err(CompileError::TrailingEscape);
        }
        let c2 = cs[i + 1];
        if c2 == 'd' || c2 == 'w' || c2 == 's' {
            let tok = Token::ComplexLiteral(input.substring_char(i, i + 2).to_owned());
            proof {
                assert(tok@ == TokenV::ComplexLiteral(s.subrange(i as int, i + 2)));
            }
            Ok((tok, i + 2))
        } else {
            Ok((Token::Literal(c2), i + 2))
        }
    } else if c == '+' {
        Ok((Token::Plus, i + 1))
    } else if c == '*' {
        Ok((Token::Star, i + 1))
    } else if c == '?' {
        Ok((Token::Question, i + 1))
    } else if c == '$' {
        Ok((Token::EndRef, i + 1))
    } else if c == '^' {
        Ok((Token::StartRef, i + 1))
    } else if c == '|' {
        Ok((Token::Or, i + 1))
    } else if c == '(' {
        Ok((Token::LBracket, i + 1))
    } else if c == ')' {
        Ok((Token::RBracket, i + 1))
    } else if c == '.' {
        let tok = Token::ComplexLiteral(input.substring_char(i, i + 1).to_owned());
        proof {
            assert(tok@ == TokenV::ComplexLiteral(s.subrange(i as int, i + 1)));
        }
        Ok((tok, i + 1))
    } else {
        Ok((Token::Literal(c), i + 1))
    }
}

/// Lexes `input` and inserts the implicit concatenation tokens.
pub fn parse(input: &str) -> (r: Result<Vec<Token>, CompileError>)
    ensures
        match r {
            Ok(v) => spec_tokens(input@) == Ok::<Seq<TokenV>, CompileError>(tok_views(v@)),
            Err(e) => spec_tokens(input@) == Err::<Seq<TokenV>, CompileError>(e),
        },
{
    let ghost s = input@;
    let cs = chars_of(input);
    let n = cs.len();
    let mut raw: Vec<Token> = Vec::new();
    let mut i: usize = 0;
    proof {
        assert(tok_views(raw@) =~= Seq::<TokenV>::empty());
    }
    while i < n
        invariant
            i <= n,
            n == s.len(),
            cs@ == s,
            s == input@,
            lex_from(s, 0) == (match lex_from(s, i as int) {
                Ok(rest) => Ok::<Seq<TokenV>, CompileError>(tok_views(raw@) + rest),
                Err(e) => Err::<Seq<TokenV>, CompileError>(e),
            }),
        decreases n - i,
    {
        let ghost done = tok_views(raw@);
        let ghost pre = raw@;
        match lex_step(input, &cs, i) {
            Err(e) => {
                return Err(e);
            },
            Ok((tok, step)) => {
                let ghost tv = tok@;
                raw.push(tok);
                proof {
                    lemma_tok_views_push(pre, raw@, tv);
                    let after = lex_from(s, step as int);
                    if after is Ok {
                        lemma_cons_assoc(done, tv, after->Ok_0);
                    }
                }
                i = step;
            },
        }
    }
    proof {
        assert(lex_from(s, n as int) == Ok::<Seq<TokenV>, CompileError>(Seq::empty()));
        assert((tok_views(raw@) + Seq::<TokenV>::empty()) =~= tok_views(raw@));
    }
    // insert the implicit concatenation tokens
    let ghost lexed = tok_views(raw@);
    let mut out: Vec<Token> = Vec::new();
    proof {
        assert(tok_views(out@) =~= Seq::<TokenV>::empty());
        assert((Seq::<TokenV>::empty() + insert_concats(lexed)) =~= insert_concats(lexed));
    }
    while raw.len() > 0
        invariant
            insert_concats(lexed) == tok_views(out@) + insert_concats(tok_views(raw@)),
        decreases raw.len(),
    {
        let ghost outpre = out@;
        let ghost remain = tok_views(raw@);
        let ghost rawpre = raw@;
        let t = raw.remove(0);
        let ghost tv = t@;
        proof {
            assert(tok_views(raw@) =~= remain.drop_first()) by {
                assert forall|m: int| 0 <= m < raw@.len() implies tok_views(raw@)[m]
                    == remain.drop_first()[m] by {
                    assert(raw@[m] == rawpre[m + 1]);
                    assert(remain[m + 1] == rawpre[m + 1]@);
                }
            }
            assert(remain[0] == tv);
        }
        let two = raw.len() > 0;
        let need = two && needs_concat(&t, &raw[0]);
        proof {
            if two {
                assert(remain[1] == tok_views(raw@)[0] && tok_views(raw@)[0] == raw@[0]@);
            }
        }
        let ghost outp1 = out@;
        out.push(t);
        proof {
            lemma_tok_views_push(outp1, out@, tv);
        }
        if need {
            let ghost outp2 = out@;
            out.push(Token::Concat);
            proof {
                lemma_tok_views_push(outp2, out@, TokenV::Concat);
            }
        }
        proof {
            if remain.len() == 1 {
                assert(insert_concats(remain) == remain);
                assert(remain =~= Seq::empty().push(tv));
                assert(tok_views(out@) == tok_views(outpre).push(tv));
                assert(insert_concats(tok_views(raw@)) == Seq::<TokenV>::empty()) by {
                    assert(tok_views(raw@).len() == 0);
                }
                assert((tok_views(outpre) + remain) =~= (tok_views(out@) + insert_concats(
                    tok_views(raw@),
                )));
            } else {
                assert(remain.len() >= 2);
                let head = if needs_concat_v(remain[0], remain[1]) {
                    seq![remain[0], TokenV::Concat]
                } else {
                    seq![remain[0]]
                };
                assert(insert_concats(remain) == head + insert_concats(remain.drop_first()));
                if need {
                    assert(head =~= Seq::empty().push(tv).push(TokenV::Concat));
                    assert(tok_views(out@) == tok_views(outpre).push(tv).push(TokenV::Concat));
                } else {
                    assert(head =~= Seq::empty().push(tv));
                    assert(tok_views(out@) == tok_views(outpre).push(tv));
                }
                assert forall|m: int|
                    0 <= m < tok_views(outpre).len() + head.len() + insert_concats(
                        remain.drop_first(),
                    ).len() implies (tok_views(outpre) + (head + insert_concats(
                    remain.drop_first(),
                )))[m] == (tok_views(out@) + insert_concats(remain.drop_first()))[m] by {
                    let hl = head.len();
                    let ol = tok_views(outpre).len();
                    if m < ol {
                        assert((tok_views(out@))[m] == tok_views(outpre)[m]);
                    } else if m < ol + hl {
                        assert((head + insert_concats(remain.drop_first()))[m - ol] == head[m
                            - ol]);
                        assert((tok_views(out@))[m] == head[m - ol]);
                    } else {
                        assert((head + insert_concats(remain.drop_first()))[m - ol]
                            == insert_concats(remain.drop_first())[m - ol - hl]);
                    }
                }
                assert((tok_views(outpre) + (head + insert_concats(remain.drop_first()))) =~= (
                tok_views(out@) + insert_concats(remain.drop_first())));
                assert((tok_views(outpre) + insert_concats(remain)) == (tok_views(out@)
                    + insert_concats(tok_views(raw@))));
            }
        }
    }
    proof {
        assert(insert_concats(tok_views(raw@)) == Seq::<TokenV>::empty()) by {
            assert(tok_views(raw@).len() == 0);
        }
        assert((tok_views(out@) + Seq::<TokenV>::empty()) =~= tok_views(out@));
    }
    Ok(out)
}

/// Removing the first element removes the first view.
proof fn lemma_tok_views_drop_first(pre: Seq<Token>, post: Seq<Token>)
    requires
        pre.len() > 0,
        post.len() == pre.len() - 1,
        forall|m: int| 0 <= m < post.len() ==> post[m] == pre[m + 1],
    ensures
        tok_views(post) == tok_views(pre).drop_first(),
{
    assert forall|m: int| 0 <= m < post.len() implies tok_views(post)[m] == tok_views(
        pre,
    ).drop_first()[m] by {
        assert(tok_views(post)[m] == post[m]@);
        assert(tok_views(pre)[m + 1] == pre[m + 1]@);
    }
    assert(tok_views(post) =~= tok_views(pre).drop_first());
}

/// Removing the last element removes the last view.
proof fn lemma_tok_views_drop_last(pre: Seq<Token>, post: Seq<Token>)
    requires
        pre.len() > 0,
        post.len() == pre.len() - 1,
        forall|m: int| 0 <= m < post.len() ==> post[m] == pre[m],
    ensures
        tok_views(post) == tok_views(pre).drop_last(),
        pre.len() > 0 ==> tok_views(pre).last() == pre.last()@,
{
    assert forall|m: int| 0 <= m < post.len() implies tok_views(post)[m] == tok_views(
        pre,
    ).drop_last()[m] by {
        assert(tok_views(post)[m] == post[m]@);
        assert(tok_views(pre)[m] == pre[m]@);
    }
    assert(tok_views(post) =~= tok_views(pre).drop_last());
}

/// Whether `t` is a postfix quantifier token.
pub open spec fn is_quant(t: TokenV) -> bool {
    t is Plus || t is Star || t is Question
}

/// Moves quantifiers from the top of the operator stack to the output, as a
/// `Concat` does before it is pushed.
pub open spec fn flush_quant(stack: Seq<TokenV>, out: Seq<TokenV>) -> (Seq<TokenV>, Seq<TokenV>)
    decreases stack.len(),
{
    if stack.len() > 0 && is_quant(stack.last()) {
        flush_quant(stack.drop_last(), out.push(stack.last()))
    } else {
        (stack, out)
    }
}

/// Moves every operator above the nearest group bracket to the output, as an
/// `Or` does before it is pushed.
pub open spec fn flush_or(stack: Seq<TokenV>, out: Seq<TokenV>) -> (Seq<TokenV>, Seq<TokenV>)
    decreases stack.len(),
{
    if stack.len() > 0 && !(stack.last() is LBracket) && !(stack.last() is RBracket) {
        flush_or(stack.drop_last(), out.push(stack.last()))
    } else {
        (stack, out)
    }
}

/// Moves operators to the output until the matching `(` is found and
/// discarded; a stack with no `(` marks an unmatched `)`.
pub open spec fn flush_group(stack: Seq<TokenV>, out: Seq<TokenV>) -> Result<
    (Seq<TokenV>, Seq<TokenV>),
    CompileError,
>
    decreases stack.len(),
{
    if stack.len() == 0 {
        Err(CompileError::UnmatchedBracket)
    } else if stack.last() is LBracket {
        Ok((stack.drop_last(), out))
    } else {
        flush_group(stack.drop_last(), out.push(stack.last()))
    }
}

/// One pass of the shunting-yard rewrite over `ts`, starting from the given
/// operator stack and output; yields the final stack and output.  `Concat`
/// binds tighter than `Or`; quantifiers attach to the preceding operand;
/// brackets group; anchors pass through without effect.
pub open spec fn sy_run(ts: Seq<TokenV>, stack: Seq<TokenV>, out: Seq<TokenV>) -> Result<
    (Seq<TokenV>, Seq<TokenV>),
    CompileError,
>
    decreases ts.len(),
{
    if ts.len() == 0 {
        Ok((stack, out))
    } else {
        let t = ts[0];
        let rest = ts.drop_first();
        match t {
            TokenV::Literal(_) => sy_run(rest, stack, out.push(t)),
            TokenV::ComplexLiteral(_) => sy_run(rest, stack, out.push(t)),
            TokenV::Plus => sy_run(rest, stack.push(t), out),
            TokenV::Star => sy_run(rest, stack.push(t), out),
            TokenV::Question => sy_run(rest, stack.push(t), out),
            TokenV::Concat => {
                let p = flush_quant(stack, out);
                sy_run(rest, p.0.push(TokenV::Concat), p.1)
            },
            TokenV::Or => {
                let p = flush_or(stack, out);
                sy_run(rest, p.0.push(TokenV::Or), p.1)
            },
            TokenV::LBracket => sy_run(rest, stack.push(t), out),
            TokenV::RBracket => match flush_group(stack, out) {
                Err(e) => Err(e),
                Ok(p) => sy_run(rest, p.0, p.1),
            },
            TokenV::StartRef => sy_run(rest, stack, out),
            TokenV::EndRef => sy_run(rest, stack, out),
        }
    }
}

/// Appends the remaining operator stack to the output, topmost first.
pub open spec fn drain_stack(stack: Seq<TokenV>, out: Seq<TokenV>) -> Seq<TokenV>
    decreases stack.len(),
{
    if stack.len() == 0 {
        out
    } else {
        drain_stack(stack.drop_last(), out.push(stack.last()))
    }
}

/// The token stream with the two positional anchors removed.
pub open spec fn drop_anchors(ts: Seq<TokenV>) -> Seq<TokenV>
    decreases ts.len(),
{
    if ts.len() == 0 {
        Seq::empty()
    } else if ts[0] is StartRef || ts[0] is EndRef {
        drop_anchors(ts.drop_first())
    } else {
        seq![ts[0]] + drop_anchors(ts.drop_first())
    }
}

/// The postfix form of a pattern: its token stream with the anchors
/// extracted, rewritten by the shunting-yard pass, the stack drained, and
/// the anchors reattached at the head and tail if they occurred anywhere.
pub open spec fn spec_postfix(s: Seq<char>) -> Result<Seq<TokenV>, CompileError> {
    match spec_tokens(s) {
        Err(e) => Err(e),
        Ok(ts) => match sy_run(drop_anchors(ts), Seq::empty(), Seq::empty()) {
            Err(e) => Err(e),
            Ok(p) => if p.0.contains(TokenV::LBracket) {
                // an unmatched `(` survives the rewrite on the stack
                Err(CompileError::UnmatchedBracket)
            } else {
                let core = drain_stack(p.0, p.1);
                let with_start = if ts.contains(TokenV::StartRef) {
                    seq![TokenV::StartRef] + core
                } else {
                    core
                };
                Ok(
                    if ts.contains(TokenV::EndRef) {
                        with_start.push(TokenV::EndRef)
                    } else {
                        with_start
                    },
                )
            },
        },
    }
}

/// Rewrites `input` into postfix form, ready for stack evaluation by the
/// NFA builder.
#[verifier::loop_isolation(false)]
pub fn postfix_generator(input: &str) -> (r: Result<Vec<Token>, CompileError>)
    ensures
        match r {
            Ok(v) => spec_postfix(input@) == Ok::<Seq<TokenV>, CompileError>(tok_views(v@)),
            Err(e) => spec_postfix(input@) == Err::<Seq<TokenV>, CompileError>(e),
        },
{
    let mut toks = match parse(input) {
        Ok(v) => v,
        Err(e) => {
            proof {
                assert(spec_postfix(input@) == Err::<Seq<TokenV>, CompileError>(e));
            }
            return Err(e);
        },
    };
    let ghost all = tok_views(toks@);
    // record whether the anchors occur anywhere in the stream
    let mut has_start = false;
    let mut has_end = false;
    let mut k: usize = 0;
    while k < toks.len()
        invariant
            k <= toks@.len(),
            all == tok_views(toks@),
            has_start == exists|m: int| 0 <= m < k && all[m] is StartRef,
            has_end == exists|m: int| 0 <= m < k && all[m] is EndRef,
        decreases toks@.len() - k,
    {
        if matches!(&toks[k], Token::StartRef) {
            has_start = true;
            proof {
                assert(all[k as int] is StartRef);
            }
        }
        if matches!(&toks[k], Token::EndRef) {
            has_end = true;
            proof {
                assert(all[k as int] is EndRef);
            }
        }
        k += 1;
    }
    proof {
        assert(has_start == all.contains(TokenV::StartRef)) by {
            if has_start {
                let m = choose|m: int| 0 <= m < all.len() && all[m] is StartRef;
                assert(all[m] == TokenV::StartRef);
            }
            if all.contains(TokenV::StartRef) {
                let m = choose|m: int| 0 <= m < all.len() && all[m] == TokenV::StartRef;
                assert(all[m] is StartRef);
            }
        }
        assert(has_end == all.contains(TokenV::EndRef)) by {
            if has_end {
                let m = choose|m: int| 0 <= m < all.len() && all[m] is EndRef;
                assert(all[m] == TokenV::EndRef);
            }
            if all.contains(TokenV::EndRef) {
                let m = choose|m: int| 0 <= m < all.len() && all[m] == TokenV::EndRef;
                assert(all[m] is EndRef);
            }
        }
    }
    // remove the anchors before the operator-precedence rewrite
    let mut ops: Vec<Token> = Vec::new();
    proof {
        assert(tok_views(ops@) =~= Seq::<TokenV>::empty());
        assert((Seq::<TokenV>::empty() + drop_anchors(all)) =~= drop_anchors(all));
    }
    while toks.len() > 0
        invariant
            drop_anchors(all) == tok_views(ops@) + drop_anchors(tok_views(toks@)),
        decreases toks.len(),
    {
        let ghost remain = tok_views(toks@);
        let ghost rawpre = toks@;
        let t = toks.remove(0);
        let ghost tv = t@;
        proof {
            lemma_tok_views_drop_first(rawpre, toks@);
            assert(remain[0] == tv);
        }
        if matches!(&t, Token::StartRef | Token::EndRef) {
            proof {
                assert(drop_anchors(remain) == drop_anchors(remain.drop_first()));
            }
        } else {
            let ghost opspre = ops@;
            ops.push(t);
            proof {
                lemma_tok_views_push(opspre, ops@, tv);
                assert(drop_anchors(remain) == seq![tv] + drop_anchors(remain.drop_first()));
                lemma_cons_assoc(tok_views(opspre), tv, drop_anchors(remain.drop_first()));
            }
        }
    }
    proof {
        assert(drop_anchors(tok_views(toks@)) == Seq::<TokenV>::empty()) by {
            assert(tok_views(toks@).len() == 0);
        }
        assert((tok_views(ops@) + Seq::<TokenV>::empty()) =~= tok_views(ops@));
    }
    // shunting-yard rewrite
    let ghost ops0 = tok_views(ops@);
    let mut stack: Vec<Token> = Vec::new();
    let mut out: Vec<Token> = Vec::new();
    proof {
        assert(tok_views(stack@) =~= Seq::<TokenV>::empty());
        assert(tok_views(out@) =~= Seq::<TokenV>::empty());
    }
    while ops.len() > 0
        invariant
            sy_run(ops0, Seq::empty(), Seq::empty()) == sy_run(
                tok_views(ops@),
                tok_views(stack@),
                tok_views(out@),
            ),
        decreases ops.len(),
    {
        let ghost remain = tok_views(ops@);
        let ghost rawpre = ops@;
        let t = ops.remove(0);
        let ghost tv = t@;
        proof {
            lemma_tok_views_drop_first(rawpre, ops@);
            assert(remain[0] == tv);
        }
        match &t {
            Token::Literal(_) | Token::ComplexLiteral(_) => {
                let ghost outpre = out@;
                out.push(t);
                proof {
                    lemma_tok_views_push(outpre, out@, tv);
                }
            },
            Token::Plus | Token::Star | Token::Question | Token::LBracket => {
                let ghost stackpre = stack@;
                stack.push(t);
                proof {
                    lemma_tok_views_push(stackpre, stack@, tv);
                }
            },
            Token::Concat => {
                let ghost st0 = tok_views(stack@);
                let ghost ot0 = tok_views(out@);
                while stack.len() > 0 && matches!(
                    &stack[stack.len() - 1],
                    Token::Plus | Token::Star | Token::Question,
                )
                    invariant
                        flush_quant(st0, ot0) == flush_quant(tok_views(stack@), tok_views(out@)),
                    decreases stack.len(),
                {
                    let ghost stackpre = stack@;
                    let ghost outpre = out@;
                    let q = stack.pop().unwrap();
                    proof {
                        lemma_tok_views_drop_last(stackpre, stack@);
                        assert(q@ == tok_views(stackpre).last());
                        assert(is_quant(tok_views(stackpre).last()));
                    }
                    let ghost qv = q@;
                    out.push(q);
                    proof {
                        lemma_tok_views_push(outpre, out@, qv);
                    }
                }
                proof {
                    if stack@.len() > 0 {
                        assert(!is_quant(tok_views(stack@).last())) by {
                            assert(tok_views(stack@).last() == stack@[stack@.len() - 1]@);
                        }
                    }
                    assert(flush_quant(tok_views(stack@), tok_views(out@)) == (
                    tok_views(stack@),
                    tok_views(out@),
                    ));
                }
                let ghost stackpre = stack@;
                stack.push(t);
                proof {
                    lemma_tok_views_push(stackpre, stack@, tv);
                }
            },
            Token::Or => {
                let ghost st0 = tok_views(stack@);
                let ghost ot0 = tok_views(out@);
                while stack.len() > 0 && !matches!(
                    &stack[stack.len() - 1],
                    Token::LBracket | Token::RBracket,
                )
                    invariant
                        flush_or(st0, ot0) == flush_or(tok_views(stack@), tok_views(out@)),
                    decreases stack.len(),
                {
                    let ghost stackpre = stack@;
                    let ghost outpre = out@;
                    let q = stack.pop().unwrap();
                    proof {
                        lemma_tok_views_drop_last(stackpre, stack@);
                        assert(q@ == tok_views(stackpre).last());
                    }
                    let ghost qv = q@;
                    out.push(q);
                    proof {
                        lemma_tok_views_push(outpre, out@, qv);
                    }
                }
                proof {
                    if stack@.len() > 0 {
                        assert(tok_views(stack@).last() is LBracket || tok_views(
                            stack@,
                        ).last() is RBracket) by {
                            assert(tok_views(stack@).last() == stack@[stack@.len() - 1]@);
                        }
                    }
                    assert(flush_or(tok_views(stack@), tok_views(out@)) == (
                    tok_views(stack@),
                    tok_views(out@),
                    ));
                }
                let ghost stackpre = stack@;
                stack.push(t);
                proof {
                    lemma_tok_views_push(stackpre, stack@, tv);
                }
            },
            Token::RBracket => {
                let ghost st0 = tok_views(stack@);
                let ghost ot0 = tok_views(out@);
                let mut closed = false;
                while !closed
                    invariant
                        !closed ==> flush_group(st0, ot0) == flush_group(
                            tok_views(stack@),
                            tok_views(out@),
                        ),
                        closed ==> flush_group(st0, ot0) == Ok::<
                            (Seq<TokenV>, Seq<TokenV>),
                            CompileError,
                        >((tok_views(stack@), tok_views(out@))),
                    decreases stack.len() + (if closed { 0int } else { 1int }),
                {
                    if stack.len() == 0 {
                        proof {
                            assert(flush_group(st0, ot0) == Err::<
                                (Seq<TokenV>, Seq<TokenV>),
                                CompileError,
                            >(CompileError::UnmatchedBracket));
                            assert(sy_run(remain, st0, ot0) == Err::<
                                (Seq<TokenV>, Seq<TokenV>),
                                CompileError,
                            >(CompileError::UnmatchedBracket));
                            assert(sy_run(ops0, Seq::empty(), Seq::empty()) == Err::<
                                (Seq<TokenV>, Seq<TokenV>),
                                CompileError,
                            >(CompileError::UnmatchedBracket));
                            assert(spec_postfix(input@) == Err::<Seq<TokenV>, CompileError>(
                                CompileError::UnmatchedBracket,
                            ));
                        }
                        return Err(CompileError::UnmatchedBracket);
                    }
                    let ghost stackpre = stack@;
                    let ghost outpre = out@;
                    let q = stack.pop().unwrap();
                    proof {
                        lemma_tok_views_drop_last(stackpre, stack@);
                        assert(q@ == tok_views(stackpre).last());
                    }
                    if matches!(&q, Token::LBracket) {
                        proof {
                            assert(flush_group(tok_views(stackpre), tok_views(outpre)) == Ok::<
                                (Seq<TokenV>, Seq<TokenV>),
                                CompileError,
                            >((tok_views(stack@), tok_views(out@))));
                        }
                        closed = true;
                    } else {
                        let ghost qv = q@;
                        out.push(q);
                        proof {
                            assert(!(qv is LBracket));
                            lemma_tok_views_push(outpre, out@, qv);
                        }
                    }
                }
                proof {
                    assert(sy_run(remain, st0, ot0) == sy_run(
                        remain.drop_first(),
                        tok_views(stack@),
                        tok_views(out@),
                    ));
                }
            },
            Token::StartRef | Token::EndRef | Token::Concat => {
                // anchors were removed above and Concat never reaches here
                // unmoved; the rewrite passes such a token through
                proof {
                    assert(!(tv is LBracket));
                }
            },
        }
    }
    proof {
        assert(tok_views(ops@).len() == 0);
        assert(sy_run(tok_views(ops@), tok_views(stack@), tok_views(out@)) == Ok::<
            (Seq<TokenV>, Seq<TokenV>),
            CompileError,
        >((tok_views(stack@), tok_views(out@))));
    }
    // a group bracket still on the stack marks an unmatched `(`
    let ghost st1 = tok_views(stack@);
    let ghost ot1 = tok_views(out@);
    let mut b: usize = 0;
    while b < stack.len()
        invariant
            b <= stack@.len(),
            st1 == tok_views(stack@),
            forall|m: int| 0 <= m < b ==> !(st1[m] is LBracket),
        decreases stack@.len() - b,
    {
        if matches!(&stack[b], Token::LBracket) {
            proof {
                assert(st1[b as int] == stack@[b as int]@);
                assert(st1.contains(TokenV::LBracket));
            }
            return Err(CompileError::UnmatchedBracket);
        }
        b += 1;
    }
    proof {
        assert(!st1.contains(TokenV::LBracket)) by {
            if st1.contains(TokenV::LBracket) {
                let m = choose|m: int| 0 <= m < st1.len() && st1[m] == TokenV::LBracket;
            }
        }
    }
    // drain the operator stack, topmost first
    while stack.len() > 0
        invariant
            drain_stack(st1, ot1) == drain_stack(tok_views(stack@), tok_views(out@)),
        decreases stack.len(),
    {
        let ghost stackpre = stack@;
        let ghost outpre = out@;
        let q = stack.pop().unwrap();
        proof {
            lemma_tok_views_drop_last(stackpre, stack@);
            assert(q@ == tok_views(stackpre).last());
        }
        let ghost qv = q@;
        out.push(q);
        proof {
            lemma_tok_views_push(outpre, out@, qv);
        }
    }
    proof {
        assert(tok_views(stack@).len() == 0);
        assert(drain_stack(tok_views(stack@), tok_views(out@)) == tok_views(out@));
    }
    let ghost core = tok_views(out@);
    // reattach the anchors
    if has_start {
        let ghost outpre = out@;
        out.insert(0, Token::StartRef);
        proof {
            assert forall|m: int| 0 <= m < out@.len() implies tok_views(out@)[m] == (seq![
                TokenV::StartRef,
            ] + tok_views(outpre))[m] by {
                assert(tok_views(out@)[m] == out@[m]@);
                if m > 0 {
                    assert(out@[m] == outpre[m - 1]);
                    assert(tok_views(outpre)[m - 1] == outpre[m - 1]@);
                }
            }
            assert(tok_views(out@) =~= seq![TokenV::StartRef] + tok_views(outpre));
        }
    }
    if has_end {
        let ghost outpre = out@;
        out.push(Token::EndRef);
        proof {
            lemma_tok_views_push(outpre, out@, TokenV::EndRef);
        }
    }
    proof {
        let with_start = if all.contains(TokenV::StartRef) {
            seq![TokenV::StartRef] + core
        } else {
            core
        };
        assert(spec_tokens(input@) == Ok::<Seq<TokenV>, CompileError>(all));
        assert(sy_run(drop_anchors(all), Seq::empty(), Seq::empty()) == Ok::<
            (Seq<TokenV>, Seq<TokenV>),
            CompileError,
        >((st1, ot1)));
        assert(drain_stack(st1, ot1) == core);
        assert(tok_views(out@) == (if all.contains(TokenV::EndRef) {
            with_start.push(TokenV::EndRef)
        } else {
            with_start
        }));
        assert(spec_postfix(input@) == Ok::<Seq<TokenV>, CompileError>(tok_views(out@)));
    }
    Ok(out)
}

/// The lexer emits at most one token per character.
proof fn lemma_lex_len(s: Seq<char>, i: int)
    requires
        0 <= i <= s.len(),
    ensures
        lex_from(s, i) is Ok ==> lex_from(s, i)->Ok_0.len() <= s.len() - i,
    decreases s.len() - i,
{
    broadcast use vstd::seq::group_seq_axioms;

    if i < s.len() {
        let c = s[i];
        if c == '[' {
            lemma_first_idx(s, i + 1, ']');
            let j = first_idx_of(s, i + 1, ']');
            if j < s.len() {
                lemma_lex_len(s, j + 1);
                lemma_lex_step_len(s, i, j + 1, TokenV::ComplexLiteral(s.subrange(i, j + 1)));
            }
        } else if c == ']' {
        } else if c == '\\' {
            if i + 1 < s.len() {
                lemma_lex_len(s, i + 2);
                let c2 = s[i + 1];
                let t = if c2 == 'd' || c2 == 'w' || c2 == 's' {
                    TokenV::ComplexLiteral(s.subrange(i, i + 2))
                } else {
                    TokenV::Literal(c2)
                };
                assert(lex_from(s, i) == (match lex_from(s, i + 2) {
                    Ok(rest) => Ok::<Seq<TokenV>, CompileError>(seq![t] + rest),
                    Err(e) => Err::<Seq<TokenV>, CompileError>(e),
                }));
                lemma_lex_step_len(s, i, i + 2, t);
            }
        } else {
            lemma_lex_len(s, i + 1);
            let t = if c == '+' {
                TokenV::Plus
            } else if c == '*' {
                TokenV::Star
            } else if c == '?' {
                TokenV::Question
            } else if c == '$' {
                TokenV::EndRef
            } else if c == '^' {
                TokenV::StartRef
            } else if c == '|' {
                TokenV::Or
            } else if c == '(' {
                TokenV::LBracket
            } else if c == ')' {
                TokenV::RBracket
            } else if c == '.' {
                TokenV::ComplexLiteral(s.subrange(i, i + 1))
            } else {
                TokenV::Literal(c)
            };
            assert(lex_from(s, i) == (match lex_from(s, i + 1) {
                Ok(rest) => Ok::<Seq<TokenV>, CompileError>(seq![t] + rest),
                Err(e) => Err::<Seq<TokenV>, CompileError>(e),
            }));
            lemma_lex_step_len(s, i, i + 1, t);
        }
    }
}

/// One lexer step adds one token to the tail's output.
proof fn lemma_lex_step_len(s: Seq<char>, i: int, nxt: int, t: TokenV)
    requires
        0 <= i < nxt <= s.len(),
        lex_from(s, i) == (match lex_from(s, nxt) {
            Ok(rest) => Ok::<Seq<TokenV>, CompileError>(seq![t] + rest),
            Err(e) => Err::<Seq<TokenV>, CompileError>(e),
        }),
        lex_from(s, nxt) is Ok ==> lex_from(s, nxt)->Ok_0.len() <= s.len() - nxt,
    ensures
        lex_from(s, i) is Ok ==> lex_from(s, i)->Ok_0.len() <= s.len() - i,
{
    if lex_from(s, nxt) is Ok {
        let rest = lex_from(s, nxt)->Ok_0;
        assert((seq![t] + rest).len() == 1 + rest.len());
    }
}

/// Concatenation insertion at most doubles the stream.
proof fn lemma_insert_concats_len(ts: Seq<TokenV>)
    ensures
        insert_concats(ts).len() <= 2 * ts.len(),
    decreases ts.len(),
{
    if ts.len() >= 2 {
        lemma_insert_concats_len(ts.drop_first());
    }
}

/// Dropping the anchors never lengthens the stream.
proof fn lemma_drop_anchors_len(ts: Seq<TokenV>)
    ensures
        drop_anchors(ts).len() <= ts.len(),
    decreases ts.len(),
{
    if ts.len() > 0 {
        lemma_drop_anchors_len(ts.drop_first());
    }
}

/// Flushing quantifiers moves tokens; it creates none.
proof fn lemma_flush_quant_len(stack: Seq<TokenV>, out: Seq<TokenV>)
    ensures
        flush_quant(stack, out).0.len() + flush_quant(stack, out).1.len() == stack.len()
            + out.len(),
    decreases stack.len(),
{
    if stack.len() > 0 && is_quant(stack.last()) {
        lemma_flush_quant_len(stack.drop_last(), out.push(stack.last()));
    }
}

/// Flushing for `Or` moves tokens; it creates none.
proof fn lemma_flush_or_len(stack: Seq<TokenV>, out: Seq<TokenV>)
    ensures
        flush_or(stack, out).0.len() + flush_or(stack, out).1.len() == stack.len() + out.len(),
    decreases stack.len(),
{
    if stack.len() > 0 && !(stack.last() is LBracket) && !(stack.last() is RBracket) {
        lemma_flush_or_len(stack.drop_last(), out.push(stack.last()));
    }
}

/// Closing a group moves tokens and discards the bracket.
proof fn lemma_flush_group_len(stack: Seq<TokenV>, out: Seq<TokenV>)
    ensures
        flush_group(stack, out) is Ok ==> flush_group(stack, out)->Ok_0.0.len() + flush_group(
            stack,
            out,
        )->Ok_0.1.len() == stack.len() + out.len() - 1,
    decreases stack.len(),
{
    if stack.len() > 0 && !(stack.last() is LBracket) {
        lemma_flush_group_len(stack.drop_last(), out.push(stack.last()));
    }
}

/// The rewrite emits at most one token per input token, plus what it
/// started with.
proof fn lemma_sy_run_len(ts: Seq<TokenV>, stack: Seq<TokenV>, out: Seq<TokenV>)
    ensures
        sy_run(ts, stack, out) is Ok ==> sy_run(ts, stack, out)->Ok_0.0.len() + sy_run(
            ts,
            stack,
            out,
        )->Ok_0.1.len() <= ts.len() + stack.len() + out.len(),
    decreases ts.len(),
{
    if ts.len() > 0 {
        let t = ts[0];
        let rest = ts.drop_first();
        match t {
            TokenV::Literal(_) => lemma_sy_run_len(rest, stack, out.push(t)),
            TokenV::ComplexLiteral(_) => lemma_sy_run_len(rest, stack, out.push(t)),
            TokenV::Plus => lemma_sy_run_len(rest, stack.push(t), out),
            TokenV::Star => lemma_sy_run_len(rest, stack.push(t), out),
            TokenV::Question => lemma_sy_run_len(rest, stack.push(t), out),
            TokenV::Concat => {
                lemma_flush_quant_len(stack, out);
                let p = flush_quant(stack, out);
                lemma_sy_run_len(rest, p.0.push(TokenV::Concat), p.1);
            },
            TokenV::Or => {
                lemma_flush_or_len(stack, out);
                let p = flush_or(stack, out);
                lemma_sy_run_len(rest, p.0.push(TokenV::Or), p.1);
            },
            TokenV::LBracket => lemma_sy_run_len(rest, stack.push(t), out),
            TokenV::RBracket => {
                lemma_flush_group_len(stack, out);
                if flush_group(stack, out) is Ok {
                    let p = flush_group(stack, out)->Ok_0;
                    lemma_sy_run_len(rest, p.0, p.1);
                }
            },
            TokenV::StartRef => lemma_sy_run_len(rest, stack, out),
            TokenV::EndRef => lemma_sy_run_len(rest, stack, out),
        }
    }
}

/// Draining moves every stacked token to the output.
proof fn lemma_drain_stack_len(stack: Seq<TokenV>, out: Seq<TokenV>)
    ensures
        drain_stack(stack, out).len() == stack.len() + out.len(),
    decreases stack.len(),
{
    if stack.len() > 0 {
        lemma_drain_stack_len(stack.drop_last(), out.push(stack.last()));
    }
}

/// A pattern's postfix form holds at most two tokens per pattern character,
/// plus the two anchors.
pub proof fn lemma_spec_postfix_len(s: Seq<char>)
    ensures
        spec_postfix(s) is Ok ==> spec_postfix(s)->Ok_0.len() <= 2 * s.len() + 2,
{
    if spec_postfix(s) is Ok {
        let ts = spec_tokens(s)->Ok_0;
        lemma_lex_len(s, 0);
        lemma_insert_concats_len(lex_from(s, 0)->Ok_0);
        lemma_drop_anchors_len(ts);
        let ops = drop_anchors(ts);
        lemma_sy_run_len(ops, Seq::empty(), Seq::empty());
        let p = sy_run(ops, Seq::empty(), Seq::empty())->Ok_0;
        lemma_drain_stack_len(p.0, p.1);
    }
}

} // verus!
