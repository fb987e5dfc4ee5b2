//! Library-wide laws, stated and proved against the public specifications.

use vstd::prelude::*;

use crate::engine::EngineV;
use crate::error::CompileError;
use crate::engine::{search, try_from};
use crate::matcher::{accepts, MatcherV};
use crate::nfa_regex::{build_from, leaf_v, slide, spec_build, spec_compile, spec_matches, RegexNFAV};
use crate::parser::{spec_postfix, TokenV};

verus! {

/// Determinism: compiling the same pattern twice and matching the same line
/// always yields identical results.  Both `RegexNFA::new` and
/// `RegexNFA::matches` return exactly what `spec_compile` and
/// `spec_matches` prescribe, so two compilations of one pattern decide
/// every line the same way.
pub proof fn lemma_deterministic(p: Seq<char>, line: Seq<char>, m1: RegexNFAV, m2: RegexNFAV)
    requires
        spec_compile(p) == Ok::<(EngineV, bool, bool), CompileError>(
            (m1.engine, m1.starts_with, m1.ends_with),
        ),
        spec_compile(p) == Ok::<(EngineV, bool, bool), CompileError>(
            (m2.engine, m2.starts_with, m2.ends_with),
        ),
    ensures
        spec_matches(m1.engine, m1.starts_with, m1.ends_with, line) == spec_matches(
            m2.engine,
            m2.starts_with,
            m2.ends_with,
            line,
        ),
{
}

/// Evaluates a postfix token stream as a bare stack machine, tracking only
/// the operand count `d` from position `j` on: operands push one, a
/// quantifier needs one operand and keeps the count, `Concat` and `Or` need
/// two and leave one, anchors pass through, and anything else—or an
/// underflow—fails.
pub open spec fn rpn_depth(ts: Seq<TokenV>, j: int, d: int) -> Option<int>
    decreases ts.len() - j,
    when 0 <= j <= ts.len()
{
    if j >= ts.len() {
        Some(d)
    } else {
        match ts[j] {
            TokenV::Literal(_) => rpn_depth(ts, j + 1, d + 1),
            TokenV::ComplexLiteral(_) => rpn_depth(ts, j + 1, d + 1),
            TokenV::Star => if d < 1 {
                None
            } else {
                rpn_depth(ts, j + 1, d)
            },
            TokenV::Question => if d < 1 {
                None
            } else {
                rpn_depth(ts, j + 1, d)
            },
            TokenV::Plus => if d < 1 {
                None
            } else {
                rpn_depth(ts, j + 1, d)
            },
            TokenV::Concat => if d < 2 {
                None
            } else {
                rpn_depth(ts, j + 1, d - 1)
            },
            TokenV::Or => if d < 2 {
                None
            } else {
                rpn_depth(ts, j + 1, d - 1)
            },
            TokenV::StartRef => rpn_depth(ts, j + 1, d),
            TokenV::EndRef => rpn_depth(ts, j + 1, d),
            TokenV::LBracket => None,
            TokenV::RBracket => None,
        }
    }
}

/// The NFA builder's stack and the counting machine agree: wherever the
/// builder succeeds, the count never underflows and ends at the builder's
/// final stack height.
proof fn lemma_build_depth(ts: Seq<TokenV>, j: int, stack: Seq<EngineV>)
    requires
        0 <= j <= ts.len(),
        build_from(ts, j, stack) is Ok,
    ensures
        rpn_depth(ts, j, stack.len() as int) == Some(
            build_from(ts, j, stack)->Ok_0.len() as int,
        ),
    decreases ts.len() - j,
{
    if j < ts.len() {
        match ts[j] {
            TokenV::Literal(c) => {
                let st2 = stack.push(
                    crate::nfa_regex::leaf_v(
                        crate::matcher::MatcherV::CharSet {
                            chars: Set::empty().insert(c),
                            negated: false,
                        },
                    ),
                );
                lemma_build_depth(ts, j + 1, st2);
                assert(rpn_depth(ts, j, stack.len() as int) == rpn_depth(
                    ts,
                    j + 1,
                    st2.len() as int,
                ));
            },
            TokenV::ComplexLiteral(s) => {
                let st2 = stack.push(
                    crate::nfa_regex::leaf_v(crate::matcher::spec_complex(s)->Ok_0),
                );
                lemma_build_depth(ts, j + 1, st2);
                assert(rpn_depth(ts, j, stack.len() as int) == rpn_depth(
                    ts,
                    j + 1,
                    st2.len() as int,
                ));
            },
            TokenV::Star => {
                let lazy = j + 1 < ts.len() && ts[j + 1] is Question;
                let st2 = stack.drop_last().push(
                    crate::nfa_regex::quant_v(
                        stack.last(),
                        lazy,
                        crate::nfa_regex::Quantifier::Star,
                    ),
                );
                assert(build_from(ts, j, stack) == build_from(
                    ts,
                    j + (if lazy { 2int } else { 1int }),
                    st2,
                ));
                if lazy {
                    lemma_build_depth(ts, j + 2, st2);
                    assert(rpn_depth(ts, j + 1, stack.len() as int) == rpn_depth(
                        ts,
                        j + 2,
                        st2.len() as int,
                    ));
                    assert(rpn_depth(ts, j, stack.len() as int) == rpn_depth(
                        ts,
                        j + 1,
                        stack.len() as int,
                    ));
                } else {
                    lemma_build_depth(ts, j + 1, st2);
                    assert(rpn_depth(ts, j, stack.len() as int) == rpn_depth(
                        ts,
                        j + 1,
                        st2.len() as int,
                    ));
                }
            },
            TokenV::Question => {
                let lazy = j + 1 < ts.len() && ts[j + 1] is Question;
                let st2 = stack.drop_last().push(
                    crate::nfa_regex::quant_v(
                        stack.last(),
                        lazy,
                        crate::nfa_regex::Quantifier::Question,
                    ),
                );
                assert(build_from(ts, j, stack) == build_from(
                    ts,
                    j + (if lazy { 2int } else { 1int }),
                    st2,
                ));
                if lazy {
                    lemma_build_depth(ts, j + 2, st2);
                    assert(rpn_depth(ts, j + 1, stack.len() as int) == rpn_depth(
                        ts,
                        j + 2,
                        st2.len() as int,
                    ));
                    assert(rpn_depth(ts, j, stack.len() as int) == rpn_depth(
                        ts,
                        j + 1,
                        stack.len() as int,
                    ));
                } else {
                    lemma_build_depth(ts, j + 1, st2);
                    assert(rpn_depth(ts, j, stack.len() as int) == rpn_depth(
                        ts,
                        j + 1,
                        st2.len() as int,
                    ));
                }
            },
            TokenV::Plus => {
                let lazy = j + 1 < ts.len() && ts[j + 1] is Question;
                let st2 = stack.drop_last().push(
                    crate::nfa_regex::quant_v(
                        stack.last(),
                        lazy,
                        crate::nfa_regex::Quantifier::Plus,
                    ),
                );
                assert(build_from(ts, j, stack) == build_from(
                    ts,
                    j + (if lazy { 2int } else { 1int }),
                    st2,
                ));
                if lazy {
                    lemma_build_depth(ts, j + 2, st2);
                    assert(rpn_depth(ts, j + 1, stack.len() as int) == rpn_depth(
                        ts,
                        j + 2,
                        st2.len() as int,
                    ));
                    assert(rpn_depth(ts, j, stack.len() as int) == rpn_depth(
                        ts,
                        j + 1,
                        stack.len() as int,
                    ));
                } else {
                    lemma_build_depth(ts, j + 1, st2);
                    assert(rpn_depth(ts, j, stack.len() as int) == rpn_depth(
                        ts,
                        j + 1,
                        st2.len() as int,
                    ));
                }
            },
            TokenV::Or => {
                let st2 = stack.drop_last().drop_last().push(
                    crate::nfa_regex::union_v(stack[stack.len() - 2], stack[stack.len() - 1]),
                );
                assert(build_from(ts, j, stack) == build_from(ts, j + 1, st2));
                lemma_build_depth(ts, j + 1, st2);
                assert(st2.len() == stack.len() - 1);
                assert(rpn_depth(ts, j, stack.len() as int) == rpn_depth(
                    ts,
                    j + 1,
                    st2.len() as int,
                ));
            },
            TokenV::Concat => {
                let st2 = stack.drop_last().drop_last().push(
                    crate::nfa_regex::concat_v(stack[stack.len() - 2], stack[stack.len() - 1]),
                );
                assert(build_from(ts, j, stack) == build_from(ts, j + 1, st2));
                lemma_build_depth(ts, j + 1, st2);
                assert(st2.len() == stack.len() - 1);
                assert(rpn_depth(ts, j, stack.len() as int) == rpn_depth(
                    ts,
                    j + 1,
                    st2.len() as int,
                ));
            },
            TokenV::StartRef => {
                lemma_build_depth(ts, j + 1, stack);
            },
            TokenV::EndRef => {
                lemma_build_depth(ts, j + 1, stack);
            },
            TokenV::LBracket => {},
            TokenV::RBracket => {},
        }
    }
}

/// Postfix stack balance: for every pattern the compiler supports (one it
/// accepts), evaluating its postfix output as a stack machine never
/// underflows—`rpn_depth` stays `Some`—and leaves exactly one operand at
/// the end.
pub proof fn lemma_postfix_balance(p: Seq<char>)
    requires
        spec_compile(p) is Ok,
    ensures
        spec_postfix(p) is Ok,
        rpn_depth(spec_postfix(p)->Ok_0, 0, 0) == Some(1int),
{
    let ts = spec_postfix(p)->Ok_0;
    assert(spec_build(ts) is Ok);
    assert(build_from(ts, 0, Seq::empty()) is Ok);
    lemma_build_depth(ts, 0, Seq::empty());
    assert(build_from(ts, 0, Seq::empty())->Ok_0.len() == 1);
}

/// A leaf engine is well formed.
proof fn lemma_leaf_wf(m: MatcherV)
    ensures
        crate::engine::engine_wf(leaf_v(m)),
{
    assert(leaf_v(m).states[0].id == 0);
    assert(leaf_v(m).states[1].id == 1);
    assert(leaf_v(m).states[0].transitions[0].1 == 1);
    assert(leaf_v(m).states[1].transitions.len() == 0);
}

/// What the simulator returns on a leaf engine: one consuming step, or
/// failure.
proof fn lemma_leaf_search(m: MatcherV, input: Seq<char>, i: int)
    requires
        0 <= i <= input.len(),
        !(m is Epsilon),
    ensures
        search(leaf_v(m), input, 0, i, Set::empty()) == (if i < input.len() && accepts(
            m,
            input[i],
        ) {
            Some(i + 1)
        } else {
            None::<int>
        }),
{
    lemma_leaf_wf(m);
    let eng = leaf_v(m);
    assert(Set::<int>::empty().finite());
    let tr = eng.states[0].transitions;
    assert(tr[0] == (m, 1int));
    if i < input.len() && accepts(m, input[i]) {
        assert(search(eng, input, 1, i + 1, Set::empty()) == Some(i + 1));
        assert(try_from(eng, tr, 1, input, i, Set::empty()) is None);
        assert(try_from(eng, tr, 0, input, i, Set::empty()) == Some(i + 1));
    } else {
        assert(try_from(eng, tr, 1, input, i, Set::empty()) is None);
        assert(try_from(eng, tr, 0, input, i, Set::empty()) is None);
    }
}

/// The sliding search over a leaf engine finds exactly the offsets whose
/// character the matcher accepts.
proof fn lemma_leaf_slide(m: MatcherV, input: Seq<char>, off: int)
    requires
        0 <= off <= input.len(),
        !(m is Epsilon),
    ensures
        slide(leaf_v(m), false, input, off) == exists|k: int|
            off <= k < input.len() && accepts(m, #[trigger] input[k]),
    decreases input.len() - off,
{
    lemma_leaf_wf(m);
    lemma_leaf_search(m, input, off);
    if off < input.len() {
        if accepts(m, input[off]) {
            assert(slide(leaf_v(m), false, input, off));
        } else {
            lemma_leaf_slide(m, input, off + 1);
        }
    }
}

/// The one-character case of substring matching: a pattern holding one
/// ordinary character (none of the dialect's special characters) matches
/// exactly the lines that contain that character.
pub proof fn lemma_single_char_substring(c: char, line: Seq<char>)
    requires
        c != '[',
        c != ']',
        c != '\\',
        c != '+',
        c != '*',
        c != '?',
        c != '$',
        c != '^',
        c != '|',
        c != '(',
        c != ')',
        c != '.',
    ensures
        spec_compile(seq![c]) is Ok,
        ({
            let compiled = spec_compile(seq![c])->Ok_0;
            spec_matches(compiled.0, compiled.1, compiled.2, line) == line.contains(c)
        }),
{
    let p = seq![c];
    let lit = TokenV::Literal(c);
    let m = crate::matcher::MatcherV::CharSet { chars: Set::empty().insert(c), negated: false };
    // the pattern lexes to a single literal token
    assert(crate::parser::lex_from(p, 1) == Ok::<Seq<TokenV>, CompileError>(Seq::empty()));
    assert(crate::parser::lex_from(p, 0) == Ok::<Seq<TokenV>, CompileError>(
        seq![lit] + Seq::empty(),
    ));
    assert((seq![lit] + Seq::empty()) =~= seq![lit]);
    assert(crate::parser::spec_tokens(p) == Ok::<Seq<TokenV>, CompileError>(seq![lit]));
    // no anchors, so the rewrite just moves the literal through
    assert(crate::parser::drop_anchors(seq![lit]) =~= seq![lit]) by {
        assert(seq![lit].drop_first() =~= Seq::<TokenV>::empty());
        assert(crate::parser::drop_anchors(Seq::<TokenV>::empty()) == Seq::<TokenV>::empty());
    }
    assert(crate::parser::sy_run(Seq::<TokenV>::empty(), Seq::empty(), Seq::empty().push(lit))
        == Ok::<(Seq<TokenV>, Seq<TokenV>), CompileError>((Seq::empty(), Seq::empty().push(lit))));
    assert(crate::parser::sy_run(seq![lit], Seq::empty(), Seq::empty()) == Ok::<
        (Seq<TokenV>, Seq<TokenV>),
        CompileError,
    >((Seq::empty(), Seq::empty().push(lit)))) by {
        assert(seq![lit].drop_first() =~= Seq::<TokenV>::empty());
    }
    assert(crate::parser::drain_stack(Seq::empty(), Seq::empty().push(lit)) == Seq::empty().push(
        lit,
    ));
    assert(!seq![lit].contains(TokenV::StartRef)) by {
        if seq![lit].contains(TokenV::StartRef) {
            let k = choose|k: int| 0 <= k < 1 && seq![lit][k] == TokenV::StartRef;
        }
    }
    assert(!seq![lit].contains(TokenV::EndRef)) by {
        if seq![lit].contains(TokenV::EndRef) {
            let k = choose|k: int| 0 <= k < 1 && seq![lit][k] == TokenV::EndRef;
        }
    }
    assert(Seq::empty().push(lit) =~= seq![lit]);
    assert(spec_postfix(p) == Ok::<Seq<TokenV>, CompileError>(seq![lit]));
    // the builder turns it into the leaf engine for {c}
    assert(build_from(seq![lit], 1, Seq::empty().push(leaf_v(m))) == Ok::<
        Seq<EngineV>,
        CompileError,
    >(Seq::empty().push(leaf_v(m))));
    assert(build_from(seq![lit], 0, Seq::empty()) == Ok::<Seq<EngineV>, CompileError>(
        Seq::empty().push(leaf_v(m)),
    ));
    assert(Seq::empty().push(leaf_v(m)).len() == 1);
    assert(spec_build(seq![lit]) == Ok::<EngineV, CompileError>(leaf_v(m)));
    assert(!(seq![lit][0] is StartRef));
    assert(!(seq![lit].last() is EndRef));
    assert(spec_compile(p) == Ok::<(EngineV, bool, bool), CompileError>((leaf_v(m), false, false)));
    // on the leaf engine, matching is exactly containment
    if line.len() == 0 {
        lemma_leaf_search(m, line, 0);
        assert(!line.contains(c));
    } else {
        lemma_leaf_slide(m, line, 0);
        assert(spec_matches(leaf_v(m), false, false, line) == exists|k: int|
            0 <= k < line.len() && accepts(m, #[trigger] line[k]));
        assert((exists|k: int| 0 <= k < line.len() && accepts(m, #[trigger] line[k]))
            == line.contains(c)) by {
            if exists|k: int| 0 <= k < line.len() && accepts(m, #[trigger] line[k]) {
                let k = choose|k: int| 0 <= k < line.len() && accepts(m, #[trigger] line[k]);
                assert(line[k] == c);
            }
            if line.contains(c) {
                let k = choose|k: int| 0 <= k < line.len() && line[k] == c;
                assert(accepts(m, line[k]));
            }
        }
    }
}

} // verus!
