//! Thompson-style NFA construction and the anchor-aware front end.

use vstd::prelude::*;
use vstd::string::StringExecFns;

use crate::engine::{
    dense_ids, engine_wf, find_state, search, shift_engine, state_views, targets_lt, Engine,
    EngineV,
};
use crate::error::CompileError;
use crate::matcher::{spec_complex, Matcher, MatcherV};
use crate::parser::{postfix_generator, spec_postfix, tok_views, Token, TokenV};
use crate::state::{shift_state, State, StateV};

verus! {

/// The three quantifiers a postfix stream can apply to an operand.
pub enum Quantifier {
    Star,
    Question,
    Plus,
}

/// A two-state engine: state 0 steps to state 1 through `m`.
pub open spec fn leaf_v(m: MatcherV) -> EngineV {
    EngineV {
        states: seq![
            StateV { id: 0, transitions: seq![(m, 1int)] },
            StateV { id: 1, transitions: Seq::empty() },
        ],
        start: 0,
        end: 1,
    }
}

/// `states` with one transition appended to the state at index `at`.
pub open spec fn add_trans_v(states: Seq<StateV>, at: int, m: MatcherV, to: int) -> Seq<StateV> {
    states.update(
        at,
        StateV { id: states[at].id, transitions: states[at].transitions.push((m, to)) },
    )
}

/// The arena of `e` followed by two fresh, empty states `ns` and `ne`.
pub open spec fn grown_v(e: EngineV) -> Seq<StateV> {
    let ns = e.states.len() as int;
    e.states + seq![
        StateV { id: ns, transitions: Seq::empty() },
        StateV { id: ns + 1, transitions: Seq::empty() },
    ]
}

/// Wraps `e` in a quantifier: two new states `ns` (start) and `ne` (end),
/// with epsilon transitions whose insertion order encodes the preference:
/// the simulator tries a state's transitions in insertion order, so a
/// greedy quantifier inserts its enter/repeat transition before the exit
/// one at each branching state, and a lazy quantifier the reverse.
pub open spec fn quant_v(e: EngineV, lazy: bool, q: Quantifier) -> EngineV {
    let ns = e.states.len() as int;
    let ne = ns + 1;
    let base = grown_v(e);
    let ss = match q {
        Quantifier::Star => if lazy {
            add_trans_v(
                add_trans_v(
                    add_trans_v(
                        add_trans_v(base, ns, MatcherV::Epsilon, ne),
                        ns,
                        MatcherV::Epsilon,
                        e.start,
                    ),
                    e.end,
                    MatcherV::Epsilon,
                    ne,
                ),
                e.end,
                MatcherV::Epsilon,
                ns,
            )
        } else {
            add_trans_v(
                add_trans_v(
                    add_trans_v(
                        add_trans_v(base, ns, MatcherV::Epsilon, e.start),
                        ns,
                        MatcherV::Epsilon,
                        ne,
                    ),
                    e.end,
                    MatcherV::Epsilon,
                    ns,
                ),
                e.end,
                MatcherV::Epsilon,
                ne,
            )
        },
        Quantifier::Question => if lazy {
            add_trans_v(
                add_trans_v(
                    add_trans_v(base, ns, MatcherV::Epsilon, ne),
                    ns,
                    MatcherV::Epsilon,
                    e.start,
                ),
                e.end,
                MatcherV::Epsilon,
                ne,
            )
        } else {
            add_trans_v(
                add_trans_v(
                    add_trans_v(base, ns, MatcherV::Epsilon, e.start),
                    ns,
                    MatcherV::Epsilon,
                    ne,
                ),
                e.end,
                MatcherV::Epsilon,
                ne,
            )
        },
        Quantifier::Plus => if lazy {
            add_trans_v(
                add_trans_v(
                    add_trans_v(base, e.end, MatcherV::Epsilon, ne),
                    e.end,
                    MatcherV::Epsilon,
                    ns,
                ),
                ns,
                MatcherV::Epsilon,
                e.start,
            )
        } else {
            add_trans_v(
                add_trans_v(
                    add_trans_v(base, e.end, MatcherV::Epsilon, ns),
                    e.end,
                    MatcherV::Epsilon,
                    ne,
                ),
                ns,
                MatcherV::Epsilon,
                e.start,
            )
        },
    };
    EngineV { states: ss, start: ns, end: ne }
}

/// The arena holding `l` followed by `r` shifted past it, then the two
/// fresh states.
pub open spec fn merged_v(l: EngineV, r: EngineV) -> Seq<StateV> {
    let rs = shift_engine(r, l.states.len() as int);
    let ns = l.states.len() + r.states.len();
    (l.states + rs.states) + seq![
        StateV { id: ns as int, transitions: Seq::empty() },
        StateV { id: ns + 1 as int, transitions: Seq::empty() },
    ]
}

/// The union of `l` and `r`: a new start state branching to both operands'
/// starts, both operands' ends feeding a new end state.
pub open spec fn union_v(l: EngineV, r: EngineV) -> EngineV {
    let nl = l.states.len() as int;
    let ns = nl + r.states.len();
    let ne = ns + 1;
    let ss = add_trans_v(
        add_trans_v(
            add_trans_v(
                add_trans_v(merged_v(l, r), ns, MatcherV::Epsilon, l.start),
                ns,
                MatcherV::Epsilon,
                r.start + nl,
            ),
            l.end,
            MatcherV::Epsilon,
            ne,
        ),
        r.end + nl,
        MatcherV::Epsilon,
        ne,
    );
    EngineV { states: ss, start: ns, end: ne }
}

/// The concatenation of `l` and `r`: `l`'s end feeds `r`'s start, wrapped
/// in new start and end states.
pub open spec fn concat_v(l: EngineV, r: EngineV) -> EngineV {
    let nl = l.states.len() as int;
    let ns = nl + r.states.len();
    let ne = ns + 1;
    let ss = add_trans_v(
        add_trans_v(
            add_trans_v(merged_v(l, r), l.end, MatcherV::Epsilon, r.start + nl),
            ns,
            MatcherV::Epsilon,
            l.start,
        ),
        r.end + nl,
        MatcherV::Epsilon,
        ne,
    );
    EngineV { states: ss, start: ns, end: ne }
}

/// Resolving a dense arena by id finds that index.
proof fn lemma_find_dense(states: Seq<StateV>, id: int, j: int)
    requires
        0 <= j <= id < states.len(),
        forall|m: int| 0 <= m < states.len() ==> (#[trigger] states[m]).id == m,
    ensures
        find_state(states, id, j) == id,
    decreases id - j,
{
    if j < id {
        lemma_find_dense(states, id, j + 1);
    }
}

/// A two-state engine stepping through `matcher`.
fn one_step_nfa(matcher: Matcher) -> (r: Engine)
    ensures
        r@ == leaf_v(matcher@),
        engine_wf(r@),
{
    let ghost mv = matcher@;
    let mut engine = Engine::new();
    let mut start_state = State::new(0);
    let end_state = State::new(1);
    start_state.add_transition(matcher, 1);
    let mut sts: Vec<State> = Vec::new();
    sts.push(start_state);
    sts.push(end_state);
    proof {
        assert(state_views(sts@) =~= leaf_v(mv).states) by {
            assert(state_views(sts@)[0] == sts@[0]@);
            assert(state_views(sts@)[1] == sts@[1]@);
            assert(sts@[0]@.transitions =~= seq![(mv, 1int)]);
        }
    }
    engine.add_states(sts);
    engine.set_start_state(0);
    engine.set_end_state(1);
    proof {
        assert((Seq::<StateV>::empty() + leaf_v(mv).states) =~= leaf_v(mv).states);
        assert(engine@ =~= leaf_v(mv));
        assert(engine_wf(engine@)) by {
            assert(leaf_v(mv).states[0].id == 0);
            assert(leaf_v(mv).states[1].id == 1);
            assert(leaf_v(mv).states[0].transitions[0].1 == 1);
            assert(leaf_v(mv).states[1].transitions.len() == 0);
        }
    }
    engine
}

/// The leaf engine for one literal character.
fn literal_nfa(c: char) -> (r: Engine)
    ensures
        r@ == leaf_v(MatcherV::CharSet { chars: Set::empty().insert(c), negated: false }),
        engine_wf(r@),
{
    one_step_nfa(Matcher::create_simple_matcher(&c))
}

/// The leaf engine for one complex class specifier.
fn comple_nfa(input: &str) -> (r: Result<Engine, CompileError>)
    ensures
        match r {
            Ok(e) => spec_complex(input@) is Ok && e@ == leaf_v(spec_complex(input@)->Ok_0)
                && engine_wf(e@),
            Err(err) => spec_complex(input@) == Err::<MatcherV, CompileError>(err),
        },
{
    match Matcher::create_complex_matcher(input) {
        Ok(m) => Ok(one_step_nfa(m)),
        Err(e) => Err(e),
    }
}

/// Merges two arenas: `left`'s states, then `right`'s shifted past them,
/// then the two fresh wrapper states, with start and end designated.
fn merged_nfa(left: Engine, right: Engine) -> (r: Engine)
    requires
        engine_wf(left@),
        engine_wf(right@),
        left@.states.len() + right@.states.len() + 2 <= usize::MAX,
    ensures
        r@.states == merged_v(left@, right@),
        r@.start == left@.states.len() + right@.states.len(),
        r@.end == left@.states.len() + right@.states.len() + 1,
        dense_ids(r@.states),
        targets_lt(r@.states, left@.states.len() + right@.states.len() as int),
        r@.states.len() == left@.states.len() + right@.states.len() + 2,
{
    let ghost lv = left@;
    let ghost rv = right@;
    let nl = left.states.len();
    let nr = right.states.len();
    let ns = nl + nr;
    let ne = ns + 1;
    let Engine { states: lstates, start_state: _, end_state: _ } = left;
    let mut engine = Engine::new();
    engine.add_states(lstates);
    proof {
        assert((Seq::<StateV>::empty() + lv.states) =~= lv.states);
    }
    let mut right2 = right;
    proof {
        assert(right2@.start + nl <= usize::MAX);
        assert(right2@.end + nl <= usize::MAX);
        assert forall|j: int|
            0 <= j < right2@.states.len() implies (#[trigger] right2@.states[j]).id + nl
            <= usize::MAX by {}
        assert forall|j: int, k: int|
            0 <= j < right2@.states.len() && 0 <= k
                < right2@.states[j].transitions.len() implies (#[trigger] right2@.states[j].transitions[k]).1
            + nl <= usize::MAX by {}
    }
    right2.shift_ids(nl);
    let Engine { states: rstates, start_state: _, end_state: _ } = right2;
    engine.add_states(rstates);
    engine.set_start_state(ns);
    engine.set_end_state(ne);
    let mut two: Vec<State> = Vec::new();
    two.push(State::new(ns));
    two.push(State::new(ne));
    proof {
        assert(state_views(two@) =~= seq![
            StateV { id: ns as int, transitions: Seq::empty() },
            StateV { id: ne as int, transitions: Seq::empty() },
        ]) by {
            assert(state_views(two@)[0] == two@[0]@);
            assert(state_views(two@)[1] == two@[1]@);
        }
    }
    engine.add_states(two);
    proof {
        assert(engine@.states =~= merged_v(lv, rv));
        let total = ns + 2;
        assert(dense_ids(engine@.states)) by {
            assert forall|j: int| 0 <= j < engine@.states.len() implies (
            #[trigger] engine@.states[j]).id == j by {
                if j < nl {
                    assert(engine@.states[j] == lv.states[j]);
                } else if j < ns {
                    assert(engine@.states[j] == shift_state(rv.states[j - nl], nl as int));
                    assert(rv.states[j - nl].id == j - nl);
                }
            }
        }
        assert(targets_lt(engine@.states, ns as int)) by {
            assert forall|j: int, k: int|
                0 <= j < engine@.states.len() && 0 <= k
                    < engine@.states[j].transitions.len() implies 0 <= (
            #[trigger] engine@.states[j].transitions[k]).1 < ns by {
                if j < nl {
                    assert(engine@.states[j] == lv.states[j]);
                    assert(0 <= lv.states[j].transitions[k].1 < nl);
                } else if j < ns {
                    assert(engine@.states[j] == shift_state(rv.states[j - nl], nl as int));
                    let rt = rv.states[j - nl].transitions;
                    assert(engine@.states[j].transitions[k] == (rt[k].0, rt[k].1 + nl));
                    assert(0 <= rt[k].1 < nr);
                } else {
                    assert(engine@.states[j].transitions.len() == 0);
                }
            }
        }
    }
    engine
}

/// Appending a transition to a well-placed state of a dense arena keeps it
/// dense, and keeps targets bounded when the new target is.
proof fn lemma_add_trans(ss: Seq<StateV>, at: int, m: MatcherV, to: int, n: int)
    requires
        0 <= at < ss.len(),
        dense_ids(ss),
        targets_lt(ss, n),
        0 <= to < n,
    ensures
        dense_ids(add_trans_v(ss, at, m, to)),
        targets_lt(add_trans_v(ss, at, m, to), n),
        add_trans_v(ss, at, m, to).len() == ss.len(),
{
    let ss2 = add_trans_v(ss, at, m, to);
    assert forall|j: int| 0 <= j < ss2.len() implies (#[trigger] ss2[j]).id == j by {
        if j != at {
            assert(ss2[j] == ss[j]);
        }
    }
    assert forall|j: int, k: int|
        0 <= j < ss2.len() && 0 <= k < ss2[j].transitions.len() implies 0 <= (
    #[trigger] ss2[j].transitions[k]).1 < n by {
        if j != at {
            assert(ss2[j] == ss[j]);
        } else {
            if k < ss[at].transitions.len() {
                assert(ss2[j].transitions[k] == ss[at].transitions[k]);
            } else {
                assert(ss2[j].transitions[k] == (m, to));
            }
        }
    }
}

/// Appends one epsilon transition from state `from` to state `to` in a
/// dense arena, recording the arena-level effect.
fn link(engine: &mut Engine, from: usize, to: usize)
    requires
        dense_ids(old(engine)@.states),
        from < old(engine)@.states.len(),
    ensures
        final(engine)@ == (EngineV {
            states: add_trans_v(old(engine)@.states, from as int, MatcherV::Epsilon, to as int),
            start: old(engine)@.start,
            end: old(engine)@.end,
        }),
{
    proof {
        lemma_find_dense(engine@.states, from as int, 0);
    }
    engine.add_transition(from, Matcher::Epsilon, to);
}

/// The union of two engines (`Or`).
fn union_nfa(left: Engine, right: Engine) -> (r: Engine)
    requires
        engine_wf(left@),
        engine_wf(right@),
        left@.states.len() + right@.states.len() + 2 <= usize::MAX,
    ensures
        r@ == union_v(left@, right@),
        engine_wf(r@),
        r@.states.len() == left@.states.len() + right@.states.len() + 2,
{
    let ghost lv = left@;
    let ghost rv = right@;
    let nl = left.states.len();
    let lstart = left.start_state;
    let lend = left.end_state;
    let rstart = right.start_state;
    let rend = right.end_state;
    let ns = nl + right.states.len();
    let ne = ns + 1;
    let total = ns + 2;
    let mut engine = merged_nfa(left, right);
    let ghost s0 = engine@.states;
    proof {
        lemma_add_trans(s0, ns as int, MatcherV::Epsilon, lv.start, total as int);
    }
    link(&mut engine, ns, lstart);
    let ghost s1 = engine@.states;
    proof {
        lemma_add_trans(s1, ns as int, MatcherV::Epsilon, rv.start + nl, total as int);
    }
    link(&mut engine, ns, rstart + nl);
    let ghost s2 = engine@.states;
    proof {
        lemma_add_trans(s2, lv.end, MatcherV::Epsilon, ne as int, total as int);
    }
    link(&mut engine, lend, ne);
    let ghost s3 = engine@.states;
    proof {
        lemma_add_trans(s3, rv.end + nl, MatcherV::Epsilon, ne as int, total as int);
    }
    link(&mut engine, rend + nl, ne);
    proof {
        assert(engine@ == union_v(lv, rv));
        assert(engine_wf(engine@));
    }
    engine
}

/// The concatenation of two engines (`Concat`).
fn concat_nfa(left: Engine, right: Engine) -> (r: Engine)
    requires
        engine_wf(left@),
        engine_wf(right@),
        left@.states.len() + right@.states.len() + 2 <= usize::MAX,
    ensures
        r@ == concat_v(left@, right@),
        engine_wf(r@),
        r@.states.len() == left@.states.len() + right@.states.len() + 2,
{
    let ghost lv = left@;
    let ghost rv = right@;
    let nl = left.states.len();
    let lstart = left.start_state;
    let lend = left.end_state;
    let rstart = right.start_state;
    let rend = right.end_state;
    let ns = nl + right.states.len();
    let ne = ns + 1;
    let total = ns + 2;
    let mut engine = merged_nfa(left, right);
    let ghost s0 = engine@.states;
    proof {
        lemma_add_trans(s0, lv.end, MatcherV::Epsilon, rv.start + nl, total as int);
    }
    link(&mut engine, lend, rstart + nl);
    let ghost s1 = engine@.states;
    proof {
        lemma_add_trans(s1, ns as int, MatcherV::Epsilon, lv.start, total as int);
    }
    link(&mut engine, ns, lstart);
    let ghost s2 = engine@.states;
    proof {
        lemma_add_trans(s2, rv.end + nl, MatcherV::Epsilon, ne as int, total as int);
    }
    link(&mut engine, rend + nl, ne);
    proof {
        assert(engine@ == concat_v(lv, rv));
        assert(engine_wf(engine@));
    }
    engine
}

/// Wraps `engine` with a quantifier, greedy or lazy: the order in which the
/// epsilon transitions are inserted encodes the preferred branch.
fn special_nfa_quantifier(engine: Engine, lazy: bool, quantifier: Quantifier) -> (r: Engine)
    requires
        engine_wf(engine@),
        engine@.states.len() + 2 <= usize::MAX,
    ensures
        r@ == quant_v(engine@, lazy, quantifier),
        engine_wf(r@),
        r@.states.len() == engine@.states.len() + 2,
{
    let ghost ev = engine@;
    let ns = engine.states.len();
    let ne = ns + 1;
    let total = ns + 2;
    let istart = engine.start_state;
    let iend = engine.end_state;
    let Engine { states: inner, start_state: _, end_state: _ } = engine;
    let mut new_engine = Engine::new();
    new_engine.add_states(inner);
    proof {
        assert((Seq::<StateV>::empty() + ev.states) =~= ev.states);
    }
    new_engine.set_start_state(ns);
    new_engine.set_end_state(ne);
    let mut two: Vec<State> = Vec::new();
    two.push(State::new(ns));
    two.push(State::new(ne));
    proof {
        assert(state_views(two@) =~= seq![
            StateV { id: ns as int, transitions: Seq::empty() },
            StateV { id: ne as int, transitions: Seq::empty() },
        ]) by {
            assert(state_views(two@)[0] == two@[0]@);
            assert(state_views(two@)[1] == two@[1]@);
        }
    }
    new_engine.add_states(two);
    proof {
        assert(new_engine@.states =~= grown_v(ev));
        assert(dense_ids(new_engine@.states) && targets_lt(new_engine@.states, total as int)) by {
            assert forall|j: int| 0 <= j < new_engine@.states.len() implies (
            #[trigger] new_engine@.states[j]).id == j by {
                if j < ns {
                    assert(new_engine@.states[j] == ev.states[j]);
                }
            }
            assert forall|j: int, k: int|
                0 <= j < new_engine@.states.len() && 0 <= k
                    < new_engine@.states[j].transitions.len() implies 0 <= (
            #[trigger] new_engine@.states[j].transitions[k]).1 < total by {
                if j < ns {
                    assert(new_engine@.states[j] == ev.states[j]);
                    assert(0 <= ev.states[j].transitions[k].1 < ns);
                } else {
                    assert(new_engine@.states[j].transitions.len() == 0);
                }
            }
        }
    }
    match quantifier {
        Quantifier::Star => {
            if lazy {
                let ghost s0 = new_engine@.states;
                proof {
                    lemma_add_trans(s0, ns as int, MatcherV::Epsilon, ne as int, total as int);
                }
                link(&mut new_engine, ns, ne);
                let ghost s1 = new_engine@.states;
                proof {
                    lemma_add_trans(s1, ns as int, MatcherV::Epsilon, ev.start, total as int);
                }
                link(&mut new_engine, ns, istart);
                let ghost s2 = new_engine@.states;
                proof {
                    lemma_add_trans(s2, ev.end, MatcherV::Epsilon, ne as int, total as int);
                }
                link(&mut new_engine, iend, ne);
                let ghost s3 = new_engine@.states;
                proof {
                    lemma_add_trans(s3, ev.end, MatcherV::Epsilon, ns as int, total as int);
                }
                link(&mut new_engine, iend, ns);
            } else {
                let ghost s0 = new_engine@.states;
                proof {
                    lemma_add_trans(s0, ns as int, MatcherV::Epsilon, ev.start, total as int);
                }
                link(&mut new_engine, ns, istart);
                let ghost s1 = new_engine@.states;
                proof {
                    lemma_add_trans(s1, ns as int, MatcherV::Epsilon, ne as int, total as int);
                }
                link(&mut new_engine, ns, ne);
                let ghost s2 = new_engine@.states;
                proof {
                    lemma_add_trans(s2, ev.end, MatcherV::Epsilon, ns as int, total as int);
                }
                link(&mut new_engine, iend, ns);
                let ghost s3 = new_engine@.states;
                proof {
                    lemma_add_trans(s3, ev.end, MatcherV::Epsilon, ne as int, total as int);
                }
                link(&mut new_engine, iend, ne);
            }
        },
        Quantifier::Question => {
            if lazy {
                let ghost s0 = new_engine@.states;
                proof {
                    lemma_add_trans(s0, ns as int, MatcherV::Epsilon, ne as int, total as int);
                }
                link(&mut new_engine, ns, ne);
                let ghost s1 = new_engine@.states;
                proof {
                    lemma_add_trans(s1, ns as int, MatcherV::Epsilon, ev.start, total as int);
                }
                link(&mut new_engine, ns, istart);
            } else {
                let ghost s0 = new_engine@.states;
                proof {
                    lemma_add_trans(s0, ns as int, MatcherV::Epsilon, ev.start, total as int);
                }
                link(&mut new_engine, ns, istart);
                let ghost s1 = new_engine@.states;
                proof {
                    lemma_add_trans(s1, ns as int, MatcherV::Epsilon, ne as int, total as int);
                }
                link(&mut new_engine, ns, ne);
            }
            let ghost s2 = new_engine@.states;
            proof {
                lemma_add_trans(s2, ev.end, MatcherV::Epsilon, ne as int, total as int);
            }
            link(&mut new_engine, iend, ne);
        },
        Quantifier::Plus => {
            if lazy {
                let ghost s0 = new_engine@.states;
                proof {
                    lemma_add_trans(s0, ev.end, MatcherV::Epsilon, ne as int, total as int);
                }
                link(&mut new_engine, iend, ne);
                let ghost s1 = new_engine@.states;
                proof {
                    lemma_add_trans(s1, ev.end, MatcherV::Epsilon, ns as int, total as int);
                }
                link(&mut new_engine, iend, ns);
            } else {
                let ghost s0 = new_engine@.states;
                proof {
                    lemma_add_trans(s0, ev.end, MatcherV::Epsilon, ns as int, total as int);
                }
                link(&mut new_engine, iend, ns);
                let ghost s1 = new_engine@.states;
                proof {
                    lemma_add_trans(s1, ev.end, MatcherV::Epsilon, ne as int, total as int);
                }
                link(&mut new_engine, iend, ne);
            }
            let ghost s2 = new_engine@.states;
            proof {
                lemma_add_trans(s2, ns as int, MatcherV::Epsilon, ev.start, total as int);
            }
            link(&mut new_engine, ns, istart);
        },
    }
    proof {
        assert(new_engine@ == quant_v(ev, lazy, quantifier));
        assert(engine_wf(new_engine@));
    }
    new_engine
}

/// An engine sequence, viewed mathematically.
pub open spec fn eng_views(es: Seq<Engine>) -> Seq<EngineV> {
    es.map_values(|e: Engine| e@)
}

/// Pushing an engine appends its view.
proof fn lemma_eng_views_push(pre: Seq<Engine>, post: Seq<Engine>, ev: EngineV)
    requires
        post.len() == pre.len() + 1,
        forall|m: int| 0 <= m < pre.len() ==> post[m] == pre[m],
        post[pre.len() as int]@ == ev,
    ensures
        eng_views(post) == eng_views(pre).push(ev),
{
    assert forall|m: int| 0 <= m < post.len() implies eng_views(post)[m] == eng_views(pre).push(
        ev,
    )[m] by {
        assert(eng_views(post)[m] == post[m]@);
        if m < pre.len() {
            assert(post[m]@ == eng_views(pre)[m]);
        }
    }
    assert(eng_views(post) =~= eng_views(pre).push(ev));
}

/// Popping an engine drops its view.
proof fn lemma_eng_views_drop_last(pre: Seq<Engine>, post: Seq<Engine>)
    requires
        pre.len() > 0,
        post.len() == pre.len() - 1,
        forall|m: int| 0 <= m < post.len() ==> post[m] == pre[m],
    ensures
        eng_views(post) == eng_views(pre).drop_last(),
        eng_views(pre).last() == pre.last()@,
{
    assert forall|m: int| 0 <= m < post.len() implies eng_views(post)[m] == eng_views(
        pre,
    ).drop_last()[m] by {
        assert(eng_views(post)[m] == post[m]@);
        assert(eng_views(pre)[m] == pre[m]@);
    }
    assert(eng_views(post) =~= eng_views(pre).drop_last());
}

/// The total number of states held by a stack of engines.
pub open spec fn sizes_sum(es: Seq<EngineV>) -> int
    decreases es.len(),
{
    if es.len() == 0 {
        0
    } else {
        sizes_sum(es.drop_last()) + es.last().states.len()
    }
}

proof fn lemma_sizes_nonneg(es: Seq<EngineV>)
    ensures
        sizes_sum(es) >= 0,
    decreases es.len(),
{
    if es.len() > 0 {
        lemma_sizes_nonneg(es.drop_last());
    }
}

proof fn lemma_sizes_push(es: Seq<EngineV>, e: EngineV)
    ensures
        sizes_sum(es.push(e)) == sizes_sum(es) + e.states.len(),
{
    assert((es.push(e)).drop_last() =~= es);
    assert((es.push(e)).last() == e);
}

/// Evaluates a postfix token stream with a stack of engines, from position
/// `j`: operand tokens push leaf engines; a quantifier (fused with a
/// following `?` into its lazy form) rewraps the top engine; `Concat` and
/// `Or` combine the top two; anchors pass through; anything else marks a
/// malformed stream, as does an underflow.
pub open spec fn build_from(ts: Seq<TokenV>, j: int, stack: Seq<EngineV>) -> Result<
    Seq<EngineV>,
    CompileError,
>
    decreases ts.len() - j,
    when 0 <= j <= ts.len()
{
    if j >= ts.len() {
        Ok(stack)
    } else {
        match ts[j] {
            TokenV::Literal(c) => build_from(
                ts,
                j + 1,
                stack.push(leaf_v(MatcherV::CharSet { chars: Set::empty().insert(c), negated: false })),
            ),
            TokenV::ComplexLiteral(s) => match spec_complex(s) {
                Ok(m) => build_from(ts, j + 1, stack.push(leaf_v(m))),
                Err(e) => Err(e),
            },
            TokenV::Star => if stack.len() == 0 {
                Err(CompileError::Internal)
            } else {
                let lazy = j + 1 < ts.len() && ts[j + 1] is Question;
                build_from(
                    ts,
                    j + (if lazy { 2int } else { 1int }),
                    stack.drop_last().push(quant_v(stack.last(), lazy, Quantifier::Star)),
                )
            },
            TokenV::Question => if stack.len() == 0 {
                Err(CompileError::Internal)
            } else {
                let lazy = j + 1 < ts.len() && ts[j + 1] is Question;
                build_from(
                    ts,
                    j + (if lazy { 2int } else { 1int }),
                    stack.drop_last().push(quant_v(stack.last(), lazy, Quantifier::Question)),
                )
            },
            TokenV::Plus => if stack.len() == 0 {
                Err(CompileError::Internal)
            } else {
                let lazy = j + 1 < ts.len() && ts[j + 1] is Question;
                build_from(
                    ts,
                    j + (if lazy { 2int } else { 1int }),
                    stack.drop_last().push(quant_v(stack.last(), lazy, Quantifier::Plus)),
                )
            },
            TokenV::Or => if stack.len() < 2 {
                Err(CompileError::Internal)
            } else {
                build_from(
                    ts,
                    j + 1,
                    stack.drop_last().drop_last().push(
                        union_v(stack[stack.len() - 2], stack[stack.len() - 1]),
                    ),
                )
            },
            TokenV::Concat => if stack.len() < 2 {
                Err(CompileError::Internal)
            } else {
                build_from(
                    ts,
                    j + 1,
                    stack.drop_last().drop_last().push(
                        concat_v(stack[stack.len() - 2], stack[stack.len() - 1]),
                    ),
                )
            },
            TokenV::StartRef => build_from(ts, j + 1, stack),
            TokenV::EndRef => build_from(ts, j + 1, stack),
            TokenV::LBracket => Err(CompileError::Internal),
            TokenV::RBracket => Err(CompileError::Internal),
        }
    }
}

/// The engine a postfix stream builds: evaluating it must leave exactly one
/// engine on the stack.
pub open spec fn spec_build(ts: Seq<TokenV>) -> Result<EngineV, CompileError> {
    match build_from(ts, 0, Seq::empty()) {
        Err(e) => Err(e),
        Ok(st) => if st.len() == 1 {
            Ok(st[0])
        } else {
            Err(CompileError::Internal)
        },
    }
}

/// Folds a postfix token stream into one engine.
#[verifier::loop_isolation(false)]
#[verifier::rlimit(100)]
fn create_engine(tokens: &Vec<Token>) -> (r: Result<Engine, CompileError>)
    requires
        tokens@.len() <= 0x8000000,
    ensures
        match r {
            Ok(e) => spec_build(tok_views(tokens@)) == Ok::<EngineV, CompileError>(e@)
                && engine_wf(e@),
            Err(err) => spec_build(tok_views(tokens@)) == Err::<EngineV, CompileError>(err),
        },
{
    let ghost ts = tok_views(tokens@);
    let n = tokens.len();
    let mut stack: Vec<Engine> = Vec::new();
    let mut j: usize = 0;
    proof {
        assert(eng_views(stack@) =~= Seq::<EngineV>::empty());
    }
    while j < n
        invariant
            j <= n,
            build_from(ts, 0, Seq::empty()) == build_from(ts, j as int, eng_views(stack@)),
            forall|m: int|
                0 <= m < eng_views(stack@).len() ==> engine_wf(#[trigger] eng_views(stack@)[m]),
            sizes_sum(eng_views(stack@)) <= 2 * j,
        decreases n - j,
    {
        let ghost pre = stack@;
        let ghost prev = eng_views(stack@);
        proof {
            assert(ts[j as int] == tokens@[j as int]@);
        }
        match &tokens[j] {
            Token::Literal(c) => {
                let e = literal_nfa(*c);
                let ghost ev = e@;
                stack.push(e);
                proof {
                    lemma_eng_views_push(pre, stack@, ev);
                    lemma_sizes_push(prev, ev);
                }
                j += 1;
            },
            Token::ComplexLiteral(txt) => {
                match comple_nfa(txt.as_str()) {
                    Ok(e) => {
                        let ghost ev = e@;
                        stack.push(e);
                        proof {
                            lemma_eng_views_push(pre, stack@, ev);
                            lemma_sizes_push(prev, ev);
                        }
                        j += 1;
                    },
                    Err(err) => {
                        proof {
                            assert(build_from(ts, j as int, prev) == Err::<
                                Seq<EngineV>,
                                CompileError,
                            >(err));
                        }
                        return Err(err);
                    },
                }
            },
            Token::Star => {
                if stack.len() == 0 {
                    return Err(CompileError::Internal);
                }
                let lazy = j + 1 < n && matches!(&tokens[j + 1], Token::Question);
                proof {
                    if j + 1 < n {
                        assert(ts[j + 1 as int] == tokens@[j + 1 as int]@);
                    }
                    lemma_eng_views_drop_last(pre, pre.drop_last());
                    lemma_sizes_nonneg(prev.drop_last());
                    assert(sizes_sum(prev) == sizes_sum(prev.drop_last())
                        + prev.last().states.len());
                }
                let inner = stack.pop().unwrap();
                let e = special_nfa_quantifier(inner, lazy, Quantifier::Star);
                let ghost ev = e@;
                let ghost mid = stack@;
                stack.push(e);
                proof {
                    lemma_eng_views_push(mid, stack@, ev);
                    lemma_sizes_push(prev.drop_last(), ev);
                }
                j += if lazy {
                    2
                } else {
                    1
                };
            },
            Token::Question => {
                if stack.len() == 0 {
                    return Err(CompileError::Internal);
                }
                let lazy = j + 1 < n && matches!(&tokens[j + 1], Token::Question);
                proof {
                    if j + 1 < n {
                        assert(ts[j + 1 as int] == tokens@[j + 1 as int]@);
                    }
                    lemma_eng_views_drop_last(pre, pre.drop_last());
                    lemma_sizes_nonneg(prev.drop_last());
                    assert(sizes_sum(prev) == sizes_sum(prev.drop_last())
                        + prev.last().states.len());
                }
                let inner = stack.pop().unwrap();
                let e = special_nfa_quantifier(inner, lazy, Quantifier::Question);
                let ghost ev = e@;
                let ghost mid = stack@;
                stack.push(e);
                proof {
                    lemma_eng_views_push(mid, stack@, ev);
                    lemma_sizes_push(prev.drop_last(), ev);
                }
                j += if lazy {
                    2
                } else {
                    1
                };
            },
            Token::Plus => {
                if stack.len() == 0 {
                    return Err(CompileError::Internal);
                }
                let lazy = j + 1 < n && matches!(&tokens[j + 1], Token::Question);
                proof {
                    if j + 1 < n {
                        assert(ts[j + 1 as int] == tokens@[j + 1 as int]@);
                    }
                    lemma_eng_views_drop_last(pre, pre.drop_last());
                    lemma_sizes_nonneg(prev.drop_last());
                    assert(sizes_sum(prev) == sizes_sum(prev.drop_last())
                        + prev.last().states.len());
                }
                let inner = stack.pop().unwrap();
                let e = special_nfa_quantifier(inner, lazy, Quantifier::Plus);
                let ghost ev = e@;
                let ghost mid = stack@;
                stack.push(e);
                proof {
                    lemma_eng_views_push(mid, stack@, ev);
                    lemma_sizes_push(prev.drop_last(), ev);
                }
                j += if lazy {
                    2
                } else {
                    1
                };
            },
            Token::Or => {
                if stack.len() < 2 {
                    return Err(CompileError::Internal);
                }
                proof {
                    lemma_eng_views_drop_last(pre, pre.drop_last());
                    lemma_eng_views_drop_last(pre.drop_last(), pre.drop_last().drop_last());
                    lemma_sizes_nonneg(prev.drop_last().drop_last());
                    assert(sizes_sum(prev) == sizes_sum(prev.drop_last())
                        + prev.last().states.len());
                    assert(sizes_sum(prev.drop_last()) == sizes_sum(prev.drop_last().drop_last())
                        + prev.drop_last().last().states.len());
                    assert(prev.drop_last().last() == prev[prev.len() - 2]);
                }
                let right = stack.pop().unwrap();
                let left = stack.pop().unwrap();
                proof {
                    assert(left@ == prev[prev.len() - 2] && right@ == prev[prev.len() - 1]);
                    assert(left@.states.len() + right@.states.len() <= sizes_sum(prev));
                }
                let e = union_nfa(left, right);
                let ghost ev = e@;
                let ghost mid = stack@;
                stack.push(e);
                proof {
                    lemma_eng_views_push(mid, stack@, ev);
                    lemma_sizes_push(prev.drop_last().drop_last(), ev);
                }
                j += 1;
            },
            Token::Concat => {
                if stack.len() < 2 {
                    return Err(CompileError::Internal);
                }
                proof {
                    lemma_eng_views_drop_last(pre, pre.drop_last());
                    lemma_eng_views_drop_last(pre.drop_last(), pre.drop_last().drop_last());
                    lemma_sizes_nonneg(prev.drop_last().drop_last());
                    assert(sizes_sum(prev) == sizes_sum(prev.drop_last())
                        + prev.last().states.len());
                    assert(sizes_sum(prev.drop_last()) == sizes_sum(prev.drop_last().drop_last())
                        + prev.drop_last().last().states.len());
                    assert(prev.drop_last().last() == prev[prev.len() - 2]);
                }
                let right = stack.pop().unwrap();
                let left = stack.pop().unwrap();
                proof {
                    assert(left@ == prev[prev.len() - 2] && right@ == prev[prev.len() - 1]);
                    assert(left@.states.len() + right@.states.len() <= sizes_sum(prev));
                }
                let e = concat_nfa(left, right);
                let ghost ev = e@;
                let ghost mid = stack@;
                stack.push(e);
                proof {
                    lemma_eng_views_push(mid, stack@, ev);
                    lemma_sizes_push(prev.drop_last().drop_last(), ev);
                }
                j += 1;
            },
            Token::StartRef => {
                j += 1;
            },
            Token::EndRef => {
                j += 1;
            },
            Token::LBracket => {
                return Err(CompileError::Internal);
            },
            Token::RBracket => {
                return Err(CompileError::Internal);
            },
        }
    }
    proof {
        assert(build_from(ts, n as int, eng_views(stack@)) == Ok::<Seq<EngineV>, CompileError>(
            eng_views(stack@),
        ));
    }
    if stack.len() == 1 {
        let ghost fin = eng_views(stack@);
        let e = stack.pop().unwrap();
        proof {
            assert(e@ == fin[0]);
            assert(spec_build(ts) == Ok::<EngineV, CompileError>(fin[0]));
        }
        Ok(e)
    } else {
        Err(CompileError::Internal)
    }
}

/// What compiling a pattern yields: the engine together with the two anchor
/// flags read off the head and tail of the postfix stream.
pub open spec fn spec_compile(p: Seq<char>) -> Result<(EngineV, bool, bool), CompileError> {
    match spec_postfix(p) {
        Err(e) => Err(e),
        Ok(ts) => match spec_build(ts) {
            Err(e) => Err(e),
            Ok(eng) => Ok(
                (eng, ts.len() > 0 && ts[0] is StartRef, ts.len() > 0 && ts.last() is EndRef),
            ),
        },
    }
}

/// The sliding-window search: whether some start offset at or after `off`
/// yields a match, subject to the end-anchor rule.
pub open spec fn slide(eng: EngineV, ends_with: bool, input: Seq<char>, off: int) -> bool
    decreases input.len() - off,
    when 0 <= off <= input.len()
{
    if off >= input.len() {
        false
    } else {
        match search(eng, input, eng.start, off, Set::empty()) {
            Some(e) => if ends_with {
                e == input.len()
            } else {
                true
            },
            None => slide(eng, ends_with, input, off + 1),
        }
    }
}

/// Whether a compiled pattern matches a line: an empty line matches iff the
/// engine accepts without consuming; a start-anchored pattern is tried only
/// at offset 0; otherwise every offset is tried in increasing order.  With
/// an end anchor the match must reach the end of the line exactly.
pub open spec fn spec_matches(
    eng: EngineV,
    starts_with: bool,
    ends_with: bool,
    input: Seq<char>,
) -> bool {
    if input.len() == 0 {
        search(eng, input, eng.start, 0, Set::empty()) is Some
    } else if starts_with {
        match search(eng, input, eng.start, 0, Set::empty()) {
            Some(e) => if ends_with {
                e == input.len()
            } else {
                true
            },
            None => false,
        }
    } else {
        slide(eng, ends_with, input, 0)
    }
}

/// The mathematical value of a [`RegexNFA`].
#[verifier::ext_equal]
pub struct RegexNFAV {
    pub engine: EngineV,
    pub pattern: Seq<char>,
    pub starts_with: bool,
    pub ends_with: bool,
}

/// A compiled pattern: the engine plus the two anchor flags, ready to be
/// matched against any number of lines.
#[derive(Debug)]
pub struct RegexNFA {
    pub engine: Engine,
    pub pattern: String,
    pub starts_with: bool,
    pub ends_with: bool,
}

impl View for RegexNFA {
    type V = RegexNFAV;

    open spec fn view(&self) -> RegexNFAV {
        RegexNFAV {
            engine: self.engine@,
            pattern: self.pattern@,
            starts_with: self.starts_with,
            ends_with: self.ends_with,
        }
    }
}

impl RegexNFA {
    /// The compiled engine is well formed.
    pub open spec fn wf(&self) -> bool {
        engine_wf(self@.engine)
    }

    /// The pattern this matcher was compiled from.
    pub fn pattern(&self) -> (r: &str)
        ensures
            r@ == self@.pattern,
    {
        self.pattern.as_str()
    }

    /// Compiles `pattern`: rewrites it to postfix form and folds that into
    /// an engine, reading the anchor flags off the ends of the stream.
    pub fn new(pattern: String) -> (r: Result<RegexNFA, CompileError>)
        requires
            pattern@.len() <= 0x1000000,
        ensures
            match r {
                Ok(m) => spec_compile(pattern@) == Ok::<(EngineV, bool, bool), CompileError>(
                    (m@.engine, m@.starts_with, m@.ends_with),
                ) && m@.pattern == pattern@ && m.wf() && m.engine@ == m@.engine,
                Err(e) => spec_compile(pattern@) == Err::<(EngineV, bool, bool), CompileError>(e),
            },
    {
        let toks = match postfix_generator(pattern.as_str()) {
            Ok(v) => v,
            Err(e) => {
                return Err(e);
            },
        };
        let ghost ts = tok_views(toks@);
        proof {
            crate::parser::lemma_spec_postfix_len(pattern@);
        }
        let engine = match create_engine(&toks) {
            Ok(e) => e,
            Err(e) => {
                return Err(e);
            },
        };
        let starts_with = toks.len() > 0 && matches!(&toks[0], Token::StartRef);
        let ends_with = toks.len() > 0 && matches!(&toks[toks.len() - 1], Token::EndRef);
        proof {
            if toks@.len() > 0 {
                assert(ts[0] == toks@[0]@);
                assert(ts.last() == toks@[toks@.len() - 1]@);
            }
        }
        Ok(RegexNFA { engine, pattern, starts_with, ends_with })
    }

    /// Whether this pattern matches `input` under the anchor policy.
    #[verifier::loop_isolation(false)]
    pub fn matches(&self, input: &str) -> (r: bool)
        requires
            self.wf(),
        ensures
            r == spec_matches(self@.engine, self@.starts_with, self@.ends_with, input@),
    {
        let cs = crate::matcher::chars_of(input);
        let n = cs.len();
        let empty: Vec<usize> = Vec::new();
        proof {
            crate::engine::lemma_mem_set_empty(empty@);
        }
        if n == 0 {
            let r0 = self.engine.run(&cs, self.engine.start_state, 0, &empty);
            return r0.is_some();
        }
        if self.starts_with {
            match self.engine.run(&cs, self.engine.start_state, 0, &empty) {
                Some(e) => {
                    if self.ends_with {
                        return e == n;
                    }
                    return true;
                },
                None => {
                    return false;
                },
            }
        }
        let mut off: usize = 0;
        while off < n
            invariant
                0 <= off <= n,
                n == input@.len(),
                cs@ == input@,
                self.wf(),
                spec_matches(self@.engine, self@.starts_with, self@.ends_with, input@) == slide(
                    self@.engine,
                    self@.ends_with,
                    input@,
                    off as int,
                ),
                !self.starts_with,
                n > 0,
            decreases n - off,
        {
            match self.engine.run(&cs, self.engine.start_state, off, &empty) {
                Some(e) => {
                    if self.ends_with {
                        return e == n;
                    }
                    return true;
                },
                None => {},
            }
            off += 1;
        }
        false
    }
}

/// Compiles `pattern` and matches it against `input_line` in one step.
pub fn match_pattern(input_line: &str, pattern: &str) -> (r: Result<bool, CompileError>)
    requires
        pattern@.len() <= 0x1000000,
    ensures
        match r {
            Ok(b) => (match spec_compile(pattern@) {
                Ok(c) => b == spec_matches(c.0, c.1, c.2, input_line@),
                Err(_) => false,
            }),
            Err(e) => spec_compile(pattern@) == Err::<(EngineV, bool, bool), CompileError>(e),
        },
{
    match RegexNFA::new(String::from_str(pattern)) {
        Ok(m) => Ok(m.matches(input_line)),
        Err(e) => Err(e),
    }
}

} // verus!
