//! The compiled NFA: a state arena with designated start and end states,
//! and the backtracking simulator that runs it.

use vstd::prelude::*;

use crate::matcher::{accepts, Matcher, MatcherV};
use crate::state::{shift_state, trans_views, State, StateV};

verus! {

/// The mathematical value of an [`Engine`]: the state arena and the start
/// and end ids.
#[verifier::ext_equal]
pub struct EngineV {
    pub states: Seq<StateV>,
    pub start: int,
    pub end: int,
}

/// A compiled NFA.  States are held in an arena; cross-references are plain
/// indices into it.
#[derive(Debug)]
pub struct Engine {
    pub states: Vec<State>,
    pub start_state: usize,
    pub end_state: usize,
}

/// The state arena of `states`, viewed mathematically.
pub open spec fn state_views(states: Seq<State>) -> Seq<StateV> {
    states.map_values(|s: State| s@)
}

impl View for Engine {
    type V = EngineV;

    open spec fn view(&self) -> EngineV {
        EngineV {
            states: state_views(self.states@),
            start: self.start_state as int,
            end: self.end_state as int,
        }
    }
}

/// Ids are dense: the state at index `j` carries id `j`.
pub open spec fn dense_ids(ss: Seq<StateV>) -> bool {
    forall|j: int| 0 <= j < ss.len() ==> (#[trigger] ss[j]).id == j
}

/// Every transition target lies below `n`.
pub open spec fn targets_lt(ss: Seq<StateV>, n: int) -> bool {
    forall|j: int, k: int|
        0 <= j < ss.len() && 0 <= k < ss[j].transitions.len() ==> 0 <= (
        #[trigger] ss[j].transitions[k]).1 < n
}

/// Well-formedness of an engine: ids are dense (state `j` has id `j`), the
/// start and end ids reference existing states, and every transition target
/// lies inside the arena.
pub open spec fn engine_wf(e: EngineV) -> bool {
    &&& 0 <= e.start < e.states.len()
    &&& 0 <= e.end < e.states.len()
    &&& dense_ids(e.states)
    &&& targets_lt(e.states, e.states.len() as int)
}

/// `e` with every id shifted up by `n`.
pub open spec fn shift_engine(e: EngineV, n: int) -> EngineV {
    EngineV {
        states: e.states.map_values(|s: StateV| shift_state(s, n)),
        start: e.start + n,
        end: e.end + n,
    }
}

/// The first index in `states` holding a state with id `id`, or `-1`.
pub open spec fn find_state(states: Seq<StateV>, id: int, j: int) -> int
    decreases states.len() - j,
    when 0 <= j <= states.len()
{
    if j >= states.len() {
        -1
    } else if states[j].id == id {
        j
    } else {
        find_state(states, id, j + 1)
    }
}

impl Engine {
    /// An empty engine.
    pub fn new() -> (r: Engine)
        ensures
            r@ == (EngineV { states: Seq::empty(), start: 0, end: 0 }),
    {
        let r = Engine { states: Vec::new(), start_state: 0, end_state: 0 };
        proof {
            assert(r@.states =~= Seq::<StateV>::empty());
        }
        r
    }

    /// Appends states to the arena.
    pub fn add_states(&mut self, state: Vec<State>)
        ensures
            final(self)@ == (EngineV {
                states: old(self)@.states + state_views(state@),
                start: old(self)@.start,
                end: old(self)@.end,
            }),
    {
        let ghost added = state@;
        let mut more = state;
        self.states.append(&mut more);
        proof {
            assert(state_views(old(self).states@ + added) =~= state_views(old(self).states@)
                + state_views(added));
        }
    }

    /// Designates the start state.
    pub fn set_start_state(&mut self, state_id: usize)
        ensures
            final(self)@ == (EngineV {
                states: old(self)@.states,
                start: state_id as int,
                end: old(self)@.end,
            }),
    {
        self.start_state = state_id;
    }

    /// Designates the end state.
    pub fn set_end_state(&mut self, state_id: usize)
        ensures
            final(self)@ == (EngineV {
                states: old(self)@.states,
                start: old(self)@.start,
                end: state_id as int,
            }),
    {
        self.end_state = state_id;
    }

    /// Appends a transition to the first state whose id is `from_state`; an
    /// engine holding no such state is left unchanged.
    pub fn add_transition(&mut self, from_state: usize, matcher: Matcher, to_state: usize)
        ensures
            ({
                let f = find_state(old(self)@.states, from_state as int, 0);
                if f < 0 {
                    final(self)@ == old(self)@
                } else {
                    final(self)@ == (EngineV {
                        states: old(self)@.states.update(
                            f,
                            StateV {
                                id: old(self)@.states[f].id,
                                transitions: old(self)@.states[f].transitions.push(
                                    (matcher@, to_state as int),
                                ),
                            },
                        ),
                        start: old(self)@.start,
                        end: old(self)@.end,
                    })
                }
            }),
    {
        let ghost mv = matcher@;
        let n = self.states.len();
        let mut idx: usize = n;
        let mut j: usize = 0;
        while j < n
            invariant
                j <= n,
                n == self.states@.len(),
                *self == *old(self),
                idx == n || (idx < j && old(self)@.states[idx as int].id == from_state
                    && find_state(old(self)@.states, from_state as int, 0) == idx as int),
                idx == n ==> forall|m: int|
                    0 <= m < j ==> (#[trigger] old(self)@.states[m]).id != from_state,
                idx == n ==> find_state(old(self)@.states, from_state as int, 0) == find_state(
                    old(self)@.states,
                    from_state as int,
                    j as int,
                ),
            decreases n - j,
        {
            if idx == n && self.states[j].id == from_state {
                proof {
                    assert(find_state(old(self)@.states, from_state as int, j as int) == j);
                }
                idx = j;
            }
            j += 1;
        }
        if idx < n {
            let ghost f = idx as int;
            let ghost orig = old(self)@.states[f];
            let mut tmp = State::new(0);
            self.states.set_and_swap(idx, &mut tmp);
            proof {
                assert(tmp == old(self).states@[f]);
                assert(tmp@ == orig);
            }
            tmp.add_transition(matcher, to_state);
            let ghost tmpv = tmp@;
            self.states.set(idx, tmp);
            proof {
                let target = old(self)@.states.update(
                    f,
                    StateV {
                        id: old(self)@.states[f].id,
                        transitions: old(self)@.states[f].transitions.push((mv, to_state as int)),
                    },
                );
                assert forall|m: int| 0 <= m < self.states@.len() implies state_views(
                    self.states@,
                )[m] == target[m] by {
                    assert(state_views(self.states@)[m] == self.states@[m]@);
                    if m == f {
                        assert(self.states@[m]@ == tmpv);
                    } else {
                        assert(self.states@[m] == old(self).states@[m]);
                    }
                }
                assert(state_views(self.states@) =~= target);
            }
        } else {
            proof {
                assert(find_state(old(self)@.states, from_state as int, 0) == -1);
            }
        }
    }

    /// Shifts every id in the engine up by `shift`.
    pub fn shift_ids(&mut self, shift: usize)
        requires
            old(self)@.start + shift <= usize::MAX,
            old(self)@.end + shift <= usize::MAX,
            forall|j: int|
                0 <= j < old(self)@.states.len() ==> (#[trigger] old(self)@.states[j]).id + shift
                    <= usize::MAX,
            forall|j: int, k: int|
                0 <= j < old(self)@.states.len() && 0 <= k
                    < old(self)@.states[j].transitions.len() ==> (#[trigger] old(
                    self,
                )@.states[j].transitions[k]).1 + shift <= usize::MAX,
        ensures
            final(self)@ == shift_engine(old(self)@, shift as int),
    {
        let n = self.states.len();
        let mut j: usize = 0;
        while j < n
            invariant
                j <= n,
                n == self.states@.len(),
                self.states@.len() == old(self).states@.len(),
                self.start_state == old(self).start_state,
                self.end_state == old(self).end_state,
                old(self)@.start + shift <= usize::MAX,
                old(self)@.end + shift <= usize::MAX,
                forall|m: int|
                    0 <= m < old(self)@.states.len() ==> (#[trigger] old(self)@.states[m]).id
                        + shift <= usize::MAX,
                forall|m: int, k: int|
                    0 <= m < old(self)@.states.len() && 0 <= k < old(
                        self,
                    )@.states[m].transitions.len() ==> (#[trigger] old(
                        self,
                    )@.states[m].transitions[k]).1 + shift <= usize::MAX,
                forall|m: int| j <= m < n ==> self.states@[m]@ == old(self)@.states[m],
                forall|m: int|
                    0 <= m < j ==> #[trigger] self.states@[m]@ == shift_state(
                        old(self)@.states[m],
                        shift as int,
                    ),
            decreases n - j,
        {
            let mut tmp = State::new(0);
            self.states.set_and_swap(j, &mut tmp);
            proof {
                assert(tmp@ == old(self)@.states[j as int]);
            }
            tmp.shift_ids(shift);
            self.states.set(j, tmp);
            j += 1;
        }
        self.start_state = self.start_state + shift;
        self.end_state = self.end_state + shift;
        proof {
            let sh = shift_engine(old(self)@, shift as int);
            assert forall|m: int| 0 <= m < self.states@.len() implies state_views(self.states@)[m]
                == sh.states[m] by {
                assert(self.states@[m]@ == shift_state(old(self)@.states[m], shift as int));
            }
            assert(state_views(self.states@) =~= sh.states);
        }
    }
}

/// The set of ids a duplicate-free id vector holds.
pub open spec fn mem_set(s: Seq<usize>) -> Set<int> {
    s.map_values(|x: usize| x as int).to_set()
}

/// The conditions under which the spec-level search is defined: the engine
/// is well formed, the cursor is inside the window, and the visited set
/// holds state ids only.
pub open spec fn search_ok(eng: EngineV, input: Seq<char>, i: int, mem: Set<int>) -> bool {
    &&& engine_wf(eng)
    &&& 0 <= i <= input.len()
    &&& mem.finite()
    &&& forall|x: int| mem.contains(x) ==> 0 <= x < eng.states.len()
}

/// The first successful end offset of the depth-first search from state
/// `sid` at cursor `i`, or `None`.  `mem` holds the states already reached
/// by epsilon transitions at this cursor, blocking epsilon cycles.
pub open spec fn search(eng: EngineV, input: Seq<char>, sid: int, i: int, mem: Set<int>) -> Option<
    int,
>
    decreases input.len() - i, eng.states.len() - mem.len(), 1int, 0int,
    when search_ok(eng, input, i, mem) && 0 <= sid < eng.states.len()
    via search_dec
{
    if sid == eng.end {
        Some(i)
    } else {
        try_from(eng, eng.states[sid].transitions, 0, input, i, mem)
    }
}

/// Tries the transitions of one state in insertion order, starting at index
/// `k`: the first transition whose sub-search succeeds decides the result.
/// An epsilon transition keeps the cursor and extends `mem`; a consuming
/// transition must accept the character at the cursor, advances it, and
/// clears `mem`.
pub open spec fn try_from(
    eng: EngineV,
    trans: Seq<(MatcherV, int)>,
    k: int,
    input: Seq<char>,
    i: int,
    mem: Set<int>,
) -> Option<int>
    decreases input.len() - i, eng.states.len() - mem.len(), 0int, trans.len() - k,
    when search_ok(eng, input, i, mem) && 0 <= k && (forall|m: int|
        0 <= m < trans.len() ==> 0 <= (#[trigger] trans[m]).1 < eng.states.len())
    via try_from_dec
{
    if k >= trans.len() {
        None
    } else {
        let tgt = trans[k].1;
        let att = if trans[k].0 is Epsilon {
            if mem.contains(tgt) {
                None
            } else {
                search(eng, input, tgt, i, mem.insert(tgt))
            }
        } else {
            if i < input.len() && accepts(trans[k].0, input[i]) {
                search(eng, input, tgt, i + 1, Set::empty())
            } else {
                None
            }
        };
        if att is Some {
            att
        } else {
            try_from(eng, trans, k + 1, input, i, mem)
        }
    }
}

/// A finite set of ids below `n` holds at most `n` elements.
pub(crate) proof fn lemma_mem_card(mem: Set<int>, n: int)
    requires
        mem.finite(),
        n >= 0,
        forall|x: int| mem.contains(x) ==> 0 <= x < n,
    ensures
        mem.len() <= n,
{
    vstd::set_lib::lemma_int_range(0, n);
    vstd::set_lib::lemma_len_subset(mem, vstd::set_lib::set_int_range(0, n));
}

#[via_fn]
proof fn search_dec(eng: EngineV, input: Seq<char>, sid: int, i: int, mem: Set<int>) {
    lemma_mem_card(mem, eng.states.len() as int);
}

#[via_fn]
proof fn try_from_dec(
    eng: EngineV,
    trans: Seq<(MatcherV, int)>,
    k: int,
    input: Seq<char>,
    i: int,
    mem: Set<int>,
) {
    broadcast use vstd::set::axiom_set_insert_len;

    lemma_mem_card(mem, eng.states.len() as int);
    if k < trans.len() {
        let tgt = trans[k].1;
        if trans[k].0 is Epsilon && !mem.contains(tgt) {
            assert(mem.insert(tgt).finite());
            assert(forall|x: int|
                mem.insert(tgt).contains(x) ==> 0 <= x < eng.states.len());
            lemma_mem_card(mem.insert(tgt), eng.states.len() as int);
            assert(mem.insert(tgt).len() == mem.len() + 1);
        }
    }
}

/// Whether `v` holds `x`.
fn vec_contains_usize(v: &Vec<usize>, x: usize) -> (r: bool)
    ensures
        r == v@.contains(x),
{
    let mut j: usize = 0;
    let mut found = false;
    while j < v.len()
        invariant
            j <= v.len(),
            found == exists|k: int| 0 <= k < j && v@[k] == x,
        decreases v.len() - j,
    {
        if v[j] == x {
            found = true;
        }
        j += 1;
    }
    found
}

/// A copy of an id vector.
fn copy_usizes(v: &Vec<usize>) -> (r: Vec<usize>)
    ensures
        r@ == v@,
{
    let mut r: Vec<usize> = Vec::new();
    let mut j: usize = 0;
    while j < v.len()
        invariant
            j <= v.len(),
            r@ == v@.take(j as int),
        decreases v.len() - j,
    {
        r.push(v[j]);
        proof {
            assert(r@ =~= v@.take(j + 1 as int));
        }
        j += 1;
    }
    proof {
        assert(v@.take(v@.len() as int) =~= v@);
    }
    r
}

/// A vector's id set contains exactly the ids it holds.
proof fn lemma_mem_set_contains(s: Seq<usize>, x: usize)
    ensures
        mem_set(s).contains(x as int) == s.contains(x),
{
    if s.contains(x) {
        let k = choose|k: int| 0 <= k < s.len() && s[k] == x;
        assert(s.map_values(|y: usize| y as int)[k] == x as int);
        assert(s.map_values(|y: usize| y as int).contains(x as int));
    }
    if mem_set(s).contains(x as int) {
        let m = s.map_values(|y: usize| y as int);
        let k = choose|k: int| 0 <= k < m.len() && m[k] == x as int;
        assert(s[k] as int == x as int);
        assert(s[k] == x);
    }
}

/// Appending an id inserts it into the vector's id set.
proof fn lemma_mem_set_push(s: Seq<usize>, x: usize)
    ensures
        mem_set(s.push(x)) == mem_set(s).insert(x as int),
{
    let mp = s.push(x).map_values(|y: usize| y as int);
    let m = s.map_values(|y: usize| y as int);
    assert forall|k: int| 0 <= k < mp.len() implies mp[k] == m.push(x as int)[k] by {
        if k < s.len() {
            assert(s.push(x)[k] == s[k]);
        } else {
            assert(s.push(x)[k] == x);
        }
    }
    assert(mp =~= m.push(x as int));
    m.lemma_push_to_set_commute(x as int);
    assert(mem_set(s.push(x)) =~= mem_set(s).insert(x as int));
}

/// The empty vector's id set is empty.
pub(crate) proof fn lemma_mem_set_empty(s: Seq<usize>)
    requires
        s.len() == 0,
    ensures
        mem_set(s) == Set::<int>::empty(),
{
    assert(s.map_values(|y: usize| y as int).len() == 0);
    assert(mem_set(s) =~= Set::<int>::empty());
}

/// A duplicate-free id vector with ids below `n` holds at most `n` ids.
proof fn lemma_nodup_len(s: Seq<usize>, n: int)
    requires
        s.no_duplicates(),
        forall|k: int| 0 <= k < s.len() ==> s[k] < n,
        n >= 0,
    ensures
        s.len() <= n,
        mem_set(s).len() == s.len(),
        mem_set(s).finite(),
        forall|x: int| mem_set(s).contains(x) ==> 0 <= x < n,
{
    let m = s.map_values(|y: usize| y as int);
    assert(m.no_duplicates()) by {
        assert forall|a: int, b: int|
            0 <= a < m.len() && 0 <= b < m.len() && a != b implies m[a] != m[b] by {
            assert(s[a] != s[b]);
        }
    }
    m.unique_seq_to_set();
    assert forall|x: int| mem_set(s).contains(x) implies 0 <= x < n by {
        let k = choose|k: int| 0 <= k < m.len() && m[k] == x;
        assert(s[k] < n);
    }
    lemma_mem_card(mem_set(s), n);
}

impl Engine {
    /// The depth-first search itself: explores from state `sid` at cursor
    /// `i` with visited set `mem`, returning the first successful end
    /// offset in the order the specification fixes.
    pub(crate) fn run(&self, input: &Vec<char>, sid: usize, i: usize, mem: &Vec<usize>) -> (r: Option<usize>)
        requires
            engine_wf(self@),
            sid < self@.states.len(),
            i <= input@.len(),
            mem@.no_duplicates(),
            forall|k: int| 0 <= k < mem@.len() ==> (#[trigger] mem@[k]) < self.states@.len(),
        ensures
            ({
                let res = search(self@, input@, sid as int, i as int, mem_set(mem@));
                match r {
                    Some(e) => res == Some(e as int) && i <= e <= input@.len(),
                    None => res is None,
                }
            }),
        decreases input@.len() - i, self@.states.len() - mem@.len(),
    {
        proof {
            lemma_nodup_len(mem@, self@.states.len() as int);
        }
        if sid == self.end_state {
            return Some(i);
        }
        let ghost tr = self@.states[sid as int].transitions;
        proof {
            assert(forall|m: int|
                0 <= m < tr.len() ==> 0 <= (#[trigger] tr[m]).1 < self@.states.len());
        }
        let nt = self.states[sid].transitions.len();
        proof {
            assert(nt == tr.len());
        }
        let mut k: usize = 0;
        while k < nt
            invariant
                k <= nt,
                nt == tr.len(),
                engine_wf(self@),
                sid < self@.states.len(),
                sid != self@.end,
                i <= input@.len(),
                mem@.no_duplicates(),
                forall|m: int| 0 <= m < mem@.len() ==> (#[trigger] mem@[m]) < self.states@.len(),
                tr == self@.states[sid as int].transitions,
                try_from(self@, tr, 0, input@, i as int, mem_set(mem@)) == try_from(
                    self@,
                    tr,
                    k as int,
                    input@,
                    i as int,
                    mem_set(mem@),
                ),
            decreases nt - k,
        {
            proof {
                lemma_nodup_len(mem@, self@.states.len() as int);
            }
            let tgt = self.states[sid].transitions[k].1;
            proof {
                assert(tr[k as int].1 == tgt as int);
                assert(tgt < self@.states.len());
            }
            let eps = self.states[sid].transitions[k].0.is_epsilon();
            if eps {
                let seen = vec_contains_usize(mem, tgt);
                proof {
                    lemma_mem_set_contains(mem@, tgt);
                }
                if !seen {
                    let mut m2 = copy_usizes(mem);
                    m2.push(tgt);
                    proof {
                        lemma_mem_set_push(mem@, tgt);
                        assert(m2@.no_duplicates()) by {
                            assert(forall|m: int|
                                0 <= m < mem@.len() ==> (#[trigger] mem@[m]) != tgt) by {
                                assert(!mem@.contains(tgt));
                            }
                        }
                        lemma_nodup_len(m2@, self@.states.len() as int);
                    }
                    let att = self.run(input, tgt, i, &m2);
                    match att {
                        Some(e) => {
                            proof {
                                assert(try_from(self@, tr, k as int, input@, i as int, mem_set(
                                    mem@,
                                )) == Some(e as int));
                            }
                            return Some(e);
                        },
                        None => {
                            proof {
                                assert(try_from(self@, tr, k as int, input@, i as int, mem_set(
                                    mem@,
                                )) == try_from(self@, tr, k + 1, input@, i as int, mem_set(mem@)));
                            }
                        },
                    }
                } else {
                    proof {
                        assert(try_from(self@, tr, k as int, input@, i as int, mem_set(mem@))
                            == try_from(self@, tr, k + 1, input@, i as int, mem_set(mem@)));
                    }
                }
            } else {
                proof {
                    assert(!(tr[k as int].0 is Epsilon)) by {
                        assert(tr[k as int].0 == self.states@[sid as int]@.transitions[k as int].0);
                    }
                }
                let mut consumed = false;
                if i < input.len() {
                    if self.states[sid].transitions[k].0.matches(input[i]) {
                        consumed = true;
                        let empty: Vec<usize> = Vec::new();
                        proof {
                            lemma_mem_set_empty(empty@);
                        }
                        let att = self.run(input, tgt, i + 1, &empty);
                        match att {
                            Some(e) => {
                                proof {
                                    assert(try_from(self@, tr, k as int, input@, i as int, mem_set(
                                        mem@,
                                    )) == Some(e as int));
                                }
                                return Some(e);
                            },
                            None => {
                                proof {
                                    assert(try_from(self@, tr, k as int, input@, i as int, mem_set(
                                        mem@,
                                    )) == try_from(
                                        self@,
                                        tr,
                                        k + 1,
                                        input@,
                                        i as int,
                                        mem_set(mem@),
                                    ));
                                }
                            },
                        }
                    }
                }
                if !consumed {
                    proof {
                        assert(try_from(self@, tr, k as int, input@, i as int, mem_set(mem@))
                            == try_from(self@, tr, k + 1, input@, i as int, mem_set(mem@)));
                    }
                }
            }
            k += 1;
        }
        proof {
            assert(try_from(self@, tr, nt as int, input@, i as int, mem_set(mem@)) is None);
            assert(search(self@, input@, sid as int, i as int, mem_set(mem@)) is None);
        }
        None
    }

    /// Runs the simulator over `input` from the start state at cursor 0:
    /// the end offset of the first successful match, or `-1`.
    pub fn compute(&self, input: &str) -> (r: i32)
        requires
            engine_wf(self@),
            input@.len() <= 0x7FFFFFFF,
        ensures
            ({
                let res = search(self@, input@, self@.start, 0, Set::empty());
                match res {
                    Some(e) => r == e,
                    None => r == -1,
                }
            }),
    {
        let cs = crate::matcher::chars_of(input);
        let empty: Vec<usize> = Vec::new();
        proof {
            lemma_mem_set_empty(empty@);
        }
        match self.run(&cs, self.start_state, 0, &empty) {
            Some(e) => e as i32,
            None => -1,
        }
    }
}

} // verus!
