//! NFA states: an id plus an ordered transition list.

use vstd::prelude::*;

use crate::matcher::{Matcher, MatcherV};

verus! {

/// The mathematical value of a [`State`]: its id and its ordered list of
/// `(matcher, target id)` transitions.  Transition order is semantically
/// significant: the simulator scans it in reverse insertion order.
#[verifier::ext_equal]
pub struct StateV {
    pub id: int,
    pub transitions: Seq<(MatcherV, int)>,
}

/// One NFA state.
#[derive(Debug)]
pub struct State {
    pub id: usize,
    pub transitions: Vec<(Matcher, usize)>,
}

/// The transition list of a state, viewed mathematically.
pub open spec fn trans_views(s: Seq<(Matcher, usize)>) -> Seq<(MatcherV, int)> {
    s.map_values(|p: (Matcher, usize)| (p.0@, p.1 as int))
}

impl View for State {
    type V = StateV;

    open spec fn view(&self) -> StateV {
        StateV { id: self.id as int, transitions: trans_views(self.transitions@) }
    }
}

/// `s` with its id and every transition target shifted up by `n`.
pub open spec fn shift_state(s: StateV, n: int) -> StateV {
    StateV {
        id: s.id + n,
        transitions: s.transitions.map_values(|p: (MatcherV, int)| (p.0, p.1 + n)),
    }
}

impl State {
    /// A fresh state with no transitions.
    pub fn new(id: usize) -> (r: State)
        ensures
            r@ == (StateV { id: id as int, transitions: Seq::empty() }),
    {
        let r = State { id, transitions: Vec::new() };
        proof {
            assert(r@.transitions =~= Seq::<(MatcherV, int)>::empty());
        }
        r
    }

    /// Appends one transition; order is preserved.
    pub fn add_transition(&mut self, c: Matcher, next_state_id: usize)
        ensures
            final(self)@ == (StateV {
                id: old(self)@.id,
                transitions: old(self)@.transitions.push((c@, next_state_id as int)),
            }),
    {
        let ghost cv = c@;
        let ghost pre = self.transitions@;
        self.transitions.push((c, next_state_id));
        proof {
            assert(self@.transitions =~= trans_views(pre).push((cv, next_state_id as int)));
        }
    }

    /// Shifts the id and every transition target up by `shift`.
    pub fn shift_ids(&mut self, shift: usize)
        requires
            old(self)@.id + shift <= usize::MAX,
            forall|k: int|
                0 <= k < old(self)@.transitions.len() ==> (#[trigger] old(
                    self,
                )@.transitions[k]).1 + shift <= usize::MAX,
        ensures
            final(self)@ == shift_state(old(self)@, shift as int),
    {
        self.id = self.id + shift;
        let ghost pre = self.transitions@;
        proof {
            assert forall|m: int| 0 <= m < pre.len() implies (#[trigger] pre[m]).1 + shift
                <= usize::MAX by {
                assert(old(self)@.transitions[m] == (pre[m].0@, pre[m].1 as int));
            }
        }
        let mut k: usize = 0;
        while k < self.transitions.len()
            invariant
                k <= self.transitions@.len(),
                self.transitions@.len() == pre.len(),
                self.id as int == old(self)@.id + shift,
                forall|m: int| 0 <= m < pre.len() ==> (#[trigger] pre[m]).1 + shift <= usize::MAX,
                forall|m: int| k <= m < pre.len() ==> self.transitions@[m] == pre[m],
                forall|m: int|
                    0 <= m < k ==> #[trigger] self.transitions@[m] == (pre[m].0, (pre[m].1
                        + shift) as usize),
            decreases self.transitions@.len() - k,
        {
            let mut p = (Matcher::Epsilon, 0usize);
            self.transitions.set_and_swap(k, &mut p);
            let (m, t) = p;
            proof {
                assert(trans_views(pre)[k as int].1 == pre[k as int].1);
            }
            self.transitions.set(k, (m, t + shift));
            k += 1;
        }
        proof {
            let sh = shift_state(old(self)@, shift as int);
            assert forall|m: int| 0 <= m < pre.len() implies trans_views(self.transitions@)[m]
                == sh.transitions[m] by {
                assert(self.transitions@[m] == (pre[m].0, (pre[m].1 + shift) as usize));
                assert(old(self)@.transitions[m] == (pre[m].0@, pre[m].1 as int));
            }
            assert(trans_views(self.transitions@) =~= sh.transitions);
        }
    }
}

} // verus!
