//! The LR(1) automaton: an arena of distinct states with transitions
//! between state indices.
use vstd::prelude::*;
use crate::bounds::lemma_push_contains;
use crate::item::Item;
use crate::item_set::CanonicalCollection;
use crate::symbol::Symbol;

verus! {

/// A deterministic automaton whose states are item sets, stored once each
/// and named by their index.
pub struct DFA {
    states: Vec<CanonicalCollection>,
    transitions: Vec<(usize, Symbol, usize)>,
}

impl DFA {
    /// The item set of each state, by index.
    pub closed spec fn state_sets(&self) -> Seq<Set<Item>> {
        Seq::new(self.states@.len(), |i: int| self.states@[i]@)
    }

    /// The transitions `(from, symbol, to)`.
    pub closed spec fn transition_set(&self) -> Set<(usize, Symbol, usize)> {
        self.transitions@.to_set()
    }

    pub closed spec fn states_wf(&self) -> bool {
        &&& forall|i: int| 0 <= i < self.states@.len() ==> (#[trigger] self.states@[i]).wf()
        &&& self.transitions@.no_duplicates()
    }

    pub open spec fn wf(&self) -> bool {
        &&& self.states_wf()
        &&& forall|i: int, j: int| 0 <= i < j < self.state_sets().len() ==> self.state_sets()[i] != self.state_sets()[j]
        &&& forall|f: usize, x: Symbol, t: usize| #[trigger] self.transition_set().contains((f, x, t))
            ==> f < self.state_sets().len() && t < self.state_sets().len()
        &&& forall|f: usize, x: Symbol, t1: usize, t2: usize|
            #[trigger] self.transition_set().contains((f, x, t1)) && #[trigger] self.transition_set().contains((f, x, t2))
                ==> t1 == t2
    }

    pub fn new() -> (r: DFA)
        ensures
            r.wf(),
            r.state_sets() == Seq::<Set<Item>>::empty(),
            r.transition_set() == Set::<(usize, Symbol, usize)>::empty(),
    {
        let r = DFA { states: Vec::new(), transitions: Vec::new() };
        assert(r.state_sets() =~= Seq::<Set<Item>>::empty());
        assert(r.transition_set() =~= Set::<(usize, Symbol, usize)>::empty());
        r
    }

    /// Adds `state` unless a state with the same items is already there;
    /// returns the index of the state with those items.
    pub fn add_state(&mut self, state: CanonicalCollection) -> (id: usize)
        requires
            old(self).wf(),
            state.wf(),
        ensures
            final(self).wf(),
            final(self).transition_set() == old(self).transition_set(),
            old(self).state_sets().contains(state@) ==> final(self).state_sets() == old(self).state_sets(),
            !old(self).state_sets().contains(state@) ==> final(self).state_sets() == old(self).state_sets().push(state@),
            id < final(self).state_sets().len(),
            final(self).state_sets()[id as int] == state@,
    {
        match self.lookup_state_id(&state) {
            Some(id) => id,
            None => {
                let id = self.states.len();
                self.states.push(state);
                assert(self.state_sets() =~= old(self).state_sets().push(state@));
                assert forall|i: int, j: int| 0 <= i < j < self.state_sets().len() implies self.state_sets()[i] != self.state_sets()[j] by {
                    if j == id {
                        assert(old(self).state_sets()[i] == self.state_sets()[i]);
                    }
                }
                assert forall|i: int| 0 <= i < self.states@.len() implies (#[trigger] self.states@[i]).wf() by {
                    if i < id {
                        assert(self.states@[i] == old(self).states@[i]);
                    }
                }
                assert(self.transition_set() == old(self).transition_set());
                assert(self.states_wf());
                id
            },
        }
    }

    /// Records the transition `from --on--> to`, replacing any earlier
    /// target of `from` on `on`.
    pub fn add_transition(&mut self, from: usize, to: usize, on: Symbol)
        requires
            old(self).wf(),
            from < old(self).state_sets().len(),
            to < old(self).state_sets().len(),
        ensures
            final(self).wf(),
            final(self).state_sets() == old(self).state_sets(),
            forall|f: usize, x: Symbol, t: usize| #[trigger] final(self).transition_set().contains((f, x, t))
                <==> if f == from && x == on {
                    t == to
                } else {
                    old(self).transition_set().contains((f, x, t))
                },
    {
        let ghost old_t = self.transitions@;
        let mut kept: Vec<(usize, Symbol, usize)> = Vec::new();
        let mut i: usize = 0;
        while i < self.transitions.len()
            invariant
                old_t == self.transitions@,
                old_t.no_duplicates(),
                0 <= i <= old_t.len(),
                kept@.no_duplicates(),
                forall|y: (usize, Symbol, usize)| #[trigger] kept@.contains(y) <==> (!(y.0 == from && y.1 == on)
                    && exists|j: int| 0 <= j < i && old_t[j] == y),
            decreases old_t.len() - i,
        {
            let e = self.transitions[i];
            let ghost before = kept@;
            if !(e.0 == from && e.1 == on) {
                proof {
                    if before.contains(e) {
                        let j = choose|j: int| 0 <= j < i && old_t[j] == e;
                        assert(old_t[j] == old_t[i as int]);
                    }
                }
                kept.push(e);
            }
            assert forall|y: (usize, Symbol, usize)| #[trigger] kept@.contains(y) <==> (!(y.0 == from && y.1 == on)
                && exists|j: int| 0 <= j < i + 1 && old_t[j] == y) by {
                lemma_push_contains(before, e, y);
                if exists|j: int| 0 <= j < i + 1 && old_t[j] == y {
                    let j = choose|j: int| 0 <= j < i + 1 && old_t[j] == y;
                    if j < i {
                        assert(exists|j: int| 0 <= j < i && old_t[j] == y);
                    }
                }
                if exists|j: int| 0 <= j < i && old_t[j] == y {
                    let j = choose|j: int| 0 <= j < i && old_t[j] == y;
                    assert(0 <= j < i + 1);
                }
            }
            i = i + 1;
        }
        let ghost before = kept@;
        assert(!before.contains((from, on, to)));
        kept.push((from, on, to));
        assert forall|y: (usize, Symbol, usize)| #[trigger] kept@.contains(y) <==> (before.contains(y) || y == (from, on, to)) by {
            lemma_push_contains(before, (from, on, to), y);
        }
        self.transitions = kept;
        assert forall|f: usize, x: Symbol, t: usize| #[trigger] self.transition_set().contains((f, x, t))
            <==> if f == from && x == on {
                t == to
            } else {
                old(self).transition_set().contains((f, x, t))
            } by {
            if old_t.contains((f, x, t)) {
                let j = choose|j: int| 0 <= j < old_t.len() && old_t[j] == (f, x, t);
            }
        }
        assert(self.state_sets() =~= old(self).state_sets());
        assert(self.transitions@.no_duplicates());
        assert(self.states@ == old(self).states@);
        assert(self.states_wf());
        assert forall|f: usize, x: Symbol, t1: usize, t2: usize|
            #[trigger] self.transition_set().contains((f, x, t1)) && #[trigger] self.transition_set().contains((f, x, t2))
                implies t1 == t2 by {
            if !(f == from && x == on) {
                assert(old(self).transition_set().contains((f, x, t1)));
                assert(old(self).transition_set().contains((f, x, t2)));
            }
        }
        assert forall|f: usize, x: Symbol, t: usize| #[trigger] self.transition_set().contains((f, x, t))
            implies f < self.state_sets().len() && t < self.state_sets().len() by {
            if !(f == from && x == on) {
                assert(old(self).transition_set().contains((f, x, t)));
            }
        }
    }

    /// The states, by index.
    pub fn enumerate_states(&self) -> (r: &Vec<CanonicalCollection>)
        requires
            self.wf(),
        ensures
            r@.len() == self.state_sets().len(),
            forall|i: int| 0 <= i < r@.len() ==> (#[trigger] r@[i]).wf() && r@[i]@ == self.state_sets()[i],
    {
        &self.states
    }

    pub fn state(&self, id: usize) -> (r: &CanonicalCollection)
        requires
            self.wf(),
            id < self.state_sets().len(),
        ensures
            r.wf(),
            r@ == self.state_sets()[id as int],
    {
        &self.states[id]
    }

    /// The target of the transition from state `from` on `on`, if any.
    pub fn transition_from_on(&self, from: usize, on: Symbol) -> (r: Option<usize>)
        requires
            self.wf(),
        ensures
            match r {
                Some(t) => self.transition_set().contains((from, on, t)),
                None => forall|t: usize| !self.transition_set().contains((from, on, t)),
            },
    {
        let mut i: usize = 0;
        while i < self.transitions.len()
            invariant
                0 <= i <= self.transitions.len(),
                forall|k: int| 0 <= k < i ==> !(self.transitions@[k].0 == from && self.transitions@[k].1 == on),
            decreases self.transitions.len() - i,
        {
            let (f, x, t) = self.transitions[i];
            if f == from && x == on {
                assert(self.transitions@.contains(self.transitions@[i as int]));
                return Some(t);
            }
            i = i + 1;
        }
        assert forall|t: usize| !self.transition_set().contains((from, on, t)) by {
            if self.transitions@.contains((from, on, t)) {
                let k = choose|k: int| 0 <= k < self.transitions@.len() && self.transitions@[k] == (from, on, t);
            }
        }
        None
    }

    /// The index of the state with the same items as `state`, if any.
    pub fn lookup_state_id(&self, state: &CanonicalCollection) -> (r: Option<usize>)
        requires
            self.wf(),
            state.wf(),
        ensures
            match r {
                Some(id) => id < self.state_sets().len() && self.state_sets()[id as int] == state@,
                None => !self.state_sets().contains(state@),
            },
    {
        let mut i: usize = 0;
        while i < self.states.len()
            invariant
                self.wf(),
                state.wf(),
                0 <= i <= self.states.len(),
                forall|k: int| 0 <= k < i ==> self.state_sets()[k] != state@,
            decreases self.states.len() - i,
        {
            assert(self.states@[i as int].wf());
            if self.states[i].same_items(state) {
                return Some(i);
            }
            i = i + 1;
        }
        None
    }

    pub fn number_of_states(&self) -> (r: usize)
        ensures
            r == self.state_sets().len(),
    {
        self.states.len()
    }
}

} // verus!
