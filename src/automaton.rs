use vstd::prelude::*;

use crate::symbol::{DeepClone, Rules, RulesV, Symbol, Terminal};

verus! {

/// An automaton state: an opaque identifier.
pub type State = u32;

/// One transition: from `src` on `symbol` to `dst`, completing `rules`.
#[derive(Clone, Debug)]
pub struct Transition {
    pub src: State,
    pub symbol: Symbol,
    pub dst: State,
    pub rules: Option<Rules>,
}

/// A transition as a mathematical value.
pub type EdgeV = (State, Symbol, State, Option<RulesV>);

impl DeepView for Transition {
    type V = EdgeV;

    open spec fn deep_view(&self) -> EdgeV {
        (self.src, self.symbol, self.dst, self.rules.deep_view())
    }
}

/// Where matching `symbol` under lookahead `terminal` starts, and the rule
/// sequences that justify it.
#[derive(Clone, Debug)]
pub struct AtomicEntry {
    pub symbol: Symbol,
    pub terminal: Terminal,
    pub state: State,
    pub rules: Option<Vec<Rules>>,
}

/// The value of an atomic entry: entry state and rule sequences.
pub type AtomicV = (State, Option<Seq<RulesV>>);

/// An atomic entry as a mathematical value: key and value.
pub type EntryV = (Symbol, Terminal, AtomicV);

impl DeepView for AtomicEntry {
    type V = EntryV;

    open spec fn deep_view(&self) -> EntryV {
        (self.symbol, self.terminal, (self.state, self.rules.deep_view()))
    }
}

/// A structural defect found when assembling an automaton.
#[derive(Clone, Copy, Debug, PartialEq, Eq, Structural)]
pub enum StateErrors {
    StartNotInStates(State),
    AcceptingStateNotInStates(State),
    SourceStateNotInStates(State),
    DestinationStateNotInStates(State),
    AtomicEntryStateNotInStates(State),
}

/// A finite-state automaton whose transitions record the productions they complete.
#[derive(Debug)]
pub struct FiniteStateAutomaton {
    states: Vec<State>,
    accepting_states: Vec<State>,
    start: State,
    transitions: Vec<Transition>,
    atomic_to_state: Vec<AtomicEntry>,
}

/// An automaton as a mathematical value.
pub struct AutomatonV {
    pub states: Seq<State>,
    pub accepting: Seq<State>,
    pub start: State,
    pub transitions: Seq<EdgeV>,
    pub atomic: Seq<EntryV>,
}

pub open spec fn all_in(xs: Seq<State>, states: Seq<State>) -> bool {
    forall|i: int| 0 <= i < xs.len() ==> states.contains(#[trigger] xs[i])
}

pub open spec fn sources_in(ts: Seq<EdgeV>, states: Seq<State>) -> bool {
    forall|i: int| 0 <= i < ts.len() ==> states.contains(#[trigger] ts[i].0)
}

pub open spec fn destinations_in(ts: Seq<EdgeV>, states: Seq<State>) -> bool {
    forall|i: int| 0 <= i < ts.len() ==> states.contains(#[trigger] ts[i].2)
}

pub open spec fn entries_in(es: Seq<EntryV>, states: Seq<State>) -> bool {
    forall|i: int| 0 <= i < es.len() ==> states.contains(#[trigger] es[i].2.0)
}

/// The first atomic entry for the key, from index `i` on.
pub open spec fn lookup_from(es: Seq<EntryV>, sym: Symbol, t: Terminal, i: int) -> Option<AtomicV>
    decreases es.len() - i,
{
    if i < 0 || i >= es.len() {
        None
    } else if es[i].0 == sym && es[i].1 == t {
        Some(es[i].2)
    } else {
        lookup_from(es, sym, t, i + 1)
    }
}

impl AutomatonV {
    pub open spec fn has_state(self, s: State) -> bool {
        self.states.contains(s)
    }

    pub open spec fn accepts(self, s: State) -> bool {
        self.accepting.contains(s)
    }

    /// The set of transitions.
    pub open spec fn edges(self) -> Set<EdgeV> {
        Set::new(|e: EdgeV| self.transitions.contains(e))
    }

    /// The transitions leaving `s` on `sym`, as (destination, rules) pairs.
    pub open spec fn step_set(self, s: State, sym: Symbol) -> Set<(State, Option<RulesV>)> {
        Set::new(|d: (State, Option<RulesV>)| self.transitions.contains((s, sym, d.0, d.1)))
    }

    /// The atomic entry table, as a partial function: where two entries share
    /// a key, the first one is the entry.
    pub open spec fn atomic_of(self, sym: Symbol, t: Terminal) -> Option<AtomicV> {
        lookup_from(self.atomic, sym, t, 0)
    }

    /// The five structural invariants.
    pub open spec fn wf(self) -> bool {
        &&& self.states.contains(self.start)
        &&& all_in(self.accepting, self.states)
        &&& sources_in(self.transitions, self.states)
        &&& destinations_in(self.transitions, self.states)
        &&& entries_in(self.atomic, self.states)
    }
}

/// The mathematical value of an automaton assembled from these parts.
pub open spec fn parts_view(
    states: Seq<State>,
    accepting: Seq<State>,
    start: State,
    transitions: Seq<Transition>,
    atomic: Seq<AtomicEntry>,
) -> AutomatonV {
    AutomatonV {
        states,
        accepting,
        start,
        transitions: transitions.map_values(|t: Transition| t.deep_view()),
        atomic: atomic.map_values(|e: AtomicEntry| e.deep_view()),
    }
}

impl View for FiniteStateAutomaton {
    type V = AutomatonV;

    closed spec fn view(&self) -> AutomatonV {
        parts_view(self.states@, self.accepting_states@, self.start, self.transitions@, self.atomic_to_state@)
    }
}

impl FiniteStateAutomaton {
    /// Freezes parts already known to satisfy the invariants.
    pub(crate) fn from_parts(
        states: Vec<State>,
        accepting_states: Vec<State>,
        start: State,
        transitions: Vec<Transition>,
        atomic_to_state: Vec<AtomicEntry>,
    ) -> (r: FiniteStateAutomaton)
        requires
            parts_view(states@, accepting_states@, start, transitions@, atomic_to_state@).wf(),
        ensures
            r@ == parts_view(states@, accepting_states@, start, transitions@, atomic_to_state@),
    {
        FiniteStateAutomaton { states, accepting_states, start, transitions, atomic_to_state }
    }

    /// Assembles an automaton from its parts, rejecting any part that names a
    /// state outside `states`. Atomic entries may repeat a key: lookups use
    /// the first entry with that key (see `AutomatonV::atomic_of`).
    pub fn new(
        states: Vec<State>,
        accepting_states: Vec<State>,
        start: State,
        transitions: Vec<Transition>,
        atomic_to_state: Vec<AtomicEntry>,
    ) -> (r: Result<FiniteStateAutomaton, StateErrors>)
        ensures
            ({
                let v = parts_view(states@, accepting_states@, start, transitions@, atomic_to_state@);
                &&& r.is_ok() <==> v.wf()
                &&& match r {
                    Ok(a) => a@ == v,
                    Err(StateErrors::StartNotInStates(s)) => s == start && !v.has_state(start),
                    Err(StateErrors::AcceptingStateNotInStates(s)) => {
                        &&& v.has_state(start)
                        &&& v.accepting.contains(s)
                        &&& !v.has_state(s)
                    },
                    Err(StateErrors::SourceStateNotInStates(s)) => {
                        &&& v.has_state(start)
                        &&& all_in(v.accepting, v.states)
                        &&& exists|i: int| 0 <= i < v.transitions.len() && #[trigger] v.transitions[i].0 == s
                        &&& !v.has_state(s)
                    },
                    Err(StateErrors::DestinationStateNotInStates(s)) => {
                        &&& v.has_state(start)
                        &&& all_in(v.accepting, v.states)
                        &&& sources_in(v.transitions, v.states)
                        &&& exists|i: int| 0 <= i < v.transitions.len() && #[trigger] v.transitions[i].2 == s
                        &&& !v.has_state(s)
                    },
                    Err(StateErrors::AtomicEntryStateNotInStates(s)) => {
                        &&& v.has_state(start)
                        &&& all_in(v.accepting, v.states)
                        &&& sources_in(v.transitions, v.states)
                        &&& destinations_in(v.transitions, v.states)
                        &&& exists|i: int| 0 <= i < v.atomic.len() && #[trigger] v.atomic[i].2.0 == s
                        &&& !v.has_state(s)
                    },
                }
            }),
    {
        let ghost v = parts_view(states@, accepting_states@, start, transitions@, atomic_to_state@);
        if !contains_state(&states, start) {
            return Err(StateErrors::StartNotInStates(start));
        }
        let mut i: usize = 0;
        while i < accepting_states.len()
            invariant
                0 <= i <= accepting_states.len(),
                v == parts_view(states@, accepting_states@, start, transitions@, atomic_to_state@),
                v.has_state(start),
                forall|j: int| 0 <= j < i ==> states@.contains(#[trigger] accepting_states@[j]),
            decreases accepting_states.len() - i,
        {
            if !contains_state(&states, accepting_states[i]) {
                assert(v.accepting[i as int] == accepting_states@[i as int]);
                return Err(StateErrors::AcceptingStateNotInStates(accepting_states[i]));
            }
            i += 1;
        }
        let mut i: usize = 0;
        while i < transitions.len()
            invariant
                0 <= i <= transitions.len(),
                v == parts_view(states@, accepting_states@, start, transitions@, atomic_to_state@),
                v.has_state(start),
                all_in(v.accepting, v.states),
                forall|j: int| 0 <= j < i ==> states@.contains(#[trigger] v.transitions[j].0),
            decreases transitions.len() - i,
        {
            if !contains_state(&states, transitions[i].src) {
                assert(v.transitions[i as int].0 == transitions[i as int].src);
                return Err(StateErrors::SourceStateNotInStates(transitions[i].src));
            }
            i += 1;
        }
        let mut i: usize = 0;
        while i < transitions.len()
            invariant
                0 <= i <= transitions.len(),
                v == parts_view(states@, accepting_states@, start, transitions@, atomic_to_state@),
                v.has_state(start),
                all_in(v.accepting, v.states),
                sources_in(v.transitions, v.states),
                forall|j: int| 0 <= j < i ==> states@.contains(#[trigger] v.transitions[j].2),
            decreases transitions.len() - i,
        {
            if !contains_state(&states, transitions[i].dst) {
                assert(v.transitions[i as int].2 == transitions[i as int].dst);
                return Err(StateErrors::DestinationStateNotInStates(transitions[i].dst));
            }
            i += 1;
        }
        let mut i: usize = 0;
        while i < atomic_to_state.len()
            invariant
                0 <= i <= atomic_to_state.len(),
                v == parts_view(states@, accepting_states@, start, transitions@, atomic_to_state@),
                v.has_state(start),
                all_in(v.accepting, v.states),
                sources_in(v.transitions, v.states),
                destinations_in(v.transitions, v.states),
                forall|j: int| 0 <= j < i ==> states@.contains(#[trigger] v.atomic[j].2.0),
            decreases atomic_to_state.len() - i,
        {
            if !contains_state(&states, atomic_to_state[i].state) {
                assert(v.atomic[i as int].2.0 == atomic_to_state[i as int].state);
                return Err(StateErrors::AtomicEntryStateNotInStates(atomic_to_state[i].state));
            }
            i += 1;
        }
        Ok(FiniteStateAutomaton { states, accepting_states, start, transitions, atomic_to_state })
    }

    /// Every transition leaving `curr_state` on `symbol`, with whether its
    /// destination is accepting; `None` when there is none.
    pub fn simulate(&self, curr_state: &State, symbol: Symbol) -> (r: Option<Vec<(State, Option<Rules>, bool)>>)
        ensures
            r.is_none() <==> self@.step_set(*curr_state, symbol).is_empty(),
            match r {
                Some(v) => {
                    &&& (forall|d: (State, Option<RulesV>)|
                        #[trigger] self@.step_set(*curr_state, symbol).contains(d) <==> step_view(v@).contains(d))
                    &&& (forall|k: int| 0 <= k < v@.len() ==> (#[trigger] v@[k]).2 == self@.accepts(v@[k].0))
                },
                None => true,
            },
    {
        let ghost ts = self@.transitions;
        let mut res: Vec<(State, Option<Rules>, bool)> = Vec::new();
        let mut i: usize = 0;
        while i < self.transitions.len()
            invariant
                0 <= i <= self.transitions.len(),
                ts == self@.transitions,
                ts.len() == self.transitions@.len(),
                forall|d: (State, Option<RulesV>)| #[trigger] step_view(res@).contains(d) <==>
                    exists|j: int| 0 <= j < i && ts[j] == (*curr_state, symbol, d.0, d.1),
                forall|k: int| 0 <= k < res@.len() ==> (#[trigger] res@[k]).2 == self@.accepts(res@[k].0),
            decreases self.transitions.len() - i,
        {
            let t = &self.transitions[i];
            proof {
                assert(ts[i as int] == t.deep_view());
            }
            let ghost old_res = res@;
            if t.src == *curr_state && t.symbol == symbol {
                let acc = self.is_accepting(&t.dst);
                res.push((t.dst, t.rules.deep_clone(), acc));
                proof {
                    assert(step_view(res@) =~= step_view(old_res).push((t.dst, t.rules.deep_view())));
                }
            }
            proof {
                assert forall|d: (State, Option<RulesV>)| #[trigger] step_view(res@).contains(d) <==>
                    exists|j: int| 0 <= j < i + 1 && ts[j] == (*curr_state, symbol, d.0, d.1) by {
                    if step_view(res@).contains(d) && !step_view(old_res).contains(d) {
                        assert(ts[i as int] == (*curr_state, symbol, d.0, d.1));
                    }
                    if exists|j: int| 0 <= j < i + 1 && ts[j] == (*curr_state, symbol, d.0, d.1) {
                        let j = choose|j: int| 0 <= j < i + 1 && ts[j] == (*curr_state, symbol, d.0, d.1);
                        if j == i {
                            assert(step_view(res@).last() == d);
                        } else {
                            assert(step_view(old_res).contains(d));
                            let k = choose|k: int| 0 <= k < old_res.len() && step_view(old_res)[k] == d;
                            assert(step_view(res@)[k] == d);
                        }
                    }
                }
            }
            i += 1;
        }
        proof {
            assert forall|d: (State, Option<RulesV>)|
                #[trigger] self@.step_set(*curr_state, symbol).contains(d) <==> step_view(res@).contains(d) by {
                if self@.step_set(*curr_state, symbol).contains(d) {
                    let j = choose|j: int| 0 <= j < ts.len() && ts[j] == (*curr_state, symbol, d.0, d.1);
                }
            }
        }
        if res.len() == 0 {
            proof {
                assert(self@.step_set(*curr_state, symbol) =~= Set::empty());
            }
            None
        } else {
            proof {
                let d = step_view(res@)[0];
                assert(self@.step_set(*curr_state, symbol).contains(d));
                assert(!Set::<(State, Option<RulesV>)>::empty().contains(d));
            }
            Some(res)
        }
    }

    pub fn is_accepting(&self, curr_state: &State) -> (r: bool)
        ensures
            r == self@.accepts(*curr_state),
    {
        contains_state(&self.accepting_states, *curr_state)
    }

    /// The start state and whether it is accepting.
    pub fn get_start(&self) -> (r: (State, bool))
        ensures
            r.0 == self@.start,
            r.1 == self@.accepts(self@.start),
    {
        (self.start, self.is_accepting(&self.start))
    }

    /// The entry state for `symbol` under lookahead `terminal`, its rule
    /// sequences, and whether the entry state is accepting.
    pub fn get_atomic(&self, symbol: Symbol, terminal: Terminal) -> (r: Option<(State, Option<Vec<Rules>>, bool)>)
        ensures
            match self@.atomic_of(symbol, terminal) {
                Some(e) => r.is_some() && r.unwrap().0 == e.0 && r.unwrap().1.deep_view() == e.1
                    && r.unwrap().2 == self@.accepts(e.0),
                None => r.is_none(),
            },
    {
        let mut i: usize = 0;
        while i < self.atomic_to_state.len()
            invariant
                0 <= i <= self.atomic_to_state.len(),
                self@.atomic.len() == self.atomic_to_state@.len(),
                self@.atomic_of(symbol, terminal) == lookup_from(self@.atomic, symbol, terminal, i as int),
            decreases self.atomic_to_state.len() - i,
        {
            let e = &self.atomic_to_state[i];
            proof {
                assert(self@.atomic[i as int] == e.deep_view());
            }
            if e.symbol == symbol && e.terminal == terminal {
                let acc = self.is_accepting(&e.state);
                return Some((e.state, e.rules.deep_clone(), acc));
            }
            i += 1;
        }
        None
    }

    /// Whether any transition leaves `curr_state`.
    pub fn has_transition(&self, curr_state: &State) -> (r: bool)
        ensures
            r == exists|e: EdgeV| #[trigger] self@.edges().contains(e) && e.0 == *curr_state,
    {
        let ghost ts = self@.transitions;
        let mut i: usize = 0;
        while i < self.transitions.len()
            invariant
                0 <= i <= self.transitions.len(),
                ts == self@.transitions,
                ts.len() == self.transitions@.len(),
                forall|j: int| 0 <= j < i ==> (#[trigger] ts[j]).0 != *curr_state,
            decreases self.transitions.len() - i,
        {
            proof {
                assert(ts[i as int] == self.transitions@[i as int].deep_view());
            }
            if self.transitions[i].src == *curr_state {
                assert(self@.edges().contains(ts[i as int]));
                return true;
            }
            i += 1;
        }
        proof {
            assert forall|e: EdgeV| #[trigger] self@.edges().contains(e) implies e.0 != *curr_state by {
                let j = choose|j: int| 0 <= j < ts.len() && ts[j] == e;
                assert(ts[j].0 != *curr_state);
            }
        }
        false
    }
}

/// The (destination, rules) pairs of a list of steps.
pub open spec fn step_view(v: Seq<(State, Option<Rules>, bool)>) -> Seq<(State, Option<RulesV>)> {
    v.map_values(|x: (State, Option<Rules>, bool)| (x.0, x.1.deep_view()))
}

/// Whether `s` occurs in `v`.
pub fn contains_state(v: &Vec<State>, s: State) -> (r: bool)
    ensures
        r == v@.contains(s),
{
    let mut i: usize = 0;
    while i < v.len()
        invariant
            0 <= i <= v.len(),
            forall|j: int| 0 <= j < i ==> v@[j] != s,
        decreases v.len() - i,
    {
        if v[i] == s {
            assert(v@[i as int] == s);
            return true;
        }
        i += 1;
    }
    false
}

} // verus!
