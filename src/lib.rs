//! Compiles the derivation trees of a context-free grammar into a finite-state
//! automaton whose transitions record the productions they complete.
use vstd::prelude::*;

pub mod automaton;
pub mod compile;
pub mod derivation;
pub mod symbol;

pub use automaton::{AtomicEntry, FiniteStateAutomaton, State, StateErrors, Transition};
pub use derivation::{BranchGroup, Derivation, DerivationEntry, DerivationNode};
pub use symbol::{Atom, Nonterminal, Rule, Rules, Symbol, Terminal};

verus! {

} // verus!
