use vstd::prelude::*;

verus! {

/// A terminal of the grammar: an input symbol matched literally.
pub type Terminal = u32;

/// A nonterminal of the grammar, expanded by one of its productions.
pub type Nonterminal = u32;

/// A label of an automaton transition.
#[derive(Clone, Copy, Debug, PartialEq, Eq, Hash, Structural)]
pub enum Symbol {
    Terminal(Terminal),
    Nonterminal(Nonterminal),
    Epsilon,
}

impl DeepView for Symbol {
    type V = Symbol;

    open spec fn deep_view(&self) -> Symbol {
        *self
    }
}

/// One grammar production: a nonterminal and one of its right-hand sides.
#[derive(Clone, Debug, PartialEq, Eq)]
pub struct Rule {
    pub lhs: Nonterminal,
    pub rhs: Vec<Symbol>,
}

/// A production as a mathematical value.
pub type RuleV = (Nonterminal, Seq<Symbol>);

/// A rule sequence as a mathematical value: the productions completed, in order.
pub type RulesV = Seq<RuleV>;

impl DeepView for Rule {
    type V = RuleV;

    open spec fn deep_view(&self) -> RuleV {
        (self.lhs, self.rhs.deep_view())
    }
}

/// An ordered sequence of productions completed by taking one transition.
pub type Rules = Vec<Rule>;

/// Structural equality, decided on the mathematical value.
pub trait DeepEq: DeepView + Sized {
    fn deep_eq(&self, other: &Self) -> (r: bool)
        ensures
            r == (self.deep_view() == other.deep_view()),
    ;
}

impl DeepEq for Symbol {
    fn deep_eq(&self, other: &Self) -> (r: bool) {
        *self == *other
    }
}

impl DeepEq for Rule {
    fn deep_eq(&self, other: &Self) -> (r: bool) {
        self.lhs == other.lhs && self.rhs.deep_eq(&other.rhs)
    }
}

impl DeepEq for bool {
    fn deep_eq(&self, other: &Self) -> (r: bool) {
        *self == *other
    }
}

impl<T: DeepEq> DeepEq for Vec<T> {
    fn deep_eq(&self, other: &Self) -> (r: bool) {
        if self.len() != other.len() {
            assert(self.deep_view().len() != other.deep_view().len());
            return false;
        }
        let mut i: usize = 0;
        while i < self.len()
            invariant
                self.len() == other.len(),
                0 <= i <= self.len(),
                forall|j: int| 0 <= j < i ==> self@[j].deep_view() == other@[j].deep_view(),
            decreases self.len() - i,
        {
            if !self[i].deep_eq(&other[i]) {
                assert(self.deep_view()[i as int] != other.deep_view()[i as int]);
                return false;
            }
            i += 1;
        }
        assert(self.deep_view() =~= other.deep_view());
        true
    }
}

impl<T: DeepEq> DeepEq for Option<T> {
    fn deep_eq(&self, other: &Self) -> (r: bool) {
        match (self, other) {
            (Some(a), Some(b)) => a.deep_eq(b),
            (None, None) => true,
            _ => false,
        }
    }
}

/// Copying that keeps the mathematical value.
pub trait DeepClone: DeepView + Sized {
    fn deep_clone(&self) -> (r: Self)
        ensures
            r.deep_view() == self.deep_view(),
    ;
}

impl DeepClone for Symbol {
    fn deep_clone(&self) -> (r: Self) {
        *self
    }
}

impl DeepClone for Rule {
    fn deep_clone(&self) -> (r: Self) {
        Rule { lhs: self.lhs, rhs: self.rhs.deep_clone() }
    }
}

impl<T: DeepClone> DeepClone for Vec<T> {
    fn deep_clone(&self) -> (r: Self) {
        let mut r: Vec<T> = Vec::new();
        let mut i: usize = 0;
        while i < self.len()
            invariant
                0 <= i <= self.len(),
                r@.len() == i,
                forall|j: int| 0 <= j < i ==> r@[j].deep_view() == self@[j].deep_view(),
            decreases self.len() - i,
        {
            r.push(self[i].deep_clone());
            i += 1;
        }
        assert(r.deep_view() =~= self.deep_view());
        r
    }
}

impl<T: DeepClone> DeepClone for Option<T> {
    fn deep_clone(&self) -> (r: Self) {
        match self {
            Some(a) => Some(a.deep_clone()),
            None => None,
        }
    }
}

/// One element of a branch of a derivation tree.
#[derive(Clone, Debug)]
pub enum Atom {
    Terminal(Terminal),
    Nonterminal(Nonterminal),
    Epsilon,
    /// Productions recorded as completed at this point of the branch.
    Rules(Rules),
}

/// An atom as a mathematical value.
pub enum AtomV {
    Terminal(Terminal),
    Nonterminal(Nonterminal),
    Epsilon,
    Rules(RulesV),
}

impl DeepView for Atom {
    type V = AtomV;

    open spec fn deep_view(&self) -> AtomV {
        match self {
            Atom::Terminal(t) => AtomV::Terminal(*t),
            Atom::Nonterminal(n) => AtomV::Nonterminal(*n),
            Atom::Epsilon => AtomV::Epsilon,
            Atom::Rules(r) => AtomV::Rules(r.deep_view()),
        }
    }
}

impl DeepEq for Atom {
    fn deep_eq(&self, other: &Self) -> (r: bool) {
        match (self, other) {
            (Atom::Terminal(a), Atom::Terminal(b)) => *a == *b,
            (Atom::Nonterminal(a), Atom::Nonterminal(b)) => *a == *b,
            (Atom::Epsilon, Atom::Epsilon) => true,
            (Atom::Rules(a), Atom::Rules(b)) => a.deep_eq(b),
            _ => false,
        }
    }
}

/// The transition label of an atom that is not a rule tag.
pub open spec fn atom_symbol(a: AtomV) -> Symbol {
    match a {
        AtomV::Terminal(t) => Symbol::Terminal(t),
        AtomV::Nonterminal(n) => Symbol::Nonterminal(n),
        _ => Symbol::Epsilon,
    }
}

} // verus!
