use vstd::prelude::*;

use crate::automaton::{
    all_in, destinations_in, entries_in, lookup_from, parts_view, sources_in, AtomicEntry, AtomicV, EdgeV,
    EntryV, FiniteStateAutomaton, State, Transition,
};
use crate::derivation::{
    branches_cost, chain_well_formed, entries_cost, groups_cost, node_well_formed, nodes_cost, BranchGroup, Derivation,
    DerivationEntry, DerivationNode, NodeV,
};
use crate::symbol::{
    atom_symbol, Atom, AtomV, DeepClone, DeepEq, Nonterminal, Rule, RuleV, Rules, RulesV, Symbol, Terminal,
};

verus! {

/// The largest state identifier.
pub const MAX_STATE: State = 0xffff_ffff;

/// A compiled suffix of a chain: the nodes of entry `tree` from `from` on
/// start at `start` and finish at `exit`.
pub(crate) struct MemoEntry {
    pub(crate) tree: usize,
    pub(crate) from: usize,
    pub(crate) start: State,
    pub(crate) exit: State,
}

/// The parts of an automaton under construction.
pub(crate) struct Builder {
    pub(crate) states: Vec<State>,
    pub(crate) accepting: Vec<State>,
    pub(crate) transitions: Vec<Transition>,
    pub(crate) atomic: Vec<AtomicEntry>,
    pub(crate) next: State,
    pub(crate) memo: Vec<MemoEntry>,
}

pub(crate) open spec fn edges_view(ts: Seq<Transition>) -> Seq<EdgeV> {
    ts.map_values(|t: Transition| t.deep_view())
}

pub(crate) open spec fn entries_view(es: Seq<AtomicEntry>) -> Seq<EntryV> {
    es.map_values(|e: AtomicEntry| e.deep_view())
}

impl Builder {
    pub(crate) open spec fn tv(&self) -> Seq<EdgeV> {
        edges_view(self.transitions@)
    }

    pub(crate) open spec fn has(&self, s: State) -> bool {
        self.states@.contains(s)
    }

    /// Every state named is known, fresh identifiers lie above all known
    /// ones, and no transition leaves a state below 2.
    pub(crate) open spec fn inv(&self) -> bool {
        &&& all_in(self.accepting@, self.states@)
        &&& sources_in(self.tv(), self.states@)
        &&& destinations_in(self.tv(), self.states@)
        &&& entries_in(entries_view(self.atomic@), self.states@)
        &&& self.next >= 2
        &&& self.states@.len() == self.next
        &&& forall|j: int| 0 <= j < self.states@.len() ==> #[trigger] self.states@[j] < self.next
        &&& forall|k: int| 0 <= k < self.tv().len() ==> (#[trigger] self.tv()[k]).0 >= 2
        &&& forall|m: int| 0 <= m < self.memo@.len() ==> {
            &&& self.has((#[trigger] self.memo@[m]).start)
            &&& self.has(self.memo@[m].exit)
            &&& self.memo@[m].start >= 2
            &&& self.memo@[m].exit >= 2
        }
    }

    /// A state not used before.
    pub(crate) fn fresh(&mut self) -> (s: State)
        requires
            old(self).inv(),
            old(self).next < MAX_STATE,
        ensures
            final(self).inv(),
            s == old(self).next,
            s >= 2,
            final(self).next == s + 1,
            final(self).has(s),
            forall|x: State| old(self).has(x) ==> final(self).has(x),
            final(self).transitions == old(self).transitions,
            final(self).accepting == old(self).accepting,
            final(self).atomic == old(self).atomic,
            final(self).memo == old(self).memo,
    {
        let s = self.next;
        self.states.push(s);
        self.next = s + 1;
        proof {
            assert(self.states@.last() == s);
            assert forall|x: State| old(self).has(x) implies self.has(x) by {
                let j = choose|j: int| 0 <= j < old(self).states@.len() && old(self).states@[j] == x;
                assert(self.states@[j] == x);
            }
            assert forall|m: int| 0 <= m < self.memo@.len() implies {
                &&& self.has((#[trigger] self.memo@[m]).start)
                &&& self.has(self.memo@[m].exit)
            } by {
                assert(old(self).has(self.memo@[m].start));
                assert(old(self).has(self.memo@[m].exit));
            }
            assert forall|i: int| 0 <= i < self.accepting@.len() implies self.states@.contains(#[trigger] self.accepting@[i]) by {
                assert(old(self).has(self.accepting@[i]));
            }
            assert forall|i: int| 0 <= i < self.tv().len() implies self.states@.contains(#[trigger] self.tv()[i].0) by {
                assert(old(self).has(self.tv()[i].0));
            }
            assert forall|i: int| 0 <= i < self.tv().len() implies self.states@.contains(#[trigger] self.tv()[i].2) by {
                assert(old(self).has(self.tv()[i].2));
            }
            assert forall|i: int| 0 <= i < entries_view(self.atomic@).len()
                implies self.states@.contains(#[trigger] entries_view(self.atomic@)[i].2.0) by {
                assert(old(self).has(entries_view(self.atomic@)[i].2.0));
            }
        }
        s
    }

    /// Records a transition between known states, unless it is already there.
    pub(crate) fn add_edge(&mut self, src: State, symbol: Symbol, dst: State, rules: Option<Rules>)
        requires
            old(self).inv(),
            old(self).has(src),
            old(self).has(dst),
            src >= 2,
        ensures
            final(self).inv(),
            forall|e: EdgeV| #[trigger] final(self).tv().contains(e)
                <==> (old(self).tv().contains(e) || e == (src, symbol, dst, rules.deep_view())),
            final(self).states == old(self).states,
            final(self).next == old(self).next,
            final(self).accepting == old(self).accepting,
            final(self).atomic == old(self).atomic,
            final(self).memo == old(self).memo,
    {
        let ghost x = (src, symbol, dst, rules.deep_view());
        let mut i: usize = 0;
        while i < self.transitions.len()
            invariant
                0 <= i <= self.transitions@.len(),
                self.tv().len() == self.transitions@.len(),
                self.transitions == old(self).transitions,
                self.states == old(self).states,
                self.next == old(self).next,
                self.accepting == old(self).accepting,
                self.atomic == old(self).atomic,
                self.memo == old(self).memo,
                old(self).inv(),
                x == (src, symbol, dst, rules.deep_view()),
            decreases self.transitions@.len() - i,
        {
            let u = &self.transitions[i];
            if u.src == src && u.symbol == symbol && u.dst == dst && u.rules.deep_eq(&rules) {
                proof {
                    assert(self.tv()[i as int] == x);
                    assert(old(self).tv().contains(x));
                    assert(self.tv() == old(self).tv());
                }
                return;
            }
            i += 1;
        }
        let t = Transition { src, symbol, dst, rules };
        self.transitions.push(t);
        proof {
            assert(self.tv() =~= old(self).tv().push(x));
            assert forall|e: EdgeV| #[trigger] self.tv().contains(e) <==> (old(self).tv().contains(e) || e == x) by {
                if self.tv().contains(e) {
                    let k = choose|k: int| 0 <= k < self.tv().len() && self.tv()[k] == e;
                    if k < old(self).tv().len() {
                        assert(old(self).tv()[k] == e);
                    }
                }
                if old(self).tv().contains(e) {
                    let k = choose|k: int| 0 <= k < old(self).tv().len() && old(self).tv()[k] == e;
                    assert(self.tv()[k] == e);
                }
                if e == x {
                    assert(self.tv()[old(self).tv().len() as int] == e);
                }
            }
        }
    }

    /// Records that a suffix of a chain was compiled between two known states.
    pub(crate) fn remember(&mut self, tree: usize, from: usize, start: State, exit: State)
        requires
            old(self).inv(),
            old(self).has(start),
            old(self).has(exit),
            start >= 2,
            exit >= 2,
        ensures
            final(self).inv(),
            final(self).states == old(self).states,
            final(self).next == old(self).next,
            final(self).transitions == old(self).transitions,
            final(self).accepting == old(self).accepting,
            final(self).atomic == old(self).atomic,
            final(self).memo@ == old(self).memo@.push(MemoEntry { tree, from, start, exit }),
    {
        self.memo.push(MemoEntry { tree, from, start, exit });
        proof {
            assert forall|m: int| 0 <= m < self.memo@.len() implies {
                &&& self.has((#[trigger] self.memo@[m]).start)
                &&& self.has(self.memo@[m].exit)
                &&& self.memo@[m].start >= 2
                &&& self.memo@[m].exit >= 2
            } by {
                if m < old(self).memo@.len() {
                    assert(self.memo@[m] == old(self).memo@[m]);
                }
            }
        }
    }
}

/// `a` followed by `b`.
pub fn concat_rules(a: &Rules, b: &Rules) -> (r: Rules)
    ensures
        r.deep_view() == a.deep_view() + b.deep_view(),
{
    let mut r = a.deep_clone();
    let mut i: usize = 0;
    while i < b.len()
        invariant
            0 <= i <= b.len(),
            r.deep_view() == a.deep_view() + b.deep_view().subrange(0, i as int),
        decreases b.len() - i,
    {
        let ghost before = r.deep_view();
        r.push(b[i].deep_clone());
        proof {
            assert(r.deep_view() =~= before.push(b.deep_view()[i as int]));
            assert(b.deep_view().subrange(0, i + 1) =~= b.deep_view().subrange(0, i as int).push(b.deep_view()[i as int]));
        }
        i += 1;
    }
    assert(b.deep_view().subrange(0, b.len() as int) =~= b.deep_view());
    r
}

/// Emits the transition of the last atom of a branch, which lands on `end`.
///
/// A nonterminal atom goes to the branch group's penultimate state carrying
/// only the rules collected along the branch; an epsilon transition from
/// there to `end` carries the completion rules. Any other atom carries the
/// completion rules followed by the collected ones on its own transition.
pub(crate) fn emit_last(
    b: &mut Builder,
    atom: &Atom,
    source: State,
    end: State,
    completion: &Rules,
    carried: Rules,
    penultimate: &mut Option<State>,
)
    requires
        old(b).inv(),
        old(b).has(source),
        old(b).has(end),
        source >= 2,
        end >= 2,
        old(b).next < MAX_STATE,
        match *old(penultimate) {
            Some(p) => old(b).has(p) && p >= 2 && p != end,
            None => true,
        },
    ensures
        (*final(penultimate)) is Some ==> (*final(penultimate)).unwrap() != end,
        final(b).inv(),
        final(b).next <= old(b).next + 1,
        forall|x: State| old(b).has(x) ==> final(b).has(x),
        final(b).accepting == old(b).accepting,
        final(b).atomic == old(b).atomic,
        final(b).memo == old(b).memo,
        match atom.deep_view() {
            AtomV::Nonterminal(n) => {
                &&& final(penultimate).is_some()
                &&& old(penultimate).is_some() ==> *final(penultimate) == *old(penultimate)
                &&& final(b).has(final(penultimate).unwrap())
                &&& final(penultimate).unwrap() >= 2
                &&& forall|e: EdgeV| #[trigger] final(b).tv().contains(e) <==> (old(b).tv().contains(e)
                    || e == (source, Symbol::Nonterminal(n), final(penultimate).unwrap(), Some(carried.deep_view()))
                    || e == (final(penultimate).unwrap(), Symbol::Epsilon, end, Some(completion.deep_view())))
            },
            AtomV::Rules(r) => {
                &&& *final(penultimate) == *old(penultimate)
                &&& forall|e: EdgeV| #[trigger] final(b).tv().contains(e) <==> (old(b).tv().contains(e)
                    || e == (source, Symbol::Epsilon, end, Some(completion.deep_view() + (r + carried.deep_view()))))
            },
            a => {
                &&& *final(penultimate) == *old(penultimate)
                &&& forall|e: EdgeV| #[trigger] final(b).tv().contains(e) <==> (old(b).tv().contains(e)
                    || e == (source, atom_symbol(a), end, Some(completion.deep_view() + carried.deep_view())))
            },
        },
{
    match atom {
        Atom::Nonterminal(n) => {
            let p = match *penultimate {
                Some(p) => p,
                None => {
                    let p = b.fresh();
                    *penultimate = Some(p);
                    p
                },
            };
            b.add_edge(source, Symbol::Nonterminal(*n), p, Some(carried));
            b.add_edge(p, Symbol::Epsilon, end, Some(completion.deep_clone()));
        },
        Atom::Rules(r) => {
            let rc = concat_rules(r, &carried);
            b.add_edge(source, Symbol::Epsilon, end, Some(concat_rules(completion, &rc)));
        },
        Atom::Terminal(t) => {
            b.add_edge(source, Symbol::Terminal(*t), end, Some(concat_rules(completion, &carried)));
        },
        Atom::Epsilon => {
            b.add_edge(source, Symbol::Epsilon, end, Some(concat_rules(completion, &carried)));
        },
    }
}

/// The transition label of an atom that is not a rule tag.
pub fn symbol_of(atom: &Atom) -> (r: Symbol)
    ensures
        r == atom_symbol(atom.deep_view()),
{
    match atom {
        Atom::Terminal(t) => Symbol::Terminal(*t),
        Atom::Nonterminal(n) => Symbol::Nonterminal(*n),
        _ => Symbol::Epsilon,
    }
}

/// The transition that a branch of one terminal or epsilon atom compiles to,
/// when the branch is of that shape.
pub open spec fn single_symbol_edge(atoms: Seq<AtomV>, start: State, end: State, completion: RulesV) -> Option<EdgeV> {
    if atoms.len() == 1 {
        match atoms[0] {
            AtomV::Terminal(t) => Some((start, Symbol::Terminal(t), end, Some(completion))),
            AtomV::Epsilon => Some((start, Symbol::Epsilon, end, Some(completion))),
            _ => None,
        }
    } else {
        None
    }
}

/// The rules collected from the first `i` atoms, when all of them are rule
/// tags: each tag goes in front of those collected before it.
pub open spec fn tag_prefix(atoms: Seq<AtomV>, i: int) -> Option<RulesV>
    decreases i,
{
    if i <= 0 {
        Some(Seq::empty())
    } else {
        match atoms[i - 1] {
            AtomV::Rules(r) => match tag_prefix(atoms, i - 1) {
                Some(c) => Some(r + c),
                None => None,
            },
            _ => None,
        }
    }
}

/// The number of atoms before `i` that are not rule tags: the index, on the
/// branch's path of states, of the state that atom `i` leaves.
pub open spec fn steps_before(atoms: Seq<AtomV>, i: int) -> nat
    decreases i,
{
    if i <= 0 {
        0
    } else {
        steps_before(atoms, i - 1) + if atoms[i - 1] is Rules {
            0nat
        } else {
            1nat
        }
    }
}

/// The rules carried onto atom `i`: those of the rule tags since the last
/// atom that is not one, each in front of those before it.
pub open spec fn carried_at(atoms: Seq<AtomV>, i: int) -> RulesV
    decreases i,
{
    if i <= 0 {
        Seq::empty()
    } else {
        match atoms[i - 1] {
            AtomV::Rules(r) => r + carried_at(atoms, i - 1),
            _ => Seq::empty(),
        }
    }
}

/// Rules on a transition: none when there are none to carry.
pub open spec fn opt_rules(c: RulesV) -> Option<RulesV> {
    if c.len() > 0 {
        Some(c)
    } else {
        None
    }
}

/// Along `path`, each atom but the last that is not a rule tag is a
/// transition from its state to the next, carrying the rules carried onto it.
pub open spec fn path_edges(atoms: Seq<AtomV>, path: Seq<State>, tv: Seq<EdgeV>) -> bool {
    forall|i: int|
        0 <= i < atoms.len() - 1 && !(atoms[i] is Rules) ==> tv.contains(
            (
                path[steps_before(atoms, i) as int],
                atom_symbol(#[trigger] atoms[i]),
                path[steps_before(atoms, i) + 1int],
                opt_rules(carried_at(atoms, i)),
            ),
        )
}

/// The transitions of the last atom, leaving `source` with `carried` rules:
/// see `emit_last`.
pub open spec fn last_edges(atom: AtomV, completion: RulesV, source: State, carried: RulesV, end: State, tv: Seq<EdgeV>) -> bool {
    match atom {
        AtomV::Nonterminal(n) => exists|p: State|
            #[trigger] tv.contains((source, Symbol::Nonterminal(n), p, Some(carried))) && tv.contains(
                (p, Symbol::Epsilon, end, Some(completion)),
            ) && p != end,
        AtomV::Rules(r) => tv.contains((source, Symbol::Epsilon, end, Some(completion + (r + carried)))),
        a => tv.contains((source, atom_symbol(a), end, Some(completion + carried))),
    }
}

/// The whole branch as transitions: a path of states from `start`, one step
/// per atom that is not a rule tag, and the last atom's transitions to `end`.
pub open spec fn branch_path_holds(atoms: Seq<AtomV>, completion: RulesV, start: State, end: State, tv: Seq<EdgeV>) -> bool {
    exists|path: Seq<State>|
        #[trigger] path_edges(atoms, path, tv) && path.len() == steps_before(atoms, atoms.len() - 1) + 1 && path[0]
            == start && last_edges(
            atoms.last(),
            completion,
            path.last(),
            carried_at(atoms, atoms.len() - 1),
            end,
            tv,
        )
}

/// The transitions that a branch from `start` to `end` is known to have
/// among `tv`: a branch of one terminal or epsilon is a single transition
/// carrying the completion rules; a branch of rule tags and then a
/// nonterminal goes on that nonterminal, carrying the tags' rules only, to a
/// penultimate state, from which an epsilon transition carries the completion
/// rules to `end`.
pub open spec fn branch_edges_hold(b: Seq<AtomV>, completion: RulesV, start: State, end: State, tv: Seq<EdgeV>) -> bool {
    &&& (b.len() > 0 ==> branch_path_holds(b, completion, start, end, tv))
    &&& (single_symbol_edge(b, start, end, completion) is Some ==> tv.contains(
        single_symbol_edge(b, start, end, completion).unwrap(),
    ))
    &&& (b.len() > 0 && b.last() is Nonterminal && tag_prefix(b, b.len() - 1) is Some ==> exists|p: State|
        #[trigger] tv.contains(
            (start, Symbol::Nonterminal(b.last()->Nonterminal_0), p, Some(tag_prefix(b, b.len() - 1).unwrap())),
        ) && tv.contains((p, Symbol::Epsilon, end, Some(completion))) && p != end)
}

/// Every branch of the node has its known transitions from `start` to `end`.
pub open spec fn node_edges_hold(node: NodeV, start: State, end: State, tv: Seq<EdgeV>) -> bool {
    match node {
        NodeV::Branching(_, groups) => forall|g: int, j: int|
            0 <= g < groups.len() && 0 <= j < groups[g].1.len() ==> branch_edges_hold(
                #[trigger] groups[g].1[j],
                groups[g].0,
                start,
                end,
                tv,
            ),
        NodeV::Empty(_) => true,
    }
}

/// More transitions keep the known ones.
pub(crate) proof fn lemma_branch_edges_grow(
    b: Seq<AtomV>,
    completion: RulesV,
    start: State,
    end: State,
    tv1: Seq<EdgeV>,
    tv2: Seq<EdgeV>,
)
    requires
        branch_edges_hold(b, completion, start, end, tv1),
        forall|e: EdgeV| #[trigger] tv1.contains(e) ==> tv2.contains(e),
    ensures
        branch_edges_hold(b, completion, start, end, tv2),
{
    if single_symbol_edge(b, start, end, completion) is Some {
        assert(tv1.contains(single_symbol_edge(b, start, end, completion).unwrap()));
    }
    if b.len() > 0 && b.last() is Nonterminal && tag_prefix(b, b.len() - 1) is Some {
        let p = choose|p: State|
            #[trigger] tv1.contains(
                (start, Symbol::Nonterminal(b.last()->Nonterminal_0), p, Some(tag_prefix(b, b.len() - 1).unwrap())),
            ) && tv1.contains((p, Symbol::Epsilon, end, Some(completion))) && p != end;
        assert(tv2.contains(
            (start, Symbol::Nonterminal(b.last()->Nonterminal_0), p, Some(tag_prefix(b, b.len() - 1).unwrap())),
        ));
        assert(tv2.contains((p, Symbol::Epsilon, end, Some(completion))));
    }
    if b.len() > 0 {
        let path = choose|path: Seq<State>|
            #[trigger] path_edges(b, path, tv1) && path.len() == steps_before(b, b.len() - 1) + 1 && path[0] == start
                && last_edges(b.last(), completion, path.last(), carried_at(b, b.len() - 1), end, tv1);
        assert forall|i: int| 0 <= i < b.len() - 1 && !(b[i] is Rules) implies tv2.contains(
            (
                path[steps_before(b, i) as int],
                atom_symbol(#[trigger] b[i]),
                path[steps_before(b, i) + 1int],
                opt_rules(carried_at(b, i)),
            ),
        ) by {
            assert(tv1.contains(
                (
                    path[steps_before(b, i) as int],
                    atom_symbol(b[i]),
                    path[steps_before(b, i) + 1int],
                    opt_rules(carried_at(b, i)),
                ),
            ));
        }
        assert(path_edges(b, path, tv2));
        let c = carried_at(b, b.len() - 1);
        match b.last() {
            AtomV::Nonterminal(n) => {
                let p = choose|p: State|
                    #[trigger] tv1.contains((path.last(), Symbol::Nonterminal(n), p, Some(c))) && tv1.contains(
                        (p, Symbol::Epsilon, end, Some(completion)),
                    ) && p != end;
                assert(tv2.contains((path.last(), Symbol::Nonterminal(n), p, Some(c))));
                assert(tv2.contains((p, Symbol::Epsilon, end, Some(completion))));
            },
            AtomV::Rules(r) => {
                assert(tv2.contains((path.last(), Symbol::Epsilon, end, Some(completion + (r + c)))));
            },
            a => {
                assert(tv2.contains((path.last(), atom_symbol(a), end, Some(completion + c))));
            },
        }
        assert(last_edges(b.last(), completion, path.last(), c, end, tv2));
    }
}

pub(crate) proof fn lemma_steps_before_le(atoms: Seq<AtomV>, i: int, k: int)
    requires
        0 <= i <= k,
    ensures
        steps_before(atoms, i) <= steps_before(atoms, k),
    decreases k - i,
{
    if i < k {
        lemma_steps_before_le(atoms, i, k - 1);
    }
}

pub(crate) proof fn lemma_node_edges_grow(node: NodeV, start: State, end: State, tv1: Seq<EdgeV>, tv2: Seq<EdgeV>)
    requires
        node_edges_hold(node, start, end, tv1),
        forall|e: EdgeV| #[trigger] tv1.contains(e) ==> tv2.contains(e),
    ensures
        node_edges_hold(node, start, end, tv2),
{
    if let NodeV::Branching(_, groups) = node {
        assert forall|g: int, j: int| 0 <= g < groups.len() && 0 <= j < groups[g].1.len() implies branch_edges_hold(
            #[trigger] groups[g].1[j],
            groups[g].0,
            start,
            end,
            tv2,
        ) by {
            lemma_branch_edges_grow(groups[g].1[j], groups[g].0, start, end, tv1, tv2);
        }
    }
}

/// The penultimate state, if any, is a known state.
pub(crate) open spec fn penultimate_ok(b: Builder, p: Option<State>) -> bool {
    match p {
        Some(q) => b.has(q) && q >= 2,
        None => true,
    }
}

/// Emits the transitions of one branch from `start` to `end`. Rule tags are
/// collected and placed on the next transition; each atom but the last goes
/// to a fresh state. A branch that ends in a nonterminal reaches `end` only
/// through the penultimate state, whose epsilon transition carries the
/// completion rules.
pub(crate) fn emit_branch(
    b: &mut Builder,
    atoms: &Vec<Atom>,
    start: State,
    end: State,
    completion: &Rules,
    penultimate: &mut Option<State>,
)
    requires
        old(b).inv(),
        old(b).has(start),
        old(b).has(end),
        start >= 2,
        end >= 2,
        atoms@.len() > 0,
        old(b).next + atoms@.len() + 1 <= MAX_STATE,
        penultimate_ok(*old(b), *old(penultimate)),
        (*old(penultimate)) is Some ==> (*old(penultimate)).unwrap() != end,
    ensures
        (*final(penultimate)) is Some ==> (*final(penultimate)).unwrap() != end,
        final(b).inv(),
        final(b).next <= old(b).next + atoms@.len() + 1,
        forall|x: State| old(b).has(x) ==> final(b).has(x),
        final(b).accepting == old(b).accepting,
        final(b).atomic == old(b).atomic,
        final(b).memo == old(b).memo,
        penultimate_ok(*final(b), *final(penultimate)),
        forall|e: EdgeV| #[trigger] old(b).tv().contains(e) ==> final(b).tv().contains(e),
        branch_edges_hold(atoms.deep_view(), completion.deep_view(), start, end, final(b).tv()),
        match atoms@[atoms@.len() - 1].deep_view() {
            AtomV::Nonterminal(n) => {
                &&& final(penultimate).is_some()
                &&& final(b).tv().contains(
                    (final(penultimate).unwrap(), Symbol::Epsilon, end, Some(completion.deep_view())),
                )
                &&& exists|s: State, c: RulesV| #[trigger] final(b).tv().contains(
                    (s, Symbol::Nonterminal(n), final(penultimate).unwrap(), Some(c)),
                )
            },
            _ => true,
        },
{
    let n = atoms.len();
    let mut source = start;
    let mut carried: Rules = Vec::new();
    let ghost av = atoms.deep_view();
    let ghost mut path: Seq<State> = seq![start];
    let mut i: usize = 0;
    while i + 1 < n
        invariant
            av == atoms.deep_view(),
            path.len() == steps_before(av, i as int) + 1,
            path[0] == start,
            path.last() == source,
            carried.deep_view() == carried_at(av, i as int),
            forall|j: int|
                0 <= j < i && !(av[j] is Rules) ==> b.tv().contains(
                    (
                        path[steps_before(av, j) as int],
                        atom_symbol(#[trigger] av[j]),
                        path[steps_before(av, j) + 1int],
                        opt_rules(carried_at(av, j)),
                    ),
                ),
            b.inv(),
            b.has(source),
            b.has(end),
            source >= 2,
            end >= 2,
            n == atoms@.len(),
            1 <= n,
            i + 1 <= n,
            b.next <= old(b).next + i,
            old(b).next + n + 1 <= MAX_STATE,
            forall|x: State| old(b).has(x) ==> b.has(x),
            b.accepting == old(b).accepting,
            b.atomic == old(b).atomic,
            b.memo == old(b).memo,
            *penultimate == *old(penultimate),
            penultimate_ok(*b, *penultimate),
            (*old(penultimate)) is Some ==> (*old(penultimate)).unwrap() != end,
            forall|e: EdgeV| #[trigger] old(b).tv().contains(e) ==> b.tv().contains(e),
            tag_prefix(atoms.deep_view(), i as int) is Some ==> source == start && carried.deep_view()
                == tag_prefix(atoms.deep_view(), i as int).unwrap(),
        decreases n - i,
    {
        assert(atoms.deep_view()[i as int] == atoms@[i as int].deep_view());
        let ghost tv0 = b.tv();
        let ghost path0 = path;
        match &atoms[i] {
            Atom::Rules(r) => {
                carried = concat_rules(r, &carried);
            },
            other => {
                let target = b.fresh();
                let symbol = symbol_of(other);
                let ghost e = (source, symbol, target, opt_rules(carried.deep_view()));
                let rules = if carried.len() > 0 {
                    Some(carried)
                } else {
                    None
                };
                assert(rules.deep_view() == opt_rules(carried_at(av, i as int)));
                b.add_edge(source, symbol, target, rules);
                assert(b.tv().contains(e));
                carried = Vec::new();
                source = target;
                proof {
                    path = path.push(target);
                    assert(carried.deep_view() =~= Seq::<RuleV>::empty());
                }
            },
        }
        proof {
            assert(steps_before(av, i + 1) == steps_before(av, i as int) + if av[i as int] is Rules {
                0nat
            } else {
                1nat
            });
            assert forall|j: int|
                0 <= j < i + 1 && !(av[j] is Rules) implies b.tv().contains(
                    (
                        path[steps_before(av, j) as int],
                        atom_symbol(#[trigger] av[j]),
                        path[steps_before(av, j) + 1int],
                        opt_rules(carried_at(av, j)),
                    ),
                ) by {
                if j < i {
                    let x = (
                        path0[steps_before(av, j) as int],
                        atom_symbol(av[j]),
                        path0[steps_before(av, j) + 1int],
                        opt_rules(carried_at(av, j)),
                    );
                    assert(tv0.contains(x));
                    lemma_steps_before_le(av, j + 1, i as int);
                    assert(path[steps_before(av, j) as int] == path0[steps_before(av, j) as int]);
                    assert(path[steps_before(av, j) + 1int] == path0[steps_before(av, j) + 1int]);
                }
            }
        }
        i += 1;
    }
    let ghost carried_view = carried.deep_view();
    let ghost tags = tag_prefix(atoms.deep_view(), n - 1);
    proof {
        assert(atoms.deep_view()[n - 1] == atoms@[n - 1].deep_view());
        assert(atoms.deep_view().last() == atoms@[n - 1].deep_view());
        if n == 1 {
            assert(carried_view =~= Seq::<RuleV>::empty());
            assert(completion.deep_view() + carried_view =~= completion.deep_view());
        }
    }
    emit_last(b, &atoms[n - 1], source, end, completion, carried, penultimate);
    proof {
        if let AtomV::Nonterminal(nt) = atoms@[n - 1].deep_view() {
            let p = penultimate.unwrap();
            assert(b.tv().contains((p, Symbol::Epsilon, end, Some(completion.deep_view()))));
            assert(b.tv().contains((source, Symbol::Nonterminal(nt), p, Some(carried_view))));
        }
        let av = atoms.deep_view();
        if single_symbol_edge(av, start, end, completion.deep_view()) is Some {
            let e = single_symbol_edge(av, start, end, completion.deep_view()).unwrap();
            assert(b.tv().contains(e));
        }
        let c = carried_at(av, n - 1);
        assert(last_edges(av.last(), completion.deep_view(), path.last(), c, end, b.tv())) by {
            if let AtomV::Nonterminal(nt) = av.last() {
                let p = penultimate.unwrap();
                assert(b.tv().contains((path.last(), Symbol::Nonterminal(nt), p, Some(c))));
            }
        }
        assert(path_edges(av, path, b.tv()));
        if av.last() is Nonterminal && tags is Some {
            let p = penultimate.unwrap();
            assert(b.tv().contains((p, Symbol::Epsilon, end, Some(completion.deep_view()))));
            assert(b.tv().contains((start, Symbol::Nonterminal(av.last()->Nonterminal_0), p, Some(tags.unwrap()))));
        }
    }
}

/// Emits every branch of every group between `start` and `end`.
pub(crate) fn compile_groups(b: &mut Builder, groups: &Vec<BranchGroup>, start: State, end: State)
    requires
        old(b).inv(),
        old(b).has(start),
        old(b).has(end),
        start >= 2,
        end >= 2,
        old(b).next + groups_cost(groups@, 0) <= MAX_STATE,
        forall|g: int, j: int|
            0 <= g < groups@.len() && 0 <= j < groups@[g].branches@.len()
                ==> (#[trigger] groups@[g].branches@[j])@.len() > 0,
    ensures
        final(b).inv(),
        final(b).next <= old(b).next + groups_cost(groups@, 0),
        forall|x: State| old(b).has(x) ==> final(b).has(x),
        final(b).accepting == old(b).accepting,
        final(b).atomic == old(b).atomic,
        final(b).memo == old(b).memo,
        forall|e: EdgeV| #[trigger] old(b).tv().contains(e) ==> final(b).tv().contains(e),
        forall|g: int, j: int|
            0 <= g < groups@.len() && 0 <= j < groups@[g].branches@.len() ==> branch_edges_hold(
                (#[trigger] groups@[g].branches@[j]).deep_view(),
                groups@[g].completion.deep_view(),
                start,
                end,
                final(b).tv(),
            ),
{
    let mut g: usize = 0;
    while g < groups.len()
        invariant
            b.inv(),
            b.has(start),
            b.has(end),
            start >= 2,
            end >= 2,
            0 <= g <= groups@.len(),
            b.next + groups_cost(groups@, g as int) <= old(b).next + groups_cost(groups@, 0),
            old(b).next + groups_cost(groups@, 0) <= MAX_STATE,
            forall|g: int, j: int|
                0 <= g < groups@.len() && 0 <= j < groups@[g].branches@.len()
                    ==> (#[trigger] groups@[g].branches@[j])@.len() > 0,
            forall|x: State| old(b).has(x) ==> b.has(x),
            b.accepting == old(b).accepting,
            b.atomic == old(b).atomic,
            b.memo == old(b).memo,
            forall|e: EdgeV| #[trigger] old(b).tv().contains(e) ==> b.tv().contains(e),
            forall|g1: int, j: int|
                0 <= g1 < g && 0 <= j < groups@[g1].branches@.len() ==> branch_edges_hold(
                    (#[trigger] groups@[g1].branches@[j]).deep_view(),
                    groups@[g1].completion.deep_view(),
                    start,
                    end,
                    b.tv(),
                ),
        decreases groups@.len() - g,
    {
        let group = &groups[g];
        let ghost bs = group.branches@;
        let mut penultimate: Option<State> = None;
        let mut j: usize = 0;
        while j < group.branches.len()
            invariant
                b.inv(),
                b.has(start),
                b.has(end),
                start >= 2,
                end >= 2,
                0 <= g < groups@.len(),
                group == groups@[g as int],
                bs == group.branches@,
                0 <= j <= bs.len(),
                b.next + branches_cost(bs, j as int) + groups_cost(groups@, g + 1)
                    <= old(b).next + groups_cost(groups@, 0),
                old(b).next + groups_cost(groups@, 0) <= MAX_STATE,
                forall|j: int| 0 <= j < bs.len() ==> (#[trigger] bs[j])@.len() > 0,
                forall|x: State| old(b).has(x) ==> b.has(x),
                b.accepting == old(b).accepting,
                b.atomic == old(b).atomic,
                b.memo == old(b).memo,
                penultimate_ok(*b, penultimate),
                penultimate is Some ==> penultimate.unwrap() != end,
                forall|e: EdgeV| #[trigger] old(b).tv().contains(e) ==> b.tv().contains(e),
                forall|g1: int, j: int|
                    0 <= g1 < g && 0 <= j < groups@[g1].branches@.len() ==> branch_edges_hold(
                        (#[trigger] groups@[g1].branches@[j]).deep_view(),
                        groups@[g1].completion.deep_view(),
                        start,
                        end,
                        b.tv(),
                    ),
                forall|j1: int|
                    0 <= j1 < j ==> branch_edges_hold(
                        (#[trigger] bs[j1]).deep_view(),
                        group.completion.deep_view(),
                        start,
                        end,
                        b.tv(),
                    ),
            decreases bs.len() - j,
        {
            assert(bs[j as int]@.len() > 0);
            let ghost tv0 = b.tv();
            emit_branch(b, &group.branches[j], start, end, &group.completion, &mut penultimate);
            proof {
                assert forall|g1: int, j2: int|
                    0 <= g1 < g && 0 <= j2 < groups@[g1].branches@.len() implies branch_edges_hold(
                        (#[trigger] groups@[g1].branches@[j2]).deep_view(),
                        groups@[g1].completion.deep_view(),
                        start,
                        end,
                        b.tv(),
                    ) by {
                    lemma_branch_edges_grow(groups@[g1].branches@[j2].deep_view(), groups@[g1].completion.deep_view(), start, end, tv0, b.tv());
                }
                assert forall|j1: int| 0 <= j1 < j + 1 implies branch_edges_hold(
                    (#[trigger] bs[j1]).deep_view(),
                    group.completion.deep_view(),
                    start,
                    end,
                    b.tv(),
                ) by {
                    if j1 < j {
                        lemma_branch_edges_grow(bs[j1].deep_view(), group.completion.deep_view(), start, end, tv0, b.tv());
                    }
                }
            }
            j += 1;
        }
        g += 1;
    }
}

/// Whether the nodes of `a` from `i` on equal those of `c` from `j` on.
pub fn suffix_eq(a: &Vec<DerivationNode>, i: usize, c: &Vec<DerivationNode>, j: usize) -> (r: bool)
    requires
        i <= a@.len(),
        j <= c@.len(),
    ensures
        r == (a.deep_view().subrange(i as int, a@.len() as int) == c.deep_view().subrange(
            j as int,
            c@.len() as int,
        )),
{
    if a.len() - i != c.len() - j {
        assert(a.deep_view().subrange(i as int, a@.len() as int).len() != c.deep_view().subrange(j as int, c@.len() as int).len());
        return false;
    }
    let la = a.len();
    let lc = c.len();
    let n = la - i;
    let ghost sa = a.deep_view().subrange(i as int, a@.len() as int);
    let ghost sc = c.deep_view().subrange(j as int, c@.len() as int);
    let mut k: usize = 0;
    while k < n
        invariant
            la == a@.len(),
            lc == c@.len(),
            n == la - i,
            n == lc - j,
            i <= a@.len(),
            j <= c@.len(),
            0 <= k <= n,
            sa == a.deep_view().subrange(i as int, a@.len() as int),
            sc == c.deep_view().subrange(j as int, c@.len() as int),
            forall|m: int| 0 <= m < k ==> #[trigger] sa[m] == sc[m],
        decreases n - k,
    {
        assert(sa[k as int] == a@[i + k].deep_view());
        assert(sc[k as int] == c@[j + k].deep_view());
        if !a[i + k].deep_eq(&c[j + k]) {
            return false;
        }
        k += 1;
    }
    assert(sa =~= sc);
    true
}

/// The nodes of an entry's chain, if it has one.
pub open spec fn chain_view(e: DerivationEntry) -> Option<Seq<NodeV>> {
    match e.tree {
        Derivation::Chain(ns) => Some(ns.deep_view()),
        Derivation::Empty(_) => None,
    }
}

/// The memo entry names a suffix of a chain.
pub(crate) open spec fn memo_valid(m: MemoEntry, trees: Seq<DerivationEntry>) -> bool {
    &&& m.tree < trees.len()
    &&& chain_view(trees[m.tree as int]).is_some()
    &&& m.from <= chain_view(trees[m.tree as int]).unwrap().len()
}

/// The nodes of the suffix that a memo entry names.
pub(crate) open spec fn memo_content(m: MemoEntry, trees: Seq<DerivationEntry>) -> Seq<NodeV> {
    let c = chain_view(trees[m.tree as int]).unwrap();
    c.subrange(m.from as int, c.len() as int)
}

/// The memo entry records a suffix whose nodes equal `nodes`.
pub(crate) open spec fn memo_matches(m: MemoEntry, trees: Seq<DerivationEntry>, nodes: Seq<NodeV>) -> bool {
    memo_valid(m, trees) && memo_content(m, trees) == nodes
}

/// Every memo entry names a suffix, and equal suffixes have equal states.
pub(crate) open spec fn memo_ok(memo: Seq<MemoEntry>, trees: Seq<DerivationEntry>) -> bool {
    &&& forall|m: int| 0 <= m < memo.len() ==> memo_valid(#[trigger] memo[m], trees)
    &&& forall|m1: int, m2: int|
        0 <= m1 < memo.len() && 0 <= m2 < memo.len() && memo_content(#[trigger] memo[m1], trees)
            == memo_content(#[trigger] memo[m2], trees) ==> memo[m1].start == memo[m2].start && memo[m1].exit
            == memo[m2].exit
}

/// How the first node of a chain starting at `entry` leads to `next`, the
/// start of the rest of the chain: an empty node adds nothing; a repeatable
/// node loops on `entry` and joins `next` by an epsilon transition; any other
/// node's branches run from `entry` to `next`.
pub open spec fn node_link(node: NodeV, entry: State, next: State, tv: Seq<EdgeV>) -> bool {
    match node {
        NodeV::Empty(_) => entry == next,
        NodeV::Branching(star, _) => if star {
            node_edges_hold(node, entry, entry, tv) && tv.contains((entry, Symbol::Epsilon, next, None::<RulesV>))
        } else {
            node_edges_hold(node, entry, next, tv)
        },
    }
}

/// What a chain compiled from `entry` to `exit` is known to have: each node
/// leads to the start of the next, and the last node ends at `exit` (where a
/// repeatable or empty last node also starts).
pub open spec fn chain_facts(c: Seq<NodeV>, entry: State, exit: State, tv: Seq<EdgeV>) -> bool
    decreases c.len(),
{
    if c.len() == 0 {
        true
    } else if c.len() == 1 {
        match c[0] {
            NodeV::Empty(_) => entry == exit,
            NodeV::Branching(star, _) => node_edges_hold(c[0], entry, exit, tv) && (star ==> entry == exit),
        }
    } else {
        exists|next: State| #[trigger] node_link(c[0], entry, next, tv) && chain_facts(c.drop_first(), next, exit, tv)
    }
}

pub(crate) proof fn lemma_chain_facts_grow(c: Seq<NodeV>, entry: State, exit: State, tv1: Seq<EdgeV>, tv2: Seq<EdgeV>)
    requires
        chain_facts(c, entry, exit, tv1),
        forall|e: EdgeV| #[trigger] tv1.contains(e) ==> tv2.contains(e),
    ensures
        chain_facts(c, entry, exit, tv2),
    decreases c.len(),
{
    if c.len() == 1 {
        lemma_node_edges_grow(c[0], entry, exit, tv1, tv2);
    } else if c.len() > 1 {
        let next = choose|next: State| #[trigger] node_link(c[0], entry, next, tv1) && chain_facts(c.drop_first(), next, exit, tv1);
        if let NodeV::Branching(star, _) = c[0] {
            if star {
                lemma_node_edges_grow(c[0], entry, entry, tv1, tv2);
            } else {
                lemma_node_edges_grow(c[0], entry, next, tv1, tv2);
            }
        }
        lemma_chain_facts_grow(c.drop_first(), next, exit, tv1, tv2);
        assert(node_link(c[0], entry, next, tv2));
    }
}

/// A memo entry has the facts of the suffix it names.
pub(crate) open spec fn memo_fact(m: MemoEntry, trees: Seq<DerivationEntry>, tv: Seq<EdgeV>) -> bool {
    chain_facts(memo_content(m, trees), m.start, m.exit, tv)
}

pub(crate) open spec fn memo_facts(memo: Seq<MemoEntry>, trees: Seq<DerivationEntry>, tv: Seq<EdgeV>) -> bool {
    forall|m: int| 0 <= m < memo.len() ==> memo_fact(#[trigger] memo[m], trees, tv)
}

pub(crate) proof fn lemma_memo_facts_grow(memo: Seq<MemoEntry>, trees: Seq<DerivationEntry>, tv1: Seq<EdgeV>, tv2: Seq<EdgeV>)
    requires
        memo_facts(memo, trees, tv1),
        forall|e: EdgeV| #[trigger] tv1.contains(e) ==> tv2.contains(e),
    ensures
        memo_facts(memo, trees, tv2),
{
    assert forall|m: int| 0 <= m < memo.len() implies memo_fact(#[trigger] memo[m], trees, tv2) by {
        lemma_chain_facts_grow(memo_content(memo[m], trees), memo[m].start, memo[m].exit, tv1, tv2);
    }
}

/// The memo still holds every entry of `before`, at the same index.
pub(crate) open spec fn memo_extends(memo: Seq<MemoEntry>, before: Seq<MemoEntry>) -> bool {
    &&& before.len() <= memo.len()
    &&& forall|m: int| 0 <= m < before.len() ==> #[trigger] memo[m] == before[m]
}

/// The states of an already compiled suffix equal to the nodes of `ns` from
/// `k` on: suffixes are looked up by content.
pub(crate) fn memo_find(b: &Builder, trees: &Vec<DerivationEntry>, ns: &Vec<DerivationNode>, k: usize) -> (r: Option<(State, State)>)
    requires
        b.inv(),
        k <= ns@.len(),
    ensures
        ({
            let nodes = ns.deep_view().subrange(k as int, ns@.len() as int);
            match r {
                Some((s, e)) => {
                    &&& b.has(s) && b.has(e) && s >= 2 && e >= 2
                    &&& exists|m: int| 0 <= m < b.memo@.len() && memo_matches(#[trigger] b.memo@[m], trees@, nodes)
                        && b.memo@[m].start == s && b.memo@[m].exit == e
                },
                None => forall|m: int| 0 <= m < b.memo@.len() ==> !memo_matches(#[trigger] b.memo@[m], trees@, nodes),
            }
        }),
{
    let ghost nodes = ns.deep_view().subrange(k as int, ns@.len() as int);
    let mut m: usize = 0;
    while m < b.memo.len()
        invariant
            b.inv(),
            k <= ns@.len(),
            0 <= m <= b.memo@.len(),
            nodes == ns.deep_view().subrange(k as int, ns@.len() as int),
            forall|q: int| 0 <= q < m ==> !memo_matches(#[trigger] b.memo@[q], trees@, nodes),
        decreases b.memo@.len() - m,
    {
        let entry = &b.memo[m];
        if entry.tree < trees.len() {
            match &trees[entry.tree].tree {
                Derivation::Chain(ms) => {
                    if entry.from <= ms.len() && suffix_eq(ms, entry.from, ns, k) {
                        assert(memo_matches(b.memo@[m as int], trees@, nodes));
                        return Some((entry.start, entry.exit));
                    }
                    assert(!memo_matches(b.memo@[m as int], trees@, nodes));
                },
                Derivation::Empty(_) => {},
            }
        }
        m += 1;
    }
    None
}

/// Compiles a branching node whose rest of chain, if any, starts at
/// `rest.0` and exits at `rest.1`. Returns the node's start, the node's end,
/// and the exit of the chain from this node on.
///
/// A repeatable node ends where it starts, so each of its branches returns
/// to the start (a branch of one terminal or epsilon is a self-loop); before
/// a rest of chain it joins the rest by an epsilon transition. Any other node
/// ends at the rest's start, or at a fresh exit.
pub(crate) fn compile_branching(b: &mut Builder, star: bool, groups: &Vec<BranchGroup>, rest: Option<(State, State)>)
    -> (r: (State, State, State))
    requires
        old(b).inv(),
        old(b).next + 2 + groups_cost(groups@, 0) <= MAX_STATE,
        forall|g: int, j: int|
            0 <= g < groups@.len() && 0 <= j < groups@[g].branches@.len()
                ==> (#[trigger] groups@[g].branches@[j])@.len() > 0,
        match rest {
            Some((s, e)) => old(b).has(s) && old(b).has(e) && s >= 2 && e >= 2,
            None => true,
        },
    ensures
        final(b).inv(),
        final(b).has(r.0),
        final(b).has(r.1),
        r.0 >= 2,
        r.1 >= 2,
        final(b).next <= old(b).next + 2 + groups_cost(groups@, 0),
        forall|x: State| old(b).has(x) ==> final(b).has(x),
        final(b).accepting == old(b).accepting,
        final(b).atomic == old(b).atomic,
        final(b).memo == old(b).memo,
        final(b).has(r.2),
        r.2 >= 2,
        r.0 == old(b).next,
        star ==> r.1 == r.0,
        !star ==> r.1 != r.0,
        match rest {
            Some((s, e)) => r.2 == e && (!star ==> r.1 == s),
            None => r.2 == r.1,
        },
        star && rest.is_some() ==> final(b).tv().contains((r.0, Symbol::Epsilon, rest.unwrap().0, None::<RulesV>)),
        forall|g: int, j: int|
            0 <= g < groups@.len() && 0 <= j < groups@[g].branches@.len() ==> branch_edges_hold(
                (#[trigger] groups@[g].branches@[j]).deep_view(),
                groups@[g].completion.deep_view(),
                r.0,
                r.1,
                final(b).tv(),
            ),
        forall|e: EdgeV| #[trigger] old(b).tv().contains(e) ==> final(b).tv().contains(e),
{
    let s = b.fresh();
    let (node_end, exit) = if star {
        match rest {
            Some((rest_start, rest_exit)) => {
                b.add_edge(s, Symbol::Epsilon, rest_start, None);
                (s, rest_exit)
            },
            None => (s, s),
        }
    } else {
        match rest {
            Some((rest_start, rest_exit)) => (rest_start, rest_exit),
            None => {
                let e = b.fresh();
                (e, e)
            },
        }
    };
    let ghost tv0 = b.tv();
    assert(forall|e: EdgeV| #[trigger] old(b).tv().contains(e) ==> tv0.contains(e));
    compile_groups(b, groups, s, node_end);
    proof {
        assert forall|e: EdgeV| #[trigger] old(b).tv().contains(e) implies b.tv().contains(e) by {
            assert(tv0.contains(e));
        }
        if star && rest.is_some() {
            let e = (s, Symbol::Epsilon, rest.unwrap().0, None::<RulesV>);
            assert(tv0.contains(e));
            assert(b.tv().contains(e));
        }
    }
    (s, node_end, exit)
}

/// Recording a suffix that no entry matches keeps the memo consistent.
pub(crate) proof fn lemma_remember_ok(memo: Seq<MemoEntry>, trees: Seq<DerivationEntry>, e: MemoEntry)
    requires
        memo_ok(memo, trees),
        memo_valid(e, trees),
        forall|m: int| 0 <= m < memo.len() ==> !memo_matches(#[trigger] memo[m], trees, memo_content(e, trees)),
    ensures
        memo_ok(memo.push(e), trees),
        memo_extends(memo.push(e), memo),
{
    let n = memo.push(e);
    assert forall|m: int| 0 <= m < n.len() implies memo_valid(#[trigger] n[m], trees) by {
        if m < memo.len() {
            assert(n[m] == memo[m]);
        }
    }
    assert forall|m1: int, m2: int|
        0 <= m1 < n.len() && 0 <= m2 < n.len() && memo_content(#[trigger] n[m1], trees)
            == memo_content(#[trigger] n[m2], trees) implies n[m1].start == n[m2].start && n[m1].exit == n[m2].exit by {
        if m1 < memo.len() {
            assert(n[m1] == memo[m1]);
            assert(memo_valid(memo[m1], trees));
        }
        if m2 < memo.len() {
            assert(n[m2] == memo[m2]);
            assert(memo_valid(memo[m2], trees));
        }
        if m1 < memo.len() && m2 == memo.len() {
            assert(memo_matches(memo[m1], trees, memo_content(e, trees)));
        }
        if m2 < memo.len() && m1 == memo.len() {
            assert(memo_matches(memo[m2], trees, memo_content(e, trees)));
        }
    }
}

/// The cost of a chain from `k` on is at most that of the whole chain.
pub(crate) proof fn lemma_nodes_cost_le(ns: Seq<DerivationNode>, k: int)
    requires
        0 <= k,
    ensures
        nodes_cost(ns, k) <= nodes_cost(ns, 0),
    decreases k,
{
    if k > 0 {
        lemma_nodes_cost_le(ns, k - 1);
    }
}

/// Compiles the chain `ns` of entry `tree`, from its last node to its first,
/// reusing the states of any suffix compiled before. Returns the entry state,
/// the exit state, and the rule sequences of the chain's empty nodes.
pub(crate) fn compile_chain(b: &mut Builder, trees: &Vec<DerivationEntry>, tree: usize, ns: &Vec<DerivationNode>)
    -> (r: (State, State, Option<Vec<Rules>>))
    requires
        old(b).inv(),
        chain_well_formed(ns@),
        old(b).next + nodes_cost(ns@, 0) <= MAX_STATE,
        memo_ok(old(b).memo@, trees@),
        memo_facts(old(b).memo@, trees@, old(b).tv()),
        tree < trees@.len(),
        chain_view(trees@[tree as int]) == Some(ns.deep_view()),
    ensures
        memo_ok(final(b).memo@, trees@),
        memo_facts(final(b).memo@, trees@, final(b).tv()),
        memo_extends(final(b).memo@, old(b).memo@),
        forall|e: EdgeV| #[trigger] old(b).tv().contains(e) ==> final(b).tv().contains(e),
        exists|m: int| 0 <= m < final(b).memo@.len() && memo_matches(#[trigger] final(b).memo@[m], trees@, ns.deep_view())
            && final(b).memo@[m].start == r.0 && final(b).memo@[m].exit == r.1,
        r.2.deep_view() == first_empty_from(ns.deep_view(), 0),
        final(b).inv(),
        final(b).has(r.0),
        final(b).has(r.1),
        r.0 >= 2,
        r.1 >= 2,
        final(b).next <= old(b).next + nodes_cost(ns@, 0),
        forall|x: State| old(b).has(x) ==> final(b).has(x),
        final(b).accepting == old(b).accepting,
        final(b).atomic == old(b).atomic,
{
    let n = ns.len();
    let mut k: usize = n;
    let mut cur: Option<(State, State)> = None;
    let mut empty_rules: Option<Vec<Rules>> = None;
    while k > 0
        invariant
            b.inv(),
            chain_well_formed(ns@),
            n == ns@.len(),
            0 <= k <= n,
            (k < n) <==> cur.is_some(),
            match cur {
                Some((s, e)) => b.has(s) && b.has(e) && s >= 2 && e >= 2,
                None => true,
            },
            b.next <= old(b).next + nodes_cost(ns@, k as int),
            old(b).next + nodes_cost(ns@, 0) <= MAX_STATE,
            forall|x: State| old(b).has(x) ==> b.has(x),
            b.accepting == old(b).accepting,
            b.atomic == old(b).atomic,
            memo_ok(b.memo@, trees@),
            memo_extends(b.memo@, old(b).memo@),
            tree < trees@.len(),
            chain_view(trees@[tree as int]) == Some(ns.deep_view()),
            match cur {
                Some((s, e)) => exists|m: int| 0 <= m < b.memo@.len()
                    && memo_matches(#[trigger] b.memo@[m], trees@, ns.deep_view().subrange(k as int, n as int))
                    && b.memo@[m].start == s && b.memo@[m].exit == e,
                None => true,
            },
            memo_facts(b.memo@, trees@, b.tv()),
            forall|e: EdgeV| #[trigger] old(b).tv().contains(e) ==> b.tv().contains(e),
            empty_rules.deep_view() == first_empty_from(ns.deep_view(), k as int),
        decreases k,
    {
        k -= 1;
        proof {
            lemma_nodes_cost_le(ns@, k as int);
        }
        let node = &ns[k];
        assert(node_well_formed(ns@[k as int]));
        assert(ns.deep_view()[k as int] == ns@[k as int].deep_view());
        match memo_find(b, trees, ns, k) {
            Some(found) => {
                if let DerivationNode::Empty(rules) = node {
                    empty_rules = rules.deep_clone();
                }
                cur = Some(found);
            },
            None => {
                match node {
                    DerivationNode::Empty(rules) => {
                        empty_rules = rules.deep_clone();
                        let found = match cur {
                            Some(c) => c,
                            None => {
                                let s = b.fresh();
                                (s, s)
                            },
                        };
                        let ghost memo0 = b.memo@;
                        let ghost e = MemoEntry { tree, from: k, start: found.0, exit: found.1 };
                        proof {
                            assert(memo_content(e, trees@) == ns.deep_view().subrange(k as int, n as int));
                            lemma_remember_ok(memo0, trees@, e);
                            let c = memo_content(e, trees@);
                            assert(c[0] == ns.deep_view()[k as int]);
                            assert(ns.deep_view()[k as int] == ns@[k as int].deep_view());
                            if k + 1 < n {
                                let m1 = choose|m1: int| 0 <= m1 < memo0.len()
                                    && memo_matches(#[trigger] memo0[m1], trees@, ns.deep_view().subrange(k + 1, n as int))
                                    && memo0[m1].start == found.0 && memo0[m1].exit == found.1;
                                assert(memo_fact(memo0[m1], trees@, b.tv()));
                                assert(c.drop_first() =~= ns.deep_view().subrange(k + 1, n as int));
                                assert(node_link(c[0], found.0, found.0, b.tv()));
                            }
                            assert(memo_fact(e, trees@, b.tv()));
                            assert forall|m: int| 0 <= m < memo0.push(e).len() implies memo_fact(#[trigger] memo0.push(e)[m], trees@, b.tv()) by {
                                if m < memo0.len() {
                                    assert(memo0.push(e)[m] == memo0[m]);
                                }
                            }
                        }
                        b.remember(tree, k, found.0, found.1);
                        proof {
                            let m = memo0.len() as int;
                            assert(b.memo@[m] == e);
                            assert(memo_extends(b.memo@, old(b).memo@)) by {
                                assert forall|q: int| 0 <= q < old(b).memo@.len() implies #[trigger] b.memo@[q] == old(b).memo@[q] by {
                                    assert(b.memo@[q] == memo0[q]);
                                }
                            }
                        }
                        cur = Some(found);
                    },
                    DerivationNode::Branching { star, groups } => {
                        let ghost tv_before = b.tv();
                        let (s, node_end, exit) = compile_branching(b, *star, groups, cur);
                        let ghost memo0 = b.memo@;
                        let ghost e = MemoEntry { tree, from: k, start: s, exit };
                        proof {
                            assert(memo_content(e, trees@) == ns.deep_view().subrange(k as int, n as int));
                            lemma_remember_ok(memo0, trees@, e);
                            lemma_memo_facts_grow(memo0, trees@, tv_before, b.tv());
                            let nv = ns.deep_view()[k as int];
                            assert(nv == ns@[k as int].deep_view());
                            assert(memo_content(e, trees@)[0] == nv);
                            let gv = groups.deep_view();
                            assert(nv == NodeV::Branching(*star, gv));
                            assert forall|g: int, j: int| 0 <= g < gv.len() && 0 <= j < gv[g].1.len() implies branch_edges_hold(
                                #[trigger] gv[g].1[j],
                                gv[g].0,
                                s,
                                node_end,
                                b.tv(),
                            ) by {
                                assert(gv[g] == groups@[g].deep_view());
                                assert(gv[g].1[j] == groups@[g].branches@[j].deep_view());
                            }
                            assert(node_edges_hold(nv, s, node_end, b.tv()));
                            let c = memo_content(e, trees@);
                            if cur is None {
                                assert(c.len() == 1);
                                assert(chain_facts(c, s, exit, b.tv()));
                            } else {
                                let (rs, re) = cur.unwrap();
                                let m1 = choose|m1: int| 0 <= m1 < memo0.len()
                                    && memo_matches(#[trigger] memo0[m1], trees@, ns.deep_view().subrange(k + 1, n as int))
                                    && memo0[m1].start == rs && memo0[m1].exit == re;
                                assert(memo_fact(memo0[m1], trees@, b.tv()));
                                assert(c.drop_first() =~= ns.deep_view().subrange(k + 1, n as int));
                                assert(node_link(c[0], s, rs, b.tv()));
                                assert(chain_facts(c, s, exit, b.tv()));
                            }
                            assert forall|m: int| 0 <= m < memo0.push(e).len() implies memo_fact(#[trigger] memo0.push(e)[m], trees@, b.tv()) by {
                                if m < memo0.len() {
                                    assert(memo0.push(e)[m] == memo0[m]);
                                }
                            }
                            assert forall|x: EdgeV| #[trigger] old(b).tv().contains(x) implies b.tv().contains(x) by {
                                assert(tv_before.contains(x));
                            }
                        }
                        b.remember(tree, k, s, exit);
                        proof {
                            let m = memo0.len() as int;
                            assert(b.memo@[m] == e);
                            assert(memo_extends(b.memo@, old(b).memo@)) by {
                                assert forall|q: int| 0 <= q < old(b).memo@.len() implies #[trigger] b.memo@[q] == old(b).memo@[q] by {
                                    assert(b.memo@[q] == memo0[q]);
                                }
                            }
                        }
                        cur = Some((s, exit));
                    },
                }
            },
        }
    }
    assert(ns.deep_view().subrange(0, n as int) =~= ns.deep_view());
    let (entry, exit) = cur.unwrap();
    (entry, exit, empty_rules)
}

/// The right-hand side derives the empty string: it is empty or a lone epsilon.
pub open spec fn is_empty_rhs(rhs: Seq<Symbol>) -> bool {
    rhs.len() == 0 || rhs == seq![Symbol::Epsilon]
}

/// Some production of `n` has an empty right-hand side.
pub open spec fn derives_empty(rules: Seq<RuleV>, n: Nonterminal) -> bool {
    exists|i: int| 0 <= i < rules.len() && (#[trigger] rules[i]).0 == n && is_empty_rhs(rules[i].1)
}

/// No two entries describe the same (nonterminal, terminal) pair.
pub open spec fn keys_unique(es: Seq<DerivationEntry>) -> bool {
    forall|i: int, j: int|
        0 <= i < es.len() && 0 <= j < es.len() && i != j ==> !(#[trigger] es[i].nonterminal == #[trigger] es[j].nonterminal
            && es[i].terminal == es[j].terminal)
}

/// Every chain is well formed.
pub open spec fn entries_well_formed(es: Seq<DerivationEntry>) -> bool {
    forall|i: int| 0 <= i < es.len() ==> match (#[trigger] es[i]).tree {
        Derivation::Chain(ns) => chain_well_formed(ns@),
        Derivation::Empty(_) => true,
    }
}

/// Whether some production of `n` has an empty right-hand side.
pub fn has_empty_rule(rules: &Vec<Rule>, n: Nonterminal) -> (r: bool)
    ensures
        r == derives_empty(rules.deep_view(), n),
{
    let mut i: usize = 0;
    while i < rules.len()
        invariant
            0 <= i <= rules@.len(),
            forall|j: int| 0 <= j < i ==> !((#[trigger] rules.deep_view()[j]).0 == n && is_empty_rhs(rules.deep_view()[j].1)),
        decreases rules@.len() - i,
    {
        let rule = &rules[i];
        assert(rules.deep_view()[i as int] == rule.deep_view());
        let rhs = &rule.rhs;
        let empty = rhs.len() == 0 || (rhs.len() == 1 && rhs[0] == Symbol::Epsilon);
        proof {
            assert(rhs.deep_view() =~= rhs@);
            if rhs.len() == 1 && rhs[0] == Symbol::Epsilon {
                assert(rhs@ =~= seq![Symbol::Epsilon]);
            }
            if rhs@ == seq![Symbol::Epsilon] {
                assert(rhs@[0] == Symbol::Epsilon);
            }
            assert(empty == is_empty_rhs(rule.deep_view().1));
        }
        if rule.lhs == n && empty {
            return true;
        }
        i += 1;
    }
    false
}

/// A successful lookup found an entry with that key.
pub(crate) proof fn lemma_lookup_found(es: Seq<EntryV>, sym: Symbol, t: Terminal, i: int)
    requires
        0 <= i,
        lookup_from(es, sym, t, i) is Some,
    ensures
        exists|k: int| i <= k < es.len() && (#[trigger] es[k]).0 == sym && es[k].1 == t,
    decreases es.len() - i,
{
    if !(es[i].0 == sym && es[i].1 == t) {
        lemma_lookup_found(es, sym, t, i + 1);
        let k = choose|k: int| i + 1 <= k < es.len() && (#[trigger] es[k]).0 == sym && es[k].1 == t;
    }
}

/// Upper bound on the states that the entries before `i` can need, counting
/// a chain equal to an earlier one as nothing.
pub open spec fn distinct_cost_upto(es: Seq<DerivationEntry>, i: int) -> nat
    decreases i,
{
    if i <= 0 {
        0
    } else {
        let e = es[i - 1];
        distinct_cost_upto(es, i - 1) + match e.tree {
            Derivation::Chain(ns) => if exists|k: int| 0 <= k < i - 1 && #[trigger] chain_view(es[k]) == chain_view(e) {
                0
            } else {
                nodes_cost(ns@, 0)
            },
            Derivation::Empty(_) => 0,
        }
    }
}

/// The rule sequences of the first empty node from `k` on, if there is one.
pub open spec fn first_empty_from(ns: Seq<NodeV>, k: int) -> Option<Seq<RulesV>>
    decreases ns.len() - k,
{
    if k < 0 || k >= ns.len() {
        None
    } else {
        match ns[k] {
            NodeV::Empty(r) => r,
            NodeV::Branching(_, _) => first_empty_from(ns, k + 1),
        }
    }
}

/// The rule sequences of the first empty node of a chain, if any.
pub fn first_empty_rules(ns: &Vec<DerivationNode>) -> (r: Option<Vec<Rules>>)
    ensures
        r.deep_view() == first_empty_from(ns.deep_view(), 0),
{
    let mut k: usize = 0;
    while k < ns.len()
        invariant
            0 <= k <= ns@.len(),
            first_empty_from(ns.deep_view(), 0) == first_empty_from(ns.deep_view(), k as int),
        decreases ns@.len() - k,
    {
        assert(ns.deep_view()[k as int] == ns@[k as int].deep_view());
        if let DerivationNode::Empty(rules) = &ns[k] {
            return rules.deep_clone();
        }
        k += 1;
    }
    None
}

/// `n` has at least one production.
pub open spec fn has_production(rules: Seq<RuleV>, n: Nonterminal) -> bool {
    exists|i: int| 0 <= i < rules.len() && (#[trigger] rules[i]).0 == n
}

/// Looking up a key that some entry from `i` on has, where all such entries
/// agree, gives their common value.
pub(crate) proof fn lemma_lookup_agreeing(es: Seq<EntryV>, sym: Symbol, t: Terminal, i: int, v: AtomicV)
    requires
        0 <= i,
        exists|k: int| i <= k < es.len() && (#[trigger] es[k]).0 == sym && es[k].1 == t,
        forall|k: int| i <= k < es.len() && (#[trigger] es[k]).0 == sym && es[k].1 == t ==> es[k].2 == v,
    ensures
        lookup_from(es, sym, t, i) == Some(v),
    decreases es.len() - i,
{
    if !(es[i].0 == sym && es[i].1 == t) {
        let k = choose|k: int| i <= k < es.len() && (#[trigger] es[k]).0 == sym && es[k].1 == t;
        assert(k != i);
        lemma_lookup_agreeing(es, sym, t, i + 1, v);
    }
}

/// Compiles entry `i` and returns its atomic entry: state 1 for an empty
/// derivation, or the entry state of its chain, whose exit becomes accepting.
pub(crate) fn compile_entry(b: &mut Builder, trees: &Vec<DerivationEntry>, i: usize) -> (r: AtomicEntry)
    requires
        old(b).inv(),
        old(b).has(1),
        i < trees@.len(),
        entries_well_formed(trees@),
        old(b).next + entries_cost(trees@, i as int) <= MAX_STATE,
        memo_ok(old(b).memo@, trees@),
        memo_facts(old(b).memo@, trees@, old(b).tv()),
    ensures
        memo_facts(final(b).memo@, trees@, final(b).tv()),
        forall|x: State| #[trigger] old(b).accepting@.contains(x) ==> final(b).accepting@.contains(x),
        final(b).next <= old(b).next + match trees@[i as int].tree {
            Derivation::Chain(ns) => nodes_cost(ns@, 0),
            Derivation::Empty(_) => 0,
        },
        chain_view(trees@[i as int]) is Some && (exists|m: int| 0 <= m < old(b).memo@.len() && memo_matches(
            #[trigger] old(b).memo@[m],
            trees@,
            chain_view(trees@[i as int]).unwrap(),
        )) ==> final(b).next == old(b).next,
        final(b).inv(),
        final(b).next + entries_cost(trees@, i + 1) <= MAX_STATE,
        forall|x: State| old(b).has(x) ==> final(b).has(x),
        final(b).has(r.state),
        final(b).atomic == old(b).atomic,
        final(b).accepting@.contains(0) == old(b).accepting@.contains(0),
        old(b).accepting@.contains(1) ==> final(b).accepting@.contains(1),
        memo_ok(final(b).memo@, trees@),
        memo_extends(final(b).memo@, old(b).memo@),
        r.symbol == Symbol::Nonterminal(trees@[i as int].nonterminal),
        r.terminal == trees@[i as int].terminal,
        match trees@[i as int].tree {
            Derivation::Empty(rs) => r.deep_view().2 == (1u32, rs.deep_view()),
            Derivation::Chain(_) => exists|m: int| 0 <= m < final(b).memo@.len()
                && memo_matches(#[trigger] final(b).memo@[m], trees@, chain_view(trees@[i as int]).unwrap())
                && final(b).memo@[m].start == r.state && final(b).accepting@.contains(final(b).memo@[m].exit),
        },
        match trees@[i as int].tree {
            Derivation::Chain(ns) => r.deep_view().2.1 == first_empty_from(ns.deep_view(), 0) && r.state >= 2,
            Derivation::Empty(_) => true,
        },
{
    let entry = &trees[i];
    assert(match trees@[i as int].tree {
        Derivation::Chain(ns) => chain_well_formed(ns@),
        Derivation::Empty(_) => true,
    });
    match &entry.tree {
        Derivation::Empty(rs) => AtomicEntry {
            symbol: Symbol::Nonterminal(entry.nonterminal),
            terminal: entry.terminal,
            state: 1,
            rules: rs.deep_clone(),
        },
        Derivation::Chain(ns) => {
            let ghost acc0 = b.accepting@;
            assert(chain_view(trees@[i as int]) == Some(ns.deep_view()));
            assert(ns.deep_view().subrange(0, ns@.len() as int) =~= ns.deep_view());
            let (entry_state, exit, empty_rules) = match memo_find(b, trees, ns, 0) {
                Some((s, e)) => (s, e, first_empty_rules(ns)),
                None => compile_chain(b, trees, i, ns),
            };
            let ghost chain = chain_view(trees@[i as int]).unwrap();
            assert(exists|m: int| 0 <= m < b.memo@.len() && memo_matches(#[trigger] b.memo@[m], trees@, chain)
                && b.memo@[m].start == entry_state && b.memo@[m].exit == exit);
            let ghost memo_now = b.memo@;
            b.accepting.push(exit);
            proof {
                assert(b.accepting@ == acc0.push(exit));
                assert(b.accepting@[acc0.len() as int] == exit);
                let m = choose|m: int| 0 <= m < memo_now.len() && memo_matches(#[trigger] memo_now[m], trees@, chain)
                    && memo_now[m].start == entry_state && memo_now[m].exit == exit;
                assert(b.accepting@.contains(b.memo@[m].exit));
                assert forall|x: State| #[trigger] acc0.contains(x) implies b.accepting@.contains(x) by {
                    let e = choose|e: int| 0 <= e < acc0.len() && acc0[e] == x;
                    assert(b.accepting@[e] == x);
                }
                if acc0.contains(1) {
                    let e = choose|e: int| 0 <= e < acc0.len() && acc0[e] == 1;
                    assert(b.accepting@[e] == 1);
                }
                if b.accepting@.contains(0) {
                    let e = choose|e: int| 0 <= e < b.accepting@.len() && b.accepting@[e] == 0;
                    if e < acc0.len() {
                        assert(acc0[e] == 0);
                    } else {
                        assert(b.accepting@[e] == exit);
                    }
                }
                if acc0.contains(0) {
                    let e = choose|e: int| 0 <= e < acc0.len() && acc0[e] == 0;
                    assert(b.accepting@[e] == 0);
                }
                assert forall|k: int| 0 <= k < b.accepting@.len() implies b.states@.contains(#[trigger] b.accepting@[k]) by {
                    if k < acc0.len() {
                        assert(b.accepting@[k] == acc0[k]);
                    }
                }
            }
            AtomicEntry {
                symbol: Symbol::Nonterminal(entry.nonterminal),
                terminal: entry.terminal,
                state: entry_state,
                rules: empty_rules,
            }
        },
    }
}

impl FiniteStateAutomaton {
    /// Compiles derivation trees into an automaton.
    ///
    /// State 0 is the start state, with a single transition on `start_nt` to
    /// state 1, the shared accepting state of empty matches. The start state
    /// accepts when `start_nt` has an empty production. Each terminal matches
    /// itself at state 1; an empty derivation maps its pair to state 1 with
    /// its rule sequences; a chain is compiled between fresh states, sharing
    /// the states of identical suffixes, and its entry carries the rule
    /// sequences of its first empty node. The contract gives, for every chain,
    /// an accepting exit and `chain_facts`: each node leads to the next (a
    /// repeatable node loops on its start and joins the rest by an epsilon
    /// transition), and each branch is a path of transitions, one per atom
    /// that is not a rule tag, carrying the tags collected since the previous
    /// one; a branch ending in a nonterminal reaches its end only through a
    /// penultimate state, distinct from the end, whose epsilon transition
    /// carries the completion rules. No transition leaves state 1, the entry
    /// table holds exactly the terminals' and the trees' keys, and the number
    /// of states is bounded by the distinct chains. `start_nt` must have a
    /// production.
    #[verifier::rlimit(60)]
    pub fn build_fsa(
        terminals: &Vec<Terminal>,
        start_nt: Nonterminal,
        rules: &Vec<Rule>,
        trees: &Vec<DerivationEntry>,
    ) -> (r: FiniteStateAutomaton)
        requires
            has_production(rules.deep_view(), start_nt),
            2 + entries_cost(trees@, 0) <= MAX_STATE,
            keys_unique(trees@),
            entries_well_formed(trees@),
        ensures
            r@.wf(),
            r@.start == 0,
            r@.has_state(1),
            r@.accepts(1),
            r@.accepts(0) <==> derives_empty(rules.deep_view(), start_nt),
            forall|sym: Symbol, d: (State, Option<RulesV>)| #[trigger] r@.step_set(0, sym).contains(d)
                <==> (sym == Symbol::Nonterminal(start_nt) && d == (1u32, None::<RulesV>)),
            forall|t: Terminal| #[trigger] terminals@.contains(t)
                ==> r@.atomic_of(Symbol::Terminal(t), t) == Some((1u32, None::<Seq<RulesV>>)),
            forall|i: int| 0 <= i < trees@.len() ==> match (#[trigger] trees@[i]).tree {
                Derivation::Empty(rs) => r@.atomic_of(Symbol::Nonterminal(trees@[i].nonterminal), trees@[i].terminal)
                    == Some((1u32, rs.deep_view())),
                Derivation::Chain(ns) => {
                    &&& r@.atomic_of(Symbol::Nonterminal(trees@[i].nonterminal), trees@[i].terminal) is Some
                    &&& r@.atomic_of(Symbol::Nonterminal(trees@[i].nonterminal), trees@[i].terminal).unwrap().0 >= 2
                    &&& r@.atomic_of(Symbol::Nonterminal(trees@[i].nonterminal), trees@[i].terminal).unwrap().1
                        == first_empty_from(ns.deep_view(), 0)
                },
            },
            forall|e: EdgeV| #[trigger] r@.transitions.contains(e) ==> e.0 != 1,
            r@.states.len() <= 2 + distinct_cost_upto(trees@, trees@.len() as int),
            forall|i: int| 0 <= i < trees@.len() && (#[trigger] chain_view(trees@[i])) is Some ==> exists|x: State|
                #[trigger] r@.accepts(x) && chain_facts(
                    chain_view(trees@[i]).unwrap(),
                    r@.atomic_of(Symbol::Nonterminal(trees@[i].nonterminal), trees@[i].terminal).unwrap().0,
                    x,
                    r@.transitions,
                ),
            forall|sym: Symbol, t: Terminal| #[trigger] r@.atomic_of(sym, t) is Some ==> {
                ||| sym == Symbol::Terminal(t) && terminals@.contains(t)
                ||| exists|i: int| 0 <= i < trees@.len() && sym == Symbol::Nonterminal((#[trigger] trees@[i]).nonterminal)
                    && t == trees@[i].terminal
            },
            forall|i: int, j: int|
                0 <= i < trees@.len() && 0 <= j < trees@.len() && (#[trigger] chain_view(trees@[i])).is_some()
                    && chain_view(trees@[i]) == #[trigger] chain_view(trees@[j])
                    ==> r@.atomic_of(Symbol::Nonterminal(trees@[i].nonterminal), trees@[i].terminal).unwrap().0
                        == r@.atomic_of(Symbol::Nonterminal(trees@[j].nonterminal), trees@[j].terminal).unwrap().0,
    {
        let start: State = 0;
        let epsilon: State = 1;
        let mut b = Builder {
            states: vec![start, epsilon],
            accepting: vec![epsilon],
            transitions: Vec::new(),
            atomic: Vec::new(),
            next: 2,
            memo: Vec::new(),
        };
        proof {
            assert(b.tv() =~= Seq::<EdgeV>::empty());
            assert(b.states@[0] == start && b.states@[1] == epsilon);
            assert(b.accepting@[0] == epsilon);
        }
        let de = has_empty_rule(rules, start_nt);
        if de {
            b.accepting.push(start);
            assert(b.accepting@[0] == epsilon);
            assert(b.accepting@[1] == start);
        } else {
            assert(b.accepting@ =~= seq![epsilon]);
        }
        assert(b.accepting@.contains(epsilon));
        let nt = terminals.len();
        let mut i: usize = 0;
        while i < nt
            invariant
                start == 0,
                epsilon == 1,
                b.inv(),
                b.has(start),
                b.has(epsilon),
                b.next == 2,
                nt == terminals@.len(),
                0 <= i <= nt,
                b.accepting@.contains(epsilon),
                b.accepting@.contains(start) <==> de,
                de == derives_empty(rules.deep_view(), start_nt),
                b.atomic@.len() == i,
                b.memo@.len() == 0,
                forall|j: int| 0 <= j < i ==> #[trigger] entries_view(b.atomic@)[j]
                    == (Symbol::Terminal(terminals@[j]), terminals@[j], (epsilon, None::<Seq<RulesV>>)),
            decreases nt - i,
        {
            let t = terminals[i];
            let ghost before = b.atomic@;
            b.atomic.push(AtomicEntry { symbol: Symbol::Terminal(t), terminal: t, state: epsilon, rules: None });
            proof {
                assert(entries_view(b.atomic@) =~= entries_view(before).push(
                    (Symbol::Terminal(t), t, (epsilon, None::<Seq<RulesV>>)),
                ));
                assert forall|k: int| 0 <= k < entries_view(b.atomic@).len() implies b.states@.contains(
                    #[trigger] entries_view(b.atomic@)[k].2.0,
                ) by {
                    if k < before.len() {
                        assert(entries_view(b.atomic@)[k] == entries_view(before)[k]);
                    }
                }
            }
            i += 1;
        }
        let mut i: usize = 0;
        while i < trees.len()
            invariant
                start == 0,
                epsilon == 1,
                b.inv(),
                b.has(start),
                b.has(epsilon),
                nt == terminals@.len(),
                0 <= i <= trees@.len(),
                b.next + entries_cost(trees@, i as int) <= MAX_STATE,
                b.next <= 2 + distinct_cost_upto(trees@, i as int),
                keys_unique(trees@),
                entries_well_formed(trees@),
                b.accepting@.contains(epsilon),
                b.accepting@.contains(start) <==> de,
                de == derives_empty(rules.deep_view(), start_nt),
                b.atomic@.len() == nt + i,
                forall|j: int| 0 <= j < nt ==> #[trigger] entries_view(b.atomic@)[j]
                    == (Symbol::Terminal(terminals@[j]), terminals@[j], (epsilon, None::<Seq<RulesV>>)),
                memo_ok(b.memo@, trees@),
                memo_facts(b.memo@, trees@, b.tv()),
                forall|j: int| 0 <= j < i && (#[trigger] chain_view(trees@[j])).is_some() ==> exists|m: int|
                    0 <= m < b.memo@.len() && memo_matches(#[trigger] b.memo@[m], trees@, chain_view(trees@[j]).unwrap())
                        && b.memo@[m].start == entries_view(b.atomic@)[nt + j].2.0
                        && b.accepting@.contains(b.memo@[m].exit),
                forall|j: int| 0 <= j < i ==> {
                    &&& (#[trigger] entries_view(b.atomic@)[nt + j]).0 == Symbol::Nonterminal(trees@[j].nonterminal)
                    &&& entries_view(b.atomic@)[nt + j].1 == trees@[j].terminal
                    &&& match trees@[j].tree {
                        Derivation::Empty(rs) => entries_view(b.atomic@)[nt + j].2 == (epsilon, rs.deep_view()),
                        Derivation::Chain(ns) => entries_view(b.atomic@)[nt + j].2.1 == first_empty_from(
                            ns.deep_view(),
                            0,
                        ) && entries_view(b.atomic@)[nt + j].2.0 >= 2,
                    }
                },
            decreases trees@.len() - i,
        {
            let ghost before = b.atomic@;
            let ghost memo0 = b.memo@;
            let ghost acc0 = b.accepting@;
            let ghost next0 = b.next;
            let new_entry = compile_entry(&mut b, trees, i);
            proof {
                let ii = i as int;
                if chain_view(trees@[ii]) is Some && exists|k: int| 0 <= k < ii && #[trigger] chain_view(trees@[k]) == chain_view(trees@[ii]) {
                    let k = choose|k: int| 0 <= k < ii && #[trigger] chain_view(trees@[k]) == chain_view(trees@[ii]);
                    let m = choose|m: int| 0 <= m < memo0.len() && memo_matches(#[trigger] memo0[m], trees@, chain_view(trees@[k]).unwrap())
                        && memo0[m].start == entries_view(before)[nt + k].2.0 && acc0.contains(memo0[m].exit);
                    assert(memo_matches(memo0[m], trees@, chain_view(trees@[ii]).unwrap()));
                    assert(b.next == next0);
                }
                assert(b.next <= 2 + distinct_cost_upto(trees@, ii + 1));
                assert forall|j: int| 0 <= j < i && (#[trigger] chain_view(trees@[j])).is_some() implies exists|m: int|
                    0 <= m < b.memo@.len() && memo_matches(#[trigger] b.memo@[m], trees@, chain_view(trees@[j]).unwrap())
                        && b.memo@[m].start == entries_view(before)[nt + j].2.0
                        && b.accepting@.contains(b.memo@[m].exit) by {
                    let m = choose|m: int| 0 <= m < memo0.len() && memo_matches(#[trigger] memo0[m], trees@, chain_view(trees@[j]).unwrap())
                        && memo0[m].start == entries_view(before)[nt + j].2.0 && acc0.contains(memo0[m].exit);
                    assert(b.memo@[m] == memo0[m]);
                    assert(b.accepting@.contains(memo0[m].exit));
                }
                if chain_view(trees@[i as int]).is_some() {
                    assert(trees@[i as int].tree is Chain);
                    assert(exists|m: int| 0 <= m < b.memo@.len()
                        && memo_matches(#[trigger] b.memo@[m], trees@, chain_view(trees@[i as int]).unwrap())
                        && b.memo@[m].start == new_entry.state && b.accepting@.contains(b.memo@[m].exit));
                }
            }
            b.atomic.push(new_entry);
            proof {
                assert(entries_view(b.atomic@) =~= entries_view(before).push(new_entry.deep_view()));
                assert forall|j: int| 0 <= j < i + 1 && (#[trigger] chain_view(trees@[j])).is_some() implies exists|m: int|
                    0 <= m < b.memo@.len() && memo_matches(#[trigger] b.memo@[m], trees@, chain_view(trees@[j]).unwrap())
                        && b.memo@[m].start == entries_view(b.atomic@)[nt + j].2.0 by {
                    if j < i {
                        assert(entries_view(b.atomic@)[nt + j] == entries_view(before)[nt + j]);
                        let m = choose|m: int| 0 <= m < b.memo@.len()
                            && memo_matches(#[trigger] b.memo@[m], trees@, chain_view(trees@[j]).unwrap())
                            && b.memo@[m].start == entries_view(before)[nt + j].2.0
                            && b.accepting@.contains(b.memo@[m].exit);
                        assert(b.memo@[m].start == entries_view(b.atomic@)[nt + j].2.0);
                    } else {
                        assert(entries_view(b.atomic@)[nt + j] == new_entry.deep_view());
                        assert(entries_view(b.atomic@)[nt + j].2.0 == new_entry.state);
                        assert(j == i);
                        let m = choose|m: int| 0 <= m < b.memo@.len()
                            && memo_matches(#[trigger] b.memo@[m], trees@, chain_view(trees@[i as int]).unwrap())
                            && b.memo@[m].start == new_entry.state && b.accepting@.contains(b.memo@[m].exit);
                        assert(memo_matches(b.memo@[m], trees@, chain_view(trees@[j]).unwrap()));
                    }
                }
                assert forall|k: int| 0 <= k < entries_view(b.atomic@).len() implies b.states@.contains(
                    #[trigger] entries_view(b.atomic@)[k].2.0,
                ) by {
                    if k < before.len() {
                        assert(entries_view(b.atomic@)[k] == entries_view(before)[k]);
                    }
                }
            }
            i += 1;
        }
        let mut transitions = vec![
            Transition { src: start, symbol: Symbol::Nonterminal(start_nt), dst: epsilon, rules: None },
        ];
        let ghost rest = b.tv();
        let ghost first: EdgeV = (start, Symbol::Nonterminal(start_nt), epsilon, None);
        transitions.append(&mut b.transitions);
        let ghost v = parts_view(b.states@, b.accepting@, start, transitions@, b.atomic@);
        proof {
            assert(v.transitions =~= seq![first] + rest);
            assert(v.atomic =~= entries_view(b.atomic@));
            let es = v.atomic;
            assert forall|k: int| 0 <= k < v.transitions.len() implies v.states.contains(#[trigger] v.transitions[k].0)
                && v.states.contains(v.transitions[k].2) by {
                if k > 0 {
                    assert(v.transitions[k] == rest[k - 1]);
                }
            }
            assert forall|sym: Symbol, d: (State, Option<RulesV>)| #[trigger] v.step_set(0, sym).contains(d)
                <==> (sym == Symbol::Nonterminal(start_nt) && d == (1u32, None::<RulesV>)) by {
                if v.step_set(0, sym).contains(d) {
                    let k = choose|k: int| 0 <= k < v.transitions.len() && v.transitions[k] == (0u32, sym, d.0, d.1);
                    if k > 0 {
                        assert(v.transitions[k] == rest[k - 1]);
                    }
                }
                if sym == Symbol::Nonterminal(start_nt) && d == (1u32, None::<RulesV>) {
                    assert(v.transitions[0] == (0u32, sym, d.0, d.1));
                }
            }
            assert forall|t: Terminal| #[trigger] terminals@.contains(t)
                implies lookup_from(es, Symbol::Terminal(t), t, 0) == Some((1u32, None::<Seq<RulesV>>)) by {
                let k = choose|k: int| 0 <= k < nt && terminals@[k] == t;
                assert(es[k] == (Symbol::Terminal(terminals@[k]), terminals@[k], (epsilon, None::<Seq<RulesV>>)));
                assert forall|m: int| 0 <= m < es.len() && (#[trigger] es[m]).0 == Symbol::Terminal(t) && es[m].1 == t
                    implies es[m].2 == (1u32, None::<Seq<RulesV>>) by {
                    if m >= nt {
                        assert(es[nt + (m - nt)].0 == Symbol::Nonterminal(trees@[m - nt].nonterminal));
                    } else {
                        assert(es[m] == (Symbol::Terminal(terminals@[m]), terminals@[m], (epsilon, None::<Seq<RulesV>>)));
                    }
                }
                lemma_lookup_agreeing(es, Symbol::Terminal(t), t, 0, (1u32, None::<Seq<RulesV>>));
            }
            assert forall|i: int| 0 <= i < trees@.len() implies lookup_from(
                es,
                Symbol::Nonterminal((#[trigger] trees@[i]).nonterminal),
                trees@[i].terminal,
                0,
            ) == Some(es[nt + i].2) by {
                let sym = Symbol::Nonterminal(trees@[i].nonterminal);
                let t = trees@[i].terminal;
                assert(es[nt + i].0 == sym && es[nt + i].1 == t);
                assert forall|m: int| 0 <= m < es.len() && (#[trigger] es[m]).0 == sym && es[m].1 == t
                    implies es[m].2 == es[nt + i].2 by {
                    if m < nt {
                        assert(es[m] == (Symbol::Terminal(terminals@[m]), terminals@[m], (epsilon, None::<Seq<RulesV>>)));
                    } else {
                        let j = m - nt;
                        assert(es[nt + j].0 == Symbol::Nonterminal(trees@[j].nonterminal));
                        assert(es[nt + j].1 == trees@[j].terminal);
                        if j != i {
                            assert(!(trees@[i].nonterminal == trees@[j].nonterminal && trees@[i].terminal == trees@[j].terminal));
                        }
                    }
                }
                lemma_lookup_agreeing(es, sym, t, 0, es[nt + i].2);
            }
        }
        proof {
            let es = v.atomic;
            assert forall|e: EdgeV| #[trigger] rest.contains(e) implies v.transitions.contains(e) by {
                let k = choose|k: int| 0 <= k < rest.len() && rest[k] == e;
                assert(v.transitions[k + 1] == e);
            }
            lemma_memo_facts_grow(b.memo@, trees@, rest, v.transitions);
            assert forall|i: int| 0 <= i < trees@.len() && (#[trigger] chain_view(trees@[i])) is Some implies exists|x: State|
                #[trigger] v.accepts(x) && chain_facts(
                    chain_view(trees@[i]).unwrap(),
                    v.atomic_of(Symbol::Nonterminal(trees@[i].nonterminal), trees@[i].terminal).unwrap().0,
                    x,
                    v.transitions,
                ) by {
                let m = choose|m: int| 0 <= m < b.memo@.len() && memo_matches(#[trigger] b.memo@[m], trees@, chain_view(trees@[i]).unwrap())
                    && b.memo@[m].start == entries_view(b.atomic@)[nt + i].2.0
                    && b.accepting@.contains(b.memo@[m].exit);
                assert(memo_fact(b.memo@[m], trees@, v.transitions));
                assert(v.accepts(b.memo@[m].exit));
                assert(v.atomic_of(Symbol::Nonterminal(trees@[i].nonterminal), trees@[i].terminal) == Some(es[nt + i].2));
            }
            assert forall|e: EdgeV| #[trigger] v.transitions.contains(e) implies e.0 != 1 by {
                let k = choose|k: int| 0 <= k < v.transitions.len() && v.transitions[k] == e;
                if k > 0 {
                    assert(v.transitions[k] == rest[k - 1]);
                }
            }
            assert forall|sym: Symbol, t: Terminal| #[trigger] v.atomic_of(sym, t) is Some implies {
                ||| sym == Symbol::Terminal(t) && terminals@.contains(t)
                ||| exists|i: int| 0 <= i < trees@.len() && sym == Symbol::Nonterminal((#[trigger] trees@[i]).nonterminal)
                    && t == trees@[i].terminal
            } by {
                lemma_lookup_found(es, sym, t, 0);
                let k = choose|k: int| 0 <= k < es.len() && (#[trigger] es[k]).0 == sym && es[k].1 == t;
                if k < nt {
                    assert(es[k] == (Symbol::Terminal(terminals@[k]), terminals@[k], (epsilon, None::<Seq<RulesV>>)));
                    assert(terminals@[k] == t);
                } else {
                    let i = k - nt;
                    assert(es[nt + i].0 == Symbol::Nonterminal(trees@[i].nonterminal));
                    assert(es[nt + i].1 == trees@[i].terminal);
                }
            }
            assert forall|i: int, j: int|
                0 <= i < trees@.len() && 0 <= j < trees@.len() && (#[trigger] chain_view(trees@[i])).is_some()
                    && chain_view(trees@[i]) == #[trigger] chain_view(trees@[j])
                    implies es[nt + i].2.0 == es[nt + j].2.0 by {
                let m1 = choose|m: int| 0 <= m < b.memo@.len() && memo_matches(#[trigger] b.memo@[m], trees@, chain_view(trees@[i]).unwrap())
                    && b.memo@[m].start == entries_view(b.atomic@)[nt + i].2.0;
                let m2 = choose|m: int| 0 <= m < b.memo@.len() && memo_matches(#[trigger] b.memo@[m], trees@, chain_view(trees@[j]).unwrap())
                    && b.memo@[m].start == entries_view(b.atomic@)[nt + j].2.0;
                assert(memo_content(b.memo@[m1], trees@) == memo_content(b.memo@[m2], trees@));
            }
        }
        let r = FiniteStateAutomaton::from_parts(b.states, b.accepting, start, transitions, b.atomic);
        r
    }
}

} // verus!
