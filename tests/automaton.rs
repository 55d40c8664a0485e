use grammar_automaton::{
    Atom, AtomicEntry, BranchGroup, Derivation, DerivationEntry, DerivationNode, FiniteStateAutomaton,
    Rule, StateErrors, Symbol, Transition,
};
use grammar_automaton::compile::{concat_rules, suffix_eq, symbol_of};

const A: u32 = 1;
const B: u32 = 2;
const S: u32 = 10;
const X: u32 = 11;
const Y: u32 = 12;

fn rule(lhs: u32, rhs: Vec<Symbol>) -> Rule {
    Rule { lhs, rhs }
}

fn edge(src: u32, symbol: Symbol, dst: u32) -> Transition {
    Transition { src, symbol, dst, rules: None }
}

fn entry(symbol: Symbol, terminal: u32, state: u32) -> AtomicEntry {
    AtomicEntry { symbol, terminal, state, rules: None }
}

fn node(star: bool, completion: Vec<Rule>, branches: Vec<Vec<Atom>>) -> DerivationNode {
    DerivationNode::Branching { star, groups: vec![BranchGroup { completion, branches }] }
}

fn chain(nonterminal: u32, terminal: u32, nodes: Vec<DerivationNode>) -> DerivationEntry {
    DerivationEntry { nonterminal, terminal, tree: Derivation::Chain(nodes) }
}

fn s_rules() -> Vec<Rule> {
    vec![
        rule(S, vec![Symbol::Terminal(A), Symbol::Nonterminal(S)]),
        rule(S, vec![Symbol::Epsilon]),
    ]
}

fn destinations(fsa: &FiniteStateAutomaton, state: u32, symbol: Symbol) -> Vec<(u32, Option<Vec<Rule>>, bool)> {
    fsa.simulate(&state, symbol).unwrap_or_default()
}

#[test]
fn new_accepts_valid_parts() {
    let r = FiniteStateAutomaton::new(
        vec![0, 1, 2],
        vec![2],
        0,
        vec![edge(0, Symbol::Terminal(A), 1), edge(1, Symbol::Epsilon, 2)],
        vec![entry(Symbol::Terminal(A), A, 1)],
    );
    let fsa = r.unwrap();
    assert_eq!(fsa.get_start(), (0, false));
    assert!(fsa.is_accepting(&2));
    assert!(!fsa.is_accepting(&1));
    assert!(fsa.has_transition(&0));
    assert!(!fsa.has_transition(&2));
}

#[test]
fn new_rejects_start_not_in_states() {
    let r = FiniteStateAutomaton::new(vec![1, 2], vec![2], 0, vec![], vec![]);
    assert_eq!(r.unwrap_err(), StateErrors::StartNotInStates(0));
}

#[test]
fn new_rejects_accepting_not_in_states() {
    let r = FiniteStateAutomaton::new(vec![0, 1], vec![1, 7], 0, vec![edge(0, Symbol::Epsilon, 1)], vec![]);
    assert_eq!(r.unwrap_err(), StateErrors::AcceptingStateNotInStates(7));
}

#[test]
fn new_rejects_source_not_in_states() {
    let r = FiniteStateAutomaton::new(vec![0, 1], vec![1], 0, vec![edge(5, Symbol::Epsilon, 1)], vec![]);
    assert_eq!(r.unwrap_err(), StateErrors::SourceStateNotInStates(5));
}

#[test]
fn new_rejects_destination_not_in_states() {
    let r = FiniteStateAutomaton::new(vec![0, 1], vec![1], 0, vec![edge(0, Symbol::Epsilon, 6)], vec![]);
    assert_eq!(r.unwrap_err(), StateErrors::DestinationStateNotInStates(6));
}

#[test]
fn new_rejects_atomic_entry_not_in_states() {
    let r = FiniteStateAutomaton::new(
        vec![0, 1],
        vec![1],
        0,
        vec![edge(0, Symbol::Epsilon, 1)],
        vec![entry(Symbol::Terminal(A), A, 9)],
    );
    assert_eq!(r.unwrap_err(), StateErrors::AtomicEntryStateNotInStates(9));
}

#[test]
fn start_accepts_when_start_derives_empty() {
    let fsa = FiniteStateAutomaton::build_fsa(&vec![A], S, &s_rules(), &vec![]);
    assert_eq!(fsa.get_start(), (0, true));
    let only_a = vec![rule(S, vec![Symbol::Terminal(A)])];
    let fsa = FiniteStateAutomaton::build_fsa(&vec![A], S, &only_a, &vec![]);
    assert_eq!(fsa.get_start(), (0, false));
    let empty_rhs = vec![rule(S, vec![])];
    let fsa = FiniteStateAutomaton::build_fsa(&vec![A], S, &empty_rhs, &vec![]);
    assert_eq!(fsa.get_start(), (0, true));
}

#[test]
fn empty_derivation_maps_to_accepting_epsilon_state() {
    let justification = vec![vec![rule(X, vec![Symbol::Epsilon])]];
    let trees = vec![DerivationEntry {
        nonterminal: X,
        terminal: A,
        tree: Derivation::Empty(Some(justification.clone())),
    }];
    let rules = vec![rule(S, vec![Symbol::Nonterminal(X)]), rule(X, vec![Symbol::Epsilon])];
    let fsa = FiniteStateAutomaton::build_fsa(&vec![A], S, &rules, &trees);
    assert_eq!(fsa.get_atomic(Symbol::Nonterminal(X), A), Some((1, Some(justification), true)));
    assert_eq!(fsa.get_atomic(Symbol::Nonterminal(X), B), None);
}

#[test]
fn terminal_matches_itself_at_epsilon_state() {
    let fsa = FiniteStateAutomaton::build_fsa(&vec![A, B], S, &s_rules(), &vec![]);
    assert_eq!(fsa.get_atomic(Symbol::Terminal(A), A), Some((1, None, true)));
    assert_eq!(fsa.get_atomic(Symbol::Terminal(B), B), Some((1, None, true)));
    assert_eq!(fsa.get_atomic(Symbol::Terminal(A), B), None);
    assert!(fsa.is_accepting(&1));
}

#[test]
fn start_state_steps_on_start_nonterminal_only() {
    let fsa = FiniteStateAutomaton::build_fsa(&vec![A], S, &s_rules(), &vec![]);
    assert_eq!(fsa.simulate(&0, Symbol::Nonterminal(S)), Some(vec![(1, None, true)]));
    assert_eq!(fsa.simulate(&0, Symbol::Terminal(A)), None);
    assert_eq!(fsa.simulate(&1, Symbol::Nonterminal(S)), None);
    assert!(fsa.has_transition(&0));
    assert!(!fsa.has_transition(&1));
}

#[test]
fn identical_chains_share_states() {
    let completion = vec![rule(X, vec![Symbol::Terminal(A), Symbol::Terminal(B)])];
    let tail = node(false, completion.clone(), vec![vec![Atom::Terminal(A), Atom::Terminal(B)]]);
    let trees = vec![chain(X, A, vec![tail.clone()]), chain(Y, A, vec![tail.clone()])];
    let fsa = FiniteStateAutomaton::build_fsa(&vec![A, B], S, &s_rules(), &trees);
    let x = fsa.get_atomic(Symbol::Nonterminal(X), A).unwrap();
    let y = fsa.get_atomic(Symbol::Nonterminal(Y), A).unwrap();
    assert_eq!(x.0, y.0);
    // One entry state, one intermediate state and one exit state in all.
    let mid = destinations(&fsa, x.0, Symbol::Terminal(A));
    assert_eq!(mid.len(), 1);
    let end = destinations(&fsa, mid[0].0, Symbol::Terminal(B));
    assert_eq!(end.len(), 1);
    assert_eq!(end[0].1, Some(completion));
    assert!(end[0].2);
    // Entry 2, exit 3 and intermediate 4: the second chain added no state 5.
    assert_eq!((x.0, end[0].0, mid[0].0), (2, 3, 4));
    assert!(!fsa.has_transition(&5));
    assert!(!fsa.is_accepting(&5));
}

#[test]
fn shared_suffix_reuses_its_states() {
    let c = vec![rule(X, vec![Symbol::Terminal(B)])];
    let tail = node(false, c.clone(), vec![vec![Atom::Terminal(B)]]);
    let head_x = node(false, vec![], vec![vec![Atom::Terminal(A)]]);
    let head_y = node(false, vec![], vec![vec![Atom::Nonterminal(S)]]);
    let trees = vec![chain(X, A, vec![head_x, tail.clone()]), chain(Y, A, vec![head_y, tail.clone()])];
    let fsa = FiniteStateAutomaton::build_fsa(&vec![A, B], S, &s_rules(), &trees);
    let x = fsa.get_atomic(Symbol::Nonterminal(X), A).unwrap().0;
    let y = fsa.get_atomic(Symbol::Nonterminal(Y), A).unwrap().0;
    assert_ne!(x, y);
    let after_x = destinations(&fsa, x, Symbol::Terminal(A));
    let after_y = destinations(&fsa, y, Symbol::Nonterminal(S));
    assert_eq!(after_x.len(), 1);
    // The head of Y ends in a nonterminal: its edge goes to a penultimate state.
    assert_eq!(after_y.len(), 1);
    let y_tail = destinations(&fsa, after_y[0].0, Symbol::Epsilon);
    assert_eq!(y_tail.len(), 1);
    assert_eq!(after_x[0].0, y_tail[0].0);
    let exit = destinations(&fsa, after_x[0].0, Symbol::Terminal(B));
    assert_eq!(exit.len(), 1);
    assert_eq!(exit[0].1, Some(c));
    assert!(exit[0].2);
}

#[test]
fn star_node_loops_on_its_start() {
    let c = vec![rule(S, vec![Symbol::Terminal(A), Symbol::Nonterminal(S)])];
    let trees = vec![chain(S, A, vec![node(true, c.clone(), vec![vec![Atom::Terminal(A)]])])];
    let fsa = FiniteStateAutomaton::build_fsa(&vec![A], S, &s_rules(), &trees);
    let (e, rules, accepting) = fsa.get_atomic(Symbol::Nonterminal(S), A).unwrap();
    assert_eq!(rules, None);
    assert!(accepting);
    assert_eq!(fsa.simulate(&e, Symbol::Terminal(A)), Some(vec![(e, Some(c), true)]));
}

#[test]
fn star_node_before_a_suffix_joins_it_by_epsilon() {
    let tail = node(false, vec![], vec![vec![Atom::Terminal(B)]]);
    let loop_a = node(true, vec![], vec![vec![Atom::Terminal(A)]]);
    let trees = vec![chain(X, A, vec![loop_a, tail])];
    let fsa = FiniteStateAutomaton::build_fsa(&vec![A, B], S, &s_rules(), &trees);
    let (e, _, accepting) = fsa.get_atomic(Symbol::Nonterminal(X), A).unwrap();
    assert!(!accepting);
    assert_eq!(destinations(&fsa, e, Symbol::Terminal(A))[0].0, e);
    let join = destinations(&fsa, e, Symbol::Epsilon);
    assert_eq!(join.len(), 1);
    let exit = destinations(&fsa, join[0].0, Symbol::Terminal(B));
    assert_eq!(exit.len(), 1);
    assert!(exit[0].2);
}

#[test]
fn completion_rules_leave_the_penultimate_state() {
    let c = vec![rule(S, vec![Symbol::Terminal(A), Symbol::Nonterminal(S)])];
    let trees = vec![chain(S, A, vec![node(false, c.clone(), vec![vec![Atom::Terminal(A), Atom::Nonterminal(S)]])])];
    let fsa = FiniteStateAutomaton::build_fsa(&vec![A], S, &s_rules(), &trees);
    let e = fsa.get_atomic(Symbol::Nonterminal(S), A).unwrap().0;
    let mid = destinations(&fsa, e, Symbol::Terminal(A));
    assert_eq!(mid.len(), 1);
    assert_eq!(mid[0].1, None);
    let pen = destinations(&fsa, mid[0].0, Symbol::Nonterminal(S));
    assert_eq!(pen.len(), 1);
    assert_eq!(pen[0].1, Some(vec![]));
    assert!(!pen[0].2);
    let end = destinations(&fsa, pen[0].0, Symbol::Epsilon);
    assert_eq!(end.len(), 1);
    assert_eq!(end[0].1, Some(c));
    assert!(end[0].2);
}

#[test]
fn carried_rules_ride_the_nonterminal_edge() {
    let inner = vec![rule(Y, vec![Symbol::Epsilon])];
    let c = vec![rule(X, vec![Symbol::Nonterminal(Y), Symbol::Nonterminal(S)])];
    let branch = vec![Atom::Rules(inner.clone()), Atom::Nonterminal(S)];
    let trees = vec![chain(X, A, vec![node(false, c.clone(), vec![branch])])];
    let fsa = FiniteStateAutomaton::build_fsa(&vec![A], S, &s_rules(), &trees);
    let e = fsa.get_atomic(Symbol::Nonterminal(X), A).unwrap().0;
    let pen = destinations(&fsa, e, Symbol::Nonterminal(S));
    assert_eq!(pen.len(), 1);
    assert_eq!(pen[0].1, Some(inner));
    let end = destinations(&fsa, pen[0].0, Symbol::Epsilon);
    assert_eq!(end[0].1, Some(c));
}

#[test]
fn trailing_rule_tag_closes_with_epsilon() {
    let tag = vec![rule(Y, vec![Symbol::Terminal(A)])];
    let c = vec![rule(X, vec![Symbol::Nonterminal(Y)])];
    let branch = vec![Atom::Terminal(A), Atom::Rules(tag.clone())];
    let trees = vec![chain(X, A, vec![node(false, c.clone(), vec![branch])])];
    let fsa = FiniteStateAutomaton::build_fsa(&vec![A], S, &s_rules(), &trees);
    let e = fsa.get_atomic(Symbol::Nonterminal(X), A).unwrap().0;
    let mid = destinations(&fsa, e, Symbol::Terminal(A));
    assert_eq!(mid.len(), 1);
    let end = destinations(&fsa, mid[0].0, Symbol::Epsilon);
    assert_eq!(end.len(), 1);
    assert_eq!(end[0].1, Some(vec![c[0].clone(), tag[0].clone()]));
    assert!(end[0].2);
}

#[test]
fn branches_of_a_group_share_one_penultimate_state() {
    let c = vec![rule(X, vec![Symbol::Nonterminal(S)])];
    let branches = vec![
        vec![Atom::Terminal(A), Atom::Nonterminal(S)],
        vec![Atom::Terminal(B), Atom::Nonterminal(S)],
    ];
    let trees = vec![chain(X, A, vec![node(false, c.clone(), branches)])];
    let fsa = FiniteStateAutomaton::build_fsa(&vec![A, B], S, &s_rules(), &trees);
    let e = fsa.get_atomic(Symbol::Nonterminal(X), A).unwrap().0;
    let via_a = destinations(&fsa, e, Symbol::Terminal(A))[0].0;
    let via_b = destinations(&fsa, e, Symbol::Terminal(B))[0].0;
    assert_ne!(via_a, via_b);
    let pen_a = destinations(&fsa, via_a, Symbol::Nonterminal(S))[0].0;
    let pen_b = destinations(&fsa, via_b, Symbol::Nonterminal(S))[0].0;
    assert_eq!(pen_a, pen_b);
    assert_eq!(destinations(&fsa, pen_a, Symbol::Epsilon).len(), 1);
}

fn s_automaton() -> FiniteStateAutomaton {
    let c = vec![rule(S, vec![Symbol::Terminal(A), Symbol::Nonterminal(S)])];
    let trees = vec![chain(S, A, vec![node(false, c, vec![vec![Atom::Terminal(A), Atom::Nonterminal(S)]])])];
    FiniteStateAutomaton::build_fsa(&vec![A], S, &s_rules(), &trees)
}

#[test]
fn scenario_entry_of_s_reaches_accepting_state() {
    let fsa = s_automaton();
    let (e, _, _) = fsa.get_atomic(Symbol::Nonterminal(S), A).unwrap();
    let mid = destinations(&fsa, e, Symbol::Terminal(A));
    assert_eq!(mid.len(), 1);
    let pen = destinations(&fsa, mid[0].0, Symbol::Nonterminal(S));
    let end = destinations(&fsa, pen[0].0, Symbol::Epsilon);
    assert!(end[0].2);
    assert_eq!(fsa.get_start(), (0, true));
    assert_eq!(fsa.simulate(&0, Symbol::Nonterminal(S)), Some(vec![(1, None, true)]));
}

#[test]
fn scenario_three_a_ends_accepting() {
    let fsa = s_automaton();
    // Each `a` enters S under lookahead `a`, consumes `a`, then the nested S.
    let mut last_accepting = false;
    for _ in 0..3 {
        let (e, _, _) = fsa.get_atomic(Symbol::Nonterminal(S), A).unwrap();
        let mid = destinations(&fsa, e, Symbol::Terminal(A))[0].0;
        let pen = destinations(&fsa, mid, Symbol::Nonterminal(S))[0].0;
        let end = destinations(&fsa, pen, Symbol::Epsilon)[0].clone();
        last_accepting = end.2;
    }
    assert!(last_accepting);
    // With the input used up, the innermost S derives empty: the start accepts.
    assert!(fsa.get_start().1);
}

#[test]
fn scenario_three_a_on_repeatable_entry() {
    let c = vec![rule(S, vec![Symbol::Terminal(A), Symbol::Nonterminal(S)])];
    let trees = vec![chain(S, A, vec![node(true, c.clone(), vec![vec![Atom::Terminal(A)]])])];
    let fsa = FiniteStateAutomaton::build_fsa(&vec![A], S, &s_rules(), &trees);
    let (mut q, _, _) = fsa.get_atomic(Symbol::Nonterminal(S), A).unwrap();
    for _ in 0..3 {
        let next = destinations(&fsa, q, Symbol::Terminal(A));
        assert_eq!(next, vec![(q, Some(c.clone()), true)]);
        q = next[0].0;
    }
    assert!(fsa.is_accepting(&q));
}

#[test]
fn empty_node_in_chain_gives_entry_rules() {
    let justification = vec![vec![rule(Y, vec![Symbol::Epsilon])]];
    let body = node(false, vec![rule(X, vec![Symbol::Nonterminal(Y), Symbol::Terminal(A)])], vec![vec![Atom::Terminal(A)]]);
    let trees = vec![chain(X, A, vec![DerivationNode::Empty(Some(justification.clone())), body])];
    let fsa = FiniteStateAutomaton::build_fsa(&vec![A], S, &s_rules(), &trees);
    let (e, rules, accepting) = fsa.get_atomic(Symbol::Nonterminal(X), A).unwrap();
    assert_eq!(rules, Some(justification));
    assert!(!accepting);
    let exit = destinations(&fsa, e, Symbol::Terminal(A));
    assert_eq!(exit.len(), 1);
    assert!(exit[0].2);
}

#[test]
fn concat_rules_keeps_order() {
    let a = vec![rule(X, vec![Symbol::Terminal(A)])];
    let b = vec![rule(Y, vec![]), rule(S, vec![Symbol::Epsilon])];
    let r = concat_rules(&a, &b);
    assert_eq!(r, vec![a[0].clone(), b[0].clone(), b[1].clone()]);
    assert_eq!(concat_rules(&vec![], &b), b);
}

#[test]
fn symbol_of_maps_atoms() {
    assert_eq!(symbol_of(&Atom::Terminal(A)), Symbol::Terminal(A));
    assert_eq!(symbol_of(&Atom::Nonterminal(S)), Symbol::Nonterminal(S));
    assert_eq!(symbol_of(&Atom::Epsilon), Symbol::Epsilon);
}

#[test]
fn suffix_eq_compares_content() {
    let p = node(false, vec![], vec![vec![Atom::Terminal(A)]]);
    let q = node(true, vec![], vec![vec![Atom::Terminal(A)]]);
    let a = vec![p.clone(), q.clone()];
    let c = vec![q.clone(), p.clone(), q.clone()];
    assert!(suffix_eq(&a, 0, &c, 1));
    assert!(suffix_eq(&a, 1, &c, 2));
    assert!(!suffix_eq(&a, 0, &c, 0));
    assert!(suffix_eq(&a, 2, &c, 3));
    assert!(!suffix_eq(&a, 1, &c, 1));
}

#[test]
fn duplicated_chain_keeps_entry_rules() {
    let justification = vec![vec![rule(Y, vec![Symbol::Epsilon])]];
    let body = node(false, vec![rule(X, vec![Symbol::Terminal(A)])], vec![vec![Atom::Terminal(A)]]);
    let nodes = vec![DerivationNode::Empty(Some(justification.clone())), body];
    let trees = vec![chain(X, A, nodes.clone()), chain(Y, A, nodes)];
    let fsa = FiniteStateAutomaton::build_fsa(&vec![A], S, &s_rules(), &trees);
    let x = fsa.get_atomic(Symbol::Nonterminal(X), A).unwrap();
    let y = fsa.get_atomic(Symbol::Nonterminal(Y), A).unwrap();
    assert_eq!(x, y);
    assert_eq!(x.1, Some(justification));
    assert!(x.0 >= 2);
}

#[test]
fn tags_ride_the_next_mid_branch_edge() {
    let tag = vec![rule(Y, vec![Symbol::Epsilon])];
    let c = vec![rule(X, vec![Symbol::Terminal(A), Symbol::Terminal(B)])];
    let branch = vec![Atom::Rules(tag.clone()), Atom::Terminal(A), Atom::Terminal(B)];
    let trees = vec![chain(X, A, vec![node(false, c.clone(), vec![branch])])];
    let fsa = FiniteStateAutomaton::build_fsa(&vec![A, B], S, &s_rules(), &trees);
    let e = fsa.get_atomic(Symbol::Nonterminal(X), A).unwrap().0;
    let mid = destinations(&fsa, e, Symbol::Terminal(A));
    assert_eq!(mid.len(), 1);
    assert_eq!(mid[0].1, Some(tag));
    let end = destinations(&fsa, mid[0].0, Symbol::Terminal(B));
    assert_eq!(end, vec![(end[0].0, Some(c), true)]);
}
