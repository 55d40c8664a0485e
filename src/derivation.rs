use vstd::prelude::*;

use crate::symbol::{Atom, AtomV, DeepEq, Nonterminal, Rules, RulesV, Terminal};

verus! {

/// Alternative branches that complete the same productions when they reach
/// the end of their node.
#[derive(Clone, Debug)]
pub struct BranchGroup {
    /// Productions completed when a branch of this group reaches its end.
    pub completion: Rules,
    /// Each branch is a sequence of atoms.
    pub branches: Vec<Vec<Atom>>,
}

pub type GroupV = (RulesV, Seq<Seq<AtomV>>);

impl DeepView for BranchGroup {
    type V = GroupV;

    open spec fn deep_view(&self) -> GroupV {
        (self.completion.deep_view(), self.branches.deep_view())
    }
}

impl DeepEq for BranchGroup {
    fn deep_eq(&self, other: &Self) -> (r: bool) {
        self.completion.deep_eq(&other.completion) && self.branches.deep_eq(&other.branches)
    }
}

/// One node of a derivation tree.
#[derive(Clone, Debug)]
pub enum DerivationNode {
    /// Derives the empty string, justified by the given rule sequences.
    Empty(Option<Vec<Rules>>),
    /// Alternatives; `star` lets the node repeat by looping back to its start.
    Branching { star: bool, groups: Vec<BranchGroup> },
}

pub enum NodeV {
    Empty(Option<Seq<RulesV>>),
    Branching(bool, Seq<GroupV>),
}

impl DeepView for DerivationNode {
    type V = NodeV;

    open spec fn deep_view(&self) -> NodeV {
        match self {
            DerivationNode::Empty(r) => NodeV::Empty(r.deep_view()),
            DerivationNode::Branching { star, groups } => NodeV::Branching(*star, groups.deep_view()),
        }
    }
}

impl DeepEq for DerivationNode {
    fn deep_eq(&self, other: &Self) -> (r: bool) {
        match (self, other) {
            (DerivationNode::Empty(a), DerivationNode::Empty(b)) => a.deep_eq(b),
            (
                DerivationNode::Branching { star: s1, groups: g1 },
                DerivationNode::Branching { star: s2, groups: g2 },
            ) => *s1 == *s2 && g1.deep_eq(g2),
            _ => false,
        }
    }
}

/// The derivation of a nonterminal under a lookahead terminal.
#[derive(Clone, Debug)]
pub enum Derivation {
    /// The pair derives the empty string, justified by the given rule sequences.
    Empty(Option<Vec<Rules>>),
    /// A sequence of nodes matched one after the other.
    Chain(Vec<DerivationNode>),
}

/// The derivation tree of one (nonterminal, lookahead terminal) pair.
#[derive(Clone, Debug)]
pub struct DerivationEntry {
    pub nonterminal: Nonterminal,
    pub terminal: Terminal,
    pub tree: Derivation,
}

/// Every branch of the node has at least one atom.
pub open spec fn node_well_formed(n: DerivationNode) -> bool {
    match n {
        DerivationNode::Empty(_) => true,
        DerivationNode::Branching { groups, .. } => forall|g: int, j: int|
            0 <= g < groups@.len() && 0 <= j < groups@[g].branches@.len()
                ==> (#[trigger] groups@[g].branches@[j])@.len() > 0,
    }
}

/// A chain has at least one node, and each node is well formed.
pub open spec fn chain_well_formed(ns: Seq<DerivationNode>) -> bool {
    &&& ns.len() > 0
    &&& forall|k: int| 0 <= k < ns.len() ==> node_well_formed(#[trigger] ns[k])
}

/// Upper bound on the states the branches from `i` on can need: one per
/// atom, plus a penultimate state each.
pub open spec fn branches_cost(bs: Seq<Vec<Atom>>, i: int) -> nat
    decreases bs.len() - i,
{
    if i < 0 || i >= bs.len() {
        0
    } else {
        bs[i]@.len() + 1 + branches_cost(bs, i + 1)
    }
}

pub open spec fn groups_cost(gs: Seq<BranchGroup>, i: int) -> nat
    decreases gs.len() - i,
{
    if i < 0 || i >= gs.len() {
        0
    } else {
        branches_cost(gs[i].branches@, 0) + groups_cost(gs, i + 1)
    }
}

/// Upper bound on the states a node can need.
pub open spec fn node_cost(n: DerivationNode) -> nat {
    match n {
        DerivationNode::Empty(_) => 1,
        DerivationNode::Branching { groups, .. } => 2 + groups_cost(groups@, 0),
    }
}

pub open spec fn nodes_cost(ns: Seq<DerivationNode>, i: int) -> nat
    decreases ns.len() - i,
{
    if i < 0 || i >= ns.len() {
        0
    } else {
        node_cost(ns[i]) + nodes_cost(ns, i + 1)
    }
}

/// Upper bound on the states that compiling the entries from `i` on can need.
pub open spec fn entries_cost(es: Seq<DerivationEntry>, i: int) -> nat
    decreases es.len() - i,
{
    if i < 0 || i >= es.len() {
        0
    } else {
        match es[i].tree {
            Derivation::Empty(_) => entries_cost(es, i + 1),
            Derivation::Chain(ns) => nodes_cost(ns@, 0) + entries_cost(es, i + 1),
        }
    }
}

} // verus!
