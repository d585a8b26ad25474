use vstd::prelude::*;

use crate::logic::lexer::Symbol;
use crate::logic::modal::{node_worlds_lt, rule_worlds_lt, Expr, Node, World};
use crate::logic::{InferenceRule, RuleView};

verus! {

/// Every node the classical table produces stays at the world of the node it
/// decomposes, so any bound on that world is kept.
pub proof fn lemma_classical_infer_worlds(n: Node, b: int)
    requires
        node_worlds_lt(n, b),
    ensures
        rule_worlds_lt(spec_classical_infer(n), b),
{
}

/// The classical propositional rule set. Nodes keep whatever world tag they
/// carry (always the initial world, since no classical rule creates worlds).
#[derive(Debug, Clone, Copy)]
pub struct Classical {}

/// Negation of a formula, at the specification level.
pub open spec fn neg(e: Expr) -> Expr {
    Expr::Not(Box::new(e))
}

/// An expression node at a given world.
pub open spec fn at(e: Expr, w: World) -> Node {
    Node::Expr { expr: e, world: w }
}

/// The classical decomposition table. Atoms and negated atoms are terminal;
/// conjunctive shapes become chains, disjunctive shapes become splits, and
/// the biconditional becomes a split of two chains. Modal operators are
/// terminal for this rule set, as are bare relation nodes.
pub open spec fn spec_classical_infer(n: Node) -> RuleView<Node> {
    match n {
        Node::Relation { .. } => RuleView::Terminal,
        Node::Expr { expr: e, world: w } => match e {
            Expr::Const(_) => RuleView::Terminal,
            Expr::Not(p) => match *p {
                Expr::Const(_) => RuleView::Terminal,
                Expr::Not(q) => RuleView::Single(at(*q, w)),
                Expr::And(p2, q2) => RuleView::Split(at(neg(*p2), w), at(neg(*q2), w)),
                Expr::Or(p2, q2) => RuleView::Chain(seq![at(neg(*p2), w), at(neg(*q2), w)]),
                Expr::MatImpl(p2, q2) => RuleView::Chain(seq![at(*p2, w), at(neg(*q2), w)]),
                Expr::MatEquiv(p2, q2) => RuleView::SplitAndChain(
                    at(neg(*p2), w),
                    at(*q2, w),
                    at(*p2, w),
                    at(neg(*q2), w),
                ),
                Expr::Possibility(_) => RuleView::Terminal,
                Expr::Necessity(_) => RuleView::Terminal,
            },
            Expr::And(p, q) => RuleView::Chain(seq![at(*p, w), at(*q, w)]),
            Expr::Or(p, q) => RuleView::Split(at(*p, w), at(*q, w)),
            Expr::MatImpl(p, q) => RuleView::Split(at(neg(*p), w), at(*q, w)),
            Expr::MatEquiv(p, q) => RuleView::SplitAndChain(
                at(*p, w),
                at(*q, w),
                at(neg(*p), w),
                at(neg(*q), w),
            ),
            Expr::Possibility(_) => RuleView::Terminal,
            Expr::Necessity(_) => RuleView::Terminal,
        },
    }
}

/// The classical expansion priority of a node: higher expands sooner, biased
/// toward rules that do not branch.
pub open spec fn spec_classical_priority(n: Node) -> u16 {
    match n {
        Node::Relation { .. } => 0u16,
        Node::Expr { expr: e, .. } => match e {
            Expr::Const(_) => 10u16,
            Expr::Not(p) => match *p {
                Expr::Const(_) => 10u16,
                Expr::Not(_) => 9u16,
                Expr::And(_, _) => 7u16,
                Expr::Or(_, _) => 8u16,
                Expr::MatImpl(_, _) => 8u16,
                Expr::MatEquiv(_, _) => 6u16,
                Expr::Possibility(_) => 0u16,
                Expr::Necessity(_) => 0u16,
            },
            Expr::And(_, _) => 8u16,
            Expr::Or(_, _) => 7u16,
            Expr::MatImpl(_, _) => 7u16,
            Expr::MatEquiv(_, _) => 6u16,
            Expr::Possibility(_) => 0u16,
            Expr::Necessity(_) => 0u16,
        },
    }
}

/// Decomposes one expression node per the classical table, tagging every
/// produced formula with the world of the decomposed node.
pub(crate) fn classical_step(expr: &Expr, world: World) -> (r: InferenceRule<Node>)
    ensures
        r@ == spec_classical_infer(Node::Expr { expr: *expr, world }),
{
    match expr {
        Expr::Const(_) => InferenceRule::none(),
        Expr::Not(p) => match &**p {
            Expr::Const(_) => InferenceRule::none(),
            Expr::Not(q) => InferenceRule::single(Node::Expr { expr: (**q).clone(), world }),
            Expr::And(p2, q2) => InferenceRule::split(
                Node::Expr { expr: p2.not(), world },
                Node::Expr { expr: q2.not(), world },
            ),
            Expr::Or(p2, q2) => {
                let chain = vec![
                    Node::Expr { expr: p2.not(), world },
                    Node::Expr { expr: q2.not(), world },
                ];
                assert(chain@ =~= seq![at(neg(**p2), world), at(neg(**q2), world)]);
                InferenceRule::chain(chain)
            },
            Expr::MatImpl(p2, q2) => {
                let chain = vec![
                    Node::Expr { expr: (**p2).clone(), world },
                    Node::Expr { expr: q2.not(), world },
                ];
                assert(chain@ =~= seq![at(**p2, world), at(neg(**q2), world)]);
                InferenceRule::chain(chain)
            },
            Expr::MatEquiv(p2, q2) => InferenceRule::split_and_chain(
                Node::Expr { expr: p2.not(), world },
                Node::Expr { expr: (**q2).clone(), world },
                Node::Expr { expr: (**p2).clone(), world },
                Node::Expr { expr: q2.not(), world },
            ),
            Expr::Possibility(_) => InferenceRule::none(),
            Expr::Necessity(_) => InferenceRule::none(),
        },
        Expr::And(p, q) => {
            let chain = vec![
                Node::Expr { expr: (**p).clone(), world },
                Node::Expr { expr: (**q).clone(), world },
            ];
            assert(chain@ =~= seq![at(**p, world), at(**q, world)]);
            InferenceRule::chain(chain)
        },
        Expr::Or(p, q) => InferenceRule::split(
            Node::Expr { expr: (**p).clone(), world },
            Node::Expr { expr: (**q).clone(), world },
        ),
        Expr::MatImpl(p, q) => InferenceRule::split(
            Node::Expr { expr: p.not(), world },
            Node::Expr { expr: (**q).clone(), world },
        ),
        Expr::MatEquiv(p, q) => InferenceRule::split_and_chain(
            Node::Expr { expr: (**p).clone(), world },
            Node::Expr { expr: (**q).clone(), world },
            Node::Expr { expr: p.not(), world },
            Node::Expr { expr: q.not(), world },
        ),
        Expr::Possibility(_) => InferenceRule::none(),
        Expr::Necessity(_) => InferenceRule::none(),
    }
}

impl Classical {
    /// Symbols used in classical logic.
    pub fn symbols() -> (r: Vec<Symbol>)
        ensures
            r@ == seq![
                Symbol::Not,
                Symbol::And,
                Symbol::Or,
                Symbol::MatImpl,
                Symbol::MatEquiv,
            ],
    {
        let mut out: Vec<Symbol> = Vec::new();
        out.push(Symbol::Not);
        out.push(Symbol::And);
        out.push(Symbol::Or);
        out.push(Symbol::MatImpl);
        out.push(Symbol::MatEquiv);
        proof {
            assert(out@ =~= seq![
                Symbol::Not,
                Symbol::And,
                Symbol::Or,
                Symbol::MatImpl,
                Symbol::MatEquiv,
            ]);
        }
        out
    }

    /// Decomposes a node per the classical table. The branch plays no role in
    /// classical decomposition.
    pub fn infer(&self, node: &Node, _branch: &Vec<Node>) -> (r: InferenceRule<Node>)
        ensures
            r@ == spec_classical_infer(*node),
    {
        match node {
            Node::Expr { expr, world } => classical_step(expr, *world),
            Node::Relation { .. } => InferenceRule::none(),
        }
    }

    /// Whether the branch (leaf first, root last) asserts some atom both true
    /// and false, in any worlds.
    pub fn has_contradiction(&self, branch: &Vec<Node>) -> (r: bool)
        ensures
            r == crate::logic::spec_branch_contradiction(branch@, false),
    {
        crate::logic::find_contradiction(branch, false)
    }

    /// The classical expansion priority of a node: higher expands sooner.
    pub fn priority(&self, node: &Node) -> (r: u16)
        ensures
            r == spec_classical_priority(*node),
    {
        match node {
            Node::Relation { .. } => 0,
            Node::Expr { expr: e, .. } => match e {
                Expr::Const(_) => 10,
                Expr::Not(p) => match &**p {
                    Expr::Const(_) => 10,
                    Expr::Not(_) => 9,
                    Expr::And(_, _) => 7,
                    Expr::Or(_, _) => 8,
                    Expr::MatImpl(_, _) => 8,
                    Expr::MatEquiv(_, _) => 6,
                    Expr::Possibility(_) => 0,
                    Expr::Necessity(_) => 0,
                },
                Expr::And(_, _) => 8,
                Expr::Or(_, _) => 7,
                Expr::MatImpl(_, _) => 7,
                Expr::MatEquiv(_, _) => 6,
                Expr::Possibility(_) => 0,
                Expr::Necessity(_) => 0,
            },
        }
    }
}

} // verus!
