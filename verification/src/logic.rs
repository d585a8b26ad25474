use vstd::prelude::*;

pub mod classical;
pub mod lexer;
pub mod modal;
pub mod normal_modal;
pub mod semantics;

use crate::logic::classical::{spec_classical_infer, spec_classical_priority, Classical};
use crate::logic::modal::{
    all_worlds_lt, node_worlds_lt, rule_worlds_lt, spec_interpretation, spec_modal_infer,
    spec_modal_priority, Expr, Modal, Node, World,
};
use crate::logic::normal_modal::{spec_nm_infer, NormalModal};

verus! {

/// The rule set a tableau runs under: one of the fixed, finite family of
/// supported logics, selected when the tableau is built.
#[derive(Debug, Clone, Copy)]
pub enum Logic {
    Classical(Classical),
    Modal(Modal),
    NormalModal(NormalModal),
}

/// Whether this rule set distinguishes worlds when closing branches.
/// Classical logic has a single implicit world; the modal logics close a
/// branch only on a clash within one world.
pub open spec fn spec_logic_same_world(l: Logic) -> bool {
    !(l is Classical)
}

/// The decomposition the selected rule set gives a node on a branch.
pub open spec fn spec_logic_infer(l: Logic, n: Node, branch: Seq<Node>) -> RuleView<Node> {
    match l {
        Logic::Classical(_) => spec_classical_infer(n),
        Logic::Modal(_) => spec_modal_infer(n, branch),
        Logic::NormalModal(nm) => spec_nm_infer(nm, n, branch),
    }
}

/// The expansion priority the selected rule set gives a node.
pub open spec fn spec_logic_priority(l: Logic, n: Node) -> u16 {
    match l {
        Logic::Classical(_) => spec_classical_priority(n),
        Logic::Modal(_) => spec_modal_priority(n),
        Logic::NormalModal(_) => 0u16,
    }
}

/// Whether `a` and `b` are clashing literals: the same atom asserted with
/// opposite truth values, and (when `same_world` is set) at the same world.
pub open spec fn spec_clash(a: Node, b: Node, same_world: bool) -> bool {
    match (spec_interpretation(a), spec_interpretation(b)) {
        (Some((id1, v1, w1)), Some((id2, v2, w2))) => id1 == id2 && v1 != v2 && (same_world ==> w1
            == w2),
        _ => false,
    }
}

/// Whether a branch (leaf first, root last) is closed by its leaf: the leaf is
/// a literal and some node of the branch asserts the opposite literal. With
/// `same_world` set, literals clash only when asserted at the same world.
pub open spec fn spec_branch_contradiction(branch: Seq<Node>, same_world: bool) -> bool {
    &&& branch.len() > 0
    &&& exists|i: int|
        0 <= i < branch.len() && #[trigger] spec_clash(branch[0], branch[i], same_world)
}

impl Logic {
    /// Decomposes a node per the selected rule set, against a branch given
    /// leaf first, root last. Whatever bound the branch's and node's worlds
    /// respect, the produced nodes respect the next one up: at most one fresh
    /// world is ever introduced.
    pub fn infer(&self, node: &Node, branch: &Vec<Node>) -> (r: InferenceRule<Node>)
        requires
            all_worlds_lt(branch@, usize::MAX as int),
        ensures
            r@ == spec_logic_infer(*self, *node, branch@),
            forall|b: int|
                all_worlds_lt(branch@, b) && node_worlds_lt(*node, b) && b <= usize::MAX as int
                    ==> rule_worlds_lt(r@, b + 1),
    {
        let r = match self {
            Logic::Classical(c) => c.infer(node, branch),
            Logic::Modal(m) => m.infer(node, branch),
            Logic::NormalModal(nm) => nm.infer(node, branch),
        };
        proof {
            assert forall|b: int|
                all_worlds_lt(branch@, b) && node_worlds_lt(*node, b) && b
                    <= usize::MAX as int implies rule_worlds_lt(r@, b + 1) by {
                match *self {
                    Logic::Classical(_) => {
                        crate::logic::classical::lemma_classical_infer_worlds(*node, b);
                        crate::logic::modal::lemma_rule_worlds_monotone(
                            spec_classical_infer(*node),
                            b,
                            b + 1,
                        );
                    },
                    Logic::Modal(_) => {
                        crate::logic::modal::lemma_modal_infer_worlds(*node, branch@, b);
                    },
                    Logic::NormalModal(nm) => {
                        crate::logic::normal_modal::lemma_nm_infer_worlds(nm, *node, branch@, b);
                    },
                }
            }
        }
        r
    }

    /// Whether the branch (leaf first, root last) is closed under the
    /// selected rule set's notion of a clash.
    pub fn has_contradiction(&self, branch: &Vec<Node>) -> (r: bool)
        ensures
            r == spec_branch_contradiction(branch@, spec_logic_same_world(*self)),
    {
        match self {
            Logic::Classical(c) => c.has_contradiction(branch),
            Logic::Modal(m) => m.has_contradiction(branch),
            Logic::NormalModal(nm) => nm.has_contradiction(branch),
        }
    }

    /// The expansion priority the selected rule set gives a node.
    pub fn priority(&self, node: &Node) -> (r: u16)
        ensures
            r == spec_logic_priority(*self, *node),
    {
        match self {
            Logic::Classical(c) => c.priority(node),
            Logic::Modal(m) => m.priority(node),
            Logic::NormalModal(nm) => nm.priority(node),
        }
    }

    /// Wraps a raw expression as a tableau node assuming it true, in the
    /// initial world.
    pub fn make_premise_node(&self, expr: Expr) -> (r: Node)
        ensures
            r == (Node::Expr { expr, world: World(0usize) }),
    {
        Node::Expr { expr, world: World(0) }
    }

    /// Wraps a raw expression as a tableau node denying it, in the initial
    /// world: the conclusion is tested by refuting its negation.
    pub fn make_conclusion_node(&self, expr: Expr) -> (r: Node)
        ensures
            r == (Node::Expr { expr: Expr::Not(Box::new(expr)), world: World(0usize) }),
    {
        Node::Expr { expr: Expr::Not(Box::new(expr)), world: World(0) }
    }
}

/// Scans a branch for a literal clashing with the leaf's literal.
pub(crate) fn find_contradiction(branch: &Vec<Node>, same_world: bool) -> (r: bool)
    ensures
        r == spec_branch_contradiction(branch@, same_world),
{
    if branch.len() == 0 {
        return false;
    }
    let leaf_interp = branch[0].interpretation();
    let (id, value, world) = match leaf_interp {
        Some(t) => t,
        None => {
            return false;
        },
    };
    let mut i: usize = 0;
    while i < branch.len()
        invariant
            i <= branch@.len(),
            spec_interpretation(branch@[0]) == Some((id, value, world)),
            forall|j: int|
                0 <= j < i ==> !(#[trigger] spec_clash(branch@[0], branch@[j], same_world)),
        decreases branch@.len() - i,
    {
        match branch[i].interpretation() {
            Some((id2, v2, w2)) => {
                if id2 == id && v2 != value && (!same_world || w2 == world) {
                    proof {
                        assert(spec_clash(branch@[0], branch@[i as int], same_world));
                    }
                    return true;
                }
            },
            None => {},
        }
        i = i + 1;
    }
    false
}

/// The decomposition a rule set returns for one node, with the tree-splitting
/// meaning the tableau engine gives to each shape:
/// - `Terminal`: no rule applies; nothing is added anywhere.
/// - `Single(x)`: append `x` under every live leaf.
/// - `Split(a, b)`: open two sibling branches `a` and `b` under every live leaf.
/// - `Chain(xs)`: append `xs` as one linear path under every live leaf,
///   stopping early on the leaf's branch if a prefix already closes it.
/// - `SplitAndChain(a1, a2, b1, b2)`: two sibling branches, each a two-node
///   chain: `a1-a2` and `b1-b2`.
#[derive(Debug)]
pub enum InferenceRule<E> {
    Terminal,
    Single(E),
    Split(E, E),
    Chain(Vec<E>),
    SplitAndChain(E, E, E, E),
}

/// The mathematical shape of an [`InferenceRule`], with chains as sequences.
pub enum RuleView<E> {
    Terminal,
    Single(E),
    Split(E, E),
    Chain(Seq<E>),
    SplitAndChain(E, E, E, E),
}

impl<E> View for InferenceRule<E> {
    type V = RuleView<E>;

    open spec fn view(&self) -> RuleView<E> {
        match self {
            InferenceRule::Terminal => RuleView::Terminal,
            InferenceRule::Single(a) => RuleView::Single(*a),
            InferenceRule::Split(a, b) => RuleView::Split(*a, *b),
            InferenceRule::Chain(v) => RuleView::Chain(v@),
            InferenceRule::SplitAndChain(a, b, c, d) => RuleView::SplitAndChain(*a, *b, *c, *d),
        }
    }
}

impl<E> InferenceRule<E> {
    /// The result meaning that no rule applies to the node.
    pub fn none() -> (r: Self)
        ensures
            r@ == RuleView::<E>::Terminal,
    {
        InferenceRule::Terminal
    }

    /// A rule that appends one node under every live leaf.
    pub fn single(v: E) -> (r: Self)
        ensures
            r@ == RuleView::Single(v),
    {
        InferenceRule::Single(v)
    }

    /// A rule that opens two sibling branches under every live leaf.
    pub fn split(left: E, right: E) -> (r: Self)
        ensures
            r@ == RuleView::Split(left, right),
    {
        InferenceRule::Split(left, right)
    }

    /// A rule that appends a linear path under every live leaf.
    pub fn chain(exprs: Vec<E>) -> (r: Self)
        ensures
            r@ == RuleView::Chain(exprs@),
    {
        InferenceRule::Chain(exprs)
    }

    /// A rule that opens two sibling branches, each a two-node chain.
    pub fn split_and_chain(left_first: E, left_second: E, right_first: E, right_second: E) -> (r:
        Self)
        ensures
            r@ == RuleView::SplitAndChain(left_first, left_second, right_first, right_second),
    {
        InferenceRule::SplitAndChain(left_first, left_second, right_first, right_second)
    }

    /// Applies `f` to every node of the rule, keeping its shape.
    pub fn map<F, G: Fn(E) -> F>(self, f: G) -> (r: InferenceRule<F>)
        requires
            forall|e: E| #[trigger] call_requires(f, (e,)),
        ensures
            self@ matches RuleView::Terminal ==> r@ matches RuleView::Terminal,
            self@ matches RuleView::Single(a) ==> (r@ matches RuleView::Single(ra)
                && call_ensures(f, (a,), ra)),
            self@ matches RuleView::Split(a, b) ==> (r@ matches RuleView::Split(ra, rb)
                && call_ensures(f, (a,), ra) && call_ensures(f, (b,), rb)),
            self@ matches RuleView::Chain(v) ==> (r@ matches RuleView::Chain(rv) && rv.len()
                == v.len() && forall|i: int|
                0 <= i < v.len() ==> call_ensures(f, (v[i],), #[trigger] rv[i])),
            self@ matches RuleView::SplitAndChain(a, b, c, d) ==> (r@
                matches RuleView::SplitAndChain(ra, rb, rc, rd) && call_ensures(f, (a,), ra)
                && call_ensures(f, (b,), rb) && call_ensures(f, (c,), rc) && call_ensures(
                f,
                (d,),
                rd,
            )),
    {
        match self {
            InferenceRule::Terminal => InferenceRule::Terminal,
            InferenceRule::Single(a) => InferenceRule::Single(f(a)),
            InferenceRule::Split(a, b) => InferenceRule::Split(f(a), f(b)),
            InferenceRule::Chain(exprs) => {
                let ghost orig = exprs@;
                let mut rest = exprs;
                let mut out: Vec<F> = Vec::new();
                while rest.len() > 0
                    invariant
                        forall|e: E| #[trigger] call_requires(f, (e,)),
                        out@.len() + rest@.len() == orig.len(),
                        rest@ == orig.skip(out@.len() as int),
                        forall|i: int|
                            0 <= i < out@.len() ==> call_ensures(f, (orig[i],), #[trigger] out@[i]),
                    decreases rest@.len(),
                {
                    let e = rest.remove(0);
                    out.push(f(e));
                }
                InferenceRule::Chain(out)
            },
            InferenceRule::SplitAndChain(a, b, c, d) => InferenceRule::SplitAndChain(
                f(a),
                f(b),
                f(c),
                f(d),
            ),
        }
    }
}

} // verus!
