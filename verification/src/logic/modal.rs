use vstd::prelude::*;

use crate::logic::classical::{at, classical_step, neg, spec_classical_infer};
use crate::logic::lexer::Symbol;
use crate::logic::{InferenceRule, RuleView};

verus! {

/// A possible-world tag attached to modal nodes. Worlds are small integers
/// local to one proof run; fresh worlds are allocated by incrementing the
/// largest world seen so far on a branch.
#[derive(Debug, Clone, Copy, PartialEq, Eq, Structural, Hash)]
pub struct World(pub usize);

impl World {
    /// The initial world in which premises and the conclusion are asserted.
    pub fn zero() -> (r: World)
        ensures
            r == (World(0usize)),
    {
        World(0)
    }

    /// The next world tag after this one.
    pub fn next(&self) -> (r: World)
        requires
            self.0 < usize::MAX,
        ensures
            r == (World((self.0 + 1) as usize)),
    {
        World(self.0 + 1)
    }
}

/// A formula: propositional constants, the classical connectives, and the two
/// modal operators. Constants are identified by an integer id; mapping ids to
/// display names is the caller's concern.
#[derive(Debug, PartialEq, Eq, Hash)]
pub enum Expr {
    Const(u64),
    Not(Box<Expr>),
    And(Box<Expr>, Box<Expr>),
    Or(Box<Expr>, Box<Expr>),
    MatImpl(Box<Expr>, Box<Expr>),
    MatEquiv(Box<Expr>, Box<Expr>),
    Possibility(Box<Expr>),
    Necessity(Box<Expr>),
}

impl Clone for Expr {
    fn clone(&self) -> (r: Self)
        ensures
            r == *self,
        decreases *self,
    {
        match self {
            Expr::Const(id) => Expr::Const(*id),
            Expr::Not(p) => Expr::Not(Box::new((**p).clone())),
            Expr::And(p, q) => Expr::And(Box::new((**p).clone()), Box::new((**q).clone())),
            Expr::Or(p, q) => Expr::Or(Box::new((**p).clone()), Box::new((**q).clone())),
            Expr::MatImpl(p, q) => Expr::MatImpl(Box::new((**p).clone()), Box::new((**q).clone())),
            Expr::MatEquiv(p, q) => Expr::MatEquiv(
                Box::new((**p).clone()),
                Box::new((**q).clone()),
            ),
            Expr::Possibility(p) => Expr::Possibility(Box::new((**p).clone())),
            Expr::Necessity(p) => Expr::Necessity(Box::new((**p).clone())),
        }
    }
}

impl Expr {
    /// The negation of this formula.
    pub fn not(&self) -> (r: Expr)
        ensures
            r == (Expr::Not(Box::new(*self))),
    {
        Expr::Not(Box::new(self.clone()))
    }
}

/// One commitment on a branch: either a formula asserted at a world, or an
/// accessibility edge between two worlds discovered on that branch.
#[derive(Debug, PartialEq, Eq, Hash)]
pub enum Node {
    Expr { expr: Expr, world: World },
    Relation { from: World, to: World },
}

impl Clone for Node {
    fn clone(&self) -> (r: Self)
        ensures
            r == *self,
    {
        match self {
            Node::Expr { expr, world } => Node::Expr { expr: expr.clone(), world: *world },
            Node::Relation { from, to } => Node::Relation { from: *from, to: *to },
        }
    }
}

/// The world of an expression node, if any.
pub open spec fn spec_world(n: Node) -> Option<World> {
    match n {
        Node::Expr { world, .. } => Some(world),
        Node::Relation { .. } => None,
    }
}

/// The world a relation node grants access to, when its source is `world`.
pub open spec fn spec_accessible_world_from(n: Node, world: World) -> Option<World> {
    match n {
        Node::Relation { from, to } if from == world => Some(to),
        _ => None,
    }
}

/// The atomic commitment a node makes, if it is a literal: the constant's id,
/// whether it is asserted or denied, and the world of the assertion.
pub open spec fn spec_interpretation(n: Node) -> Option<(u64, bool, World)> {
    match n {
        Node::Expr { expr: Expr::Const(id), world } => Some((id, true, world)),
        Node::Expr { expr: Expr::Not(p), world } => match *p {
            Expr::Const(id) => Some((id, false, world)),
            _ => None,
        },
        _ => None,
    }
}

impl Node {
    /// The world of an expression node, if any.
    pub fn world(&self) -> (r: Option<World>)
        ensures
            r == spec_world(*self),
    {
        match self {
            Node::Expr { world, .. } => Some(*world),
            _ => None,
        }
    }

    /// What world can the node access, assuming we start from the given world.
    ///
    /// Returns `None` if the node is not a relation or if the given world is
    /// not the source world.
    pub fn accessible_world_from(&self, world: World) -> (r: Option<World>)
        ensures
            r == spec_accessible_world_from(*self, world),
    {
        match self {
            Node::Relation { from, to } => {
                if *from == world {
                    Some(*to)
                } else {
                    None
                }
            },
            _ => None,
        }
    }

    /// Interpretation of a constant, if any.
    ///
    /// Returns an `(id, truth_value, world)` triple if the node is a constant
    /// expression or a negated constant expression, `None` otherwise.
    pub fn interpretation(&self) -> (r: Option<(u64, bool, World)>)
        ensures
            r == spec_interpretation(*self),
    {
        match self {
            Node::Expr { expr: Expr::Const(id), world } => Some((*id, true, *world)),
            Node::Expr { expr: Expr::Not(p), world } => match &**p {
                Expr::Const(id) => Some((*id, false, *world)),
                _ => None,
            },
            _ => None,
        }
    }
}

/// All worlds mentioned by a node lie below `bound`.
pub open spec fn node_worlds_lt(n: Node, bound: int) -> bool {
    match n {
        Node::Expr { world, .. } => world.0 < bound,
        Node::Relation { from, to } => from.0 < bound && to.0 < bound,
    }
}

/// All worlds mentioned anywhere in a sequence of nodes lie below `bound`.
pub open spec fn all_worlds_lt(s: Seq<Node>, bound: int) -> bool {
    forall|i: int| 0 <= i < s.len() ==> node_worlds_lt(#[trigger] s[i], bound)
}

/// All worlds mentioned by the nodes of a rule lie below `bound`.
pub open spec fn rule_worlds_lt(rv: RuleView<Node>, bound: int) -> bool {
    match rv {
        RuleView::Terminal => true,
        RuleView::Single(n) => node_worlds_lt(n, bound),
        RuleView::Split(a, b) => node_worlds_lt(a, bound) && node_worlds_lt(b, bound),
        RuleView::Chain(s) => all_worlds_lt(s, bound),
        RuleView::SplitAndChain(a, b, c, d) => node_worlds_lt(a, bound) && node_worlds_lt(b, bound)
            && node_worlds_lt(c, bound) && node_worlds_lt(d, bound),
    }
}

/// The largest world tag of any expression node in the sequence, if any.
pub open spec fn spec_max_world(s: Seq<Node>) -> Option<World>
    decreases s.len(),
{
    if s.len() == 0 {
        None
    } else {
        let rest = spec_max_world(s.drop_last());
        match (spec_world(s.last()), rest) {
            (None, r) => r,
            (Some(w), None) => Some(w),
            (Some(w), Some(m)) => if w.0 > m.0 {
                Some(w)
            } else {
                Some(m)
            },
        }
    }
}

/// The world a possibility rule allocates against this branch: one greater
/// than the largest world seen among the branch's nodes, or zero if none.
pub open spec fn spec_fresh_world(s: Seq<Node>) -> World {
    match spec_max_world(s) {
        None => World(0usize),
        Some(m) => World((m.0 + 1) as usize),
    }
}

/// The instances a necessity rule emits: `p` asserted at every world that a
/// relation node of the branch makes accessible from `w`, in branch order.
pub open spec fn spec_necessity_instances(s: Seq<Node>, w: World, p: Expr) -> Seq<Node>
    decreases s.len(),
{
    if s.len() == 0 {
        Seq::empty()
    } else {
        let pre = spec_necessity_instances(s.drop_last(), w, p);
        match spec_accessible_world_from(s.last(), w) {
            Some(w2) => pre.push(Node::Expr { expr: p, world: w2 }),
            None => pre,
        }
    }
}

/// The basic modal (K) decomposition: classical connectives decompose as in
/// the classical table at the node's world; negated modalities flip to the
/// dual; a possibility opens a fresh world reached from the current one; a
/// necessity is instantiated at every world accessible from the current one
/// along the branch. Relation nodes are terminal.
pub open spec fn spec_modal_infer(n: Node, branch: Seq<Node>) -> RuleView<Node> {
    match n {
        Node::Relation { .. } => RuleView::Terminal,
        Node::Expr { expr: e, world: w } => match e {
            Expr::Not(p) => match *p {
                Expr::Possibility(q) => RuleView::Single(at(Expr::Necessity(Box::new(neg(*q))), w)),
                Expr::Necessity(q) => RuleView::Single(at(Expr::Possibility(Box::new(neg(*q))), w)),
                _ => spec_classical_infer(n),
            },
            Expr::Possibility(p) => {
                let fresh = spec_fresh_world(branch);
                RuleView::Chain(seq![Node::Relation { from: w, to: fresh }, at(*p, fresh)])
            },
            Expr::Necessity(p) => RuleView::Chain(spec_necessity_instances(branch, w, *p)),
            _ => spec_classical_infer(n),
        },
    }
}

/// The largest world of the sequence is itself a world of the sequence, so it
/// respects any bound the sequence respects.
pub proof fn lemma_max_world_lt(s: Seq<Node>, bound: int)
    requires
        all_worlds_lt(s, bound),
    ensures
        spec_max_world(s) matches Some(m) ==> m.0 < bound,
    decreases s.len(),
{
    if s.len() > 0 {
        assert(all_worlds_lt(s.drop_last(), bound)) by {
            assert(forall|i: int|
                0 <= i < s.len() - 1 ==> node_worlds_lt(#[trigger] s.drop_last()[i], bound));
        }
        lemma_max_world_lt(s.drop_last(), bound);
        assert(node_worlds_lt(s[s.len() - 1], bound));
    }
}

/// Necessity instances only mention the instantiated world tags of the
/// branch, so they respect any bound the branch respects.
pub proof fn lemma_necessity_instances_worlds(s: Seq<Node>, w: World, p: Expr, bound: int)
    requires
        all_worlds_lt(s, bound),
    ensures
        all_worlds_lt(spec_necessity_instances(s, w, p), bound),
    decreases s.len(),
{
    if s.len() > 0 {
        assert(all_worlds_lt(s.drop_last(), bound)) by {
            assert(forall|i: int|
                0 <= i < s.len() - 1 ==> node_worlds_lt(#[trigger] s.drop_last()[i], bound));
        }
        lemma_necessity_instances_worlds(s.drop_last(), w, p, bound);
        assert(node_worlds_lt(s[s.len() - 1], bound));
    }
}

/// A bound on the worlds of a rule is kept by any larger bound.
pub proof fn lemma_rule_worlds_monotone(rv: RuleView<Node>, b1: int, b2: int)
    requires
        rule_worlds_lt(rv, b1),
        b1 <= b2,
    ensures
        rule_worlds_lt(rv, b2),
{
    match rv {
        RuleView::Chain(s) => {
            assert forall|i: int| 0 <= i < s.len() implies node_worlds_lt(#[trigger] s[i], b2) by {
                assert(node_worlds_lt(s[i], b1));
            }
        },
        _ => {},
    }
}

/// Every node the basic modal table produces mentions either a world of the
/// branch, the world of the decomposed node, or the one fresh world just
/// above them, so a bound on those worlds grows by at most one.
pub proof fn lemma_modal_infer_worlds(n: Node, branch: Seq<Node>, b: int)
    requires
        all_worlds_lt(branch, b),
        node_worlds_lt(n, b),
        b <= usize::MAX as int,
    ensures
        rule_worlds_lt(spec_modal_infer(n, branch), b + 1),
{
    match n {
        Node::Relation { .. } => {},
        Node::Expr { expr: e, world: w } => match e {
            Expr::Not(p) => match *p {
                Expr::Possibility(_) => {},
                Expr::Necessity(_) => {},
                _ => {
                    crate::logic::classical::lemma_classical_infer_worlds(n, b);
                    lemma_rule_worlds_monotone(
                        crate::logic::classical::spec_classical_infer(n),
                        b,
                        b + 1,
                    );
                },
            },
            Expr::Possibility(p) => {
                lemma_max_world_lt(branch, b);
                let fresh = spec_fresh_world(branch);
                assert(fresh.0 < b + 1);
                let s = seq![Node::Relation { from: w, to: fresh }, at(*p, fresh)];
                assert(all_worlds_lt(s, b + 1)) by {
                    assert(node_worlds_lt(s[0], b + 1));
                    assert(node_worlds_lt(s[1], b + 1));
                }
            },
            Expr::Necessity(p) => {
                lemma_necessity_instances_worlds(branch, w, *p, b);
                let s = spec_necessity_instances(branch, w, *p);
                assert forall|i: int| 0 <= i < s.len() implies node_worlds_lt(
                    #[trigger] s[i],
                    b + 1,
                ) by {
                    assert(node_worlds_lt(s[i], b));
                }
            },
            _ => {
                crate::logic::classical::lemma_classical_infer_worlds(n, b);
                lemma_rule_worlds_monotone(
                    crate::logic::classical::spec_classical_infer(n),
                    b,
                    b + 1,
                );
            },
        },
    }
}

/// The largest world among the expression nodes of a branch, if any.
pub(crate) fn max_world(branch: &Vec<Node>) -> (r: Option<World>)
    ensures
        r == spec_max_world(branch@),
{
    let mut best: Option<World> = None;
    let mut i: usize = 0;
    while i < branch.len()
        invariant
            i <= branch@.len(),
            best == spec_max_world(branch@.take(i as int)),
        decreases branch@.len() - i,
    {
        proof {
            assert(branch@.take(i + 1).drop_last() =~= branch@.take(i as int));
            assert(branch@.take(i + 1).last() == branch@[i as int]);
        }
        match branch[i].world() {
            Some(w) => {
                match best {
                    Some(m) => {
                        if w.0 > m.0 {
                            best = Some(w);
                        }
                    },
                    None => {
                        best = Some(w);
                    },
                }
            },
            None => {},
        }
        i = i + 1;
    }
    proof {
        assert(branch@.take(branch@.len() as int) =~= branch@);
    }
    best
}

/// The fresh world a possibility rule allocates against this branch.
pub(crate) fn fresh_world(branch: &Vec<Node>) -> (r: World)
    requires
        all_worlds_lt(branch@, usize::MAX as int),
    ensures
        r == spec_fresh_world(branch@),
{
    proof {
        lemma_max_world_lt(branch@, usize::MAX as int);
    }
    match max_world(branch) {
        None => World(0),
        Some(m) => World(m.0 + 1),
    }
}

/// The necessity instances of `p` from `w` along the branch, in branch order.
pub(crate) fn necessity_instances(branch: &Vec<Node>, w: World, p: &Expr) -> (r: Vec<Node>)
    ensures
        r@ == spec_necessity_instances(branch@, w, *p),
{
    let mut out: Vec<Node> = Vec::new();
    let mut i: usize = 0;
    while i < branch.len()
        invariant
            i <= branch@.len(),
            out@ == spec_necessity_instances(branch@.take(i as int), w, *p),
        decreases branch@.len() - i,
    {
        proof {
            assert(branch@.take(i + 1).drop_last() =~= branch@.take(i as int));
            assert(branch@.take(i + 1).last() == branch@[i as int]);
        }
        match branch[i].accessible_world_from(w) {
            Some(w2) => {
                out.push(Node::Expr { expr: p.clone(), world: w2 });
            },
            None => {},
        }
        i = i + 1;
    }
    proof {
        assert(branch@.take(branch@.len() as int) =~= branch@);
    }
    out
}

/// The basic modal rule set (system K): no accessibility axioms.
#[derive(Debug, Clone, Copy)]
pub struct Modal {}

/// The modal expansion priority of a node: possibilities first (they create
/// the worlds), relations next, necessities last (they need the relations).
pub open spec fn spec_modal_priority(n: Node) -> u16 {
    match n {
        Node::Expr { expr: e, .. } => match e {
            Expr::Const(_) => 5u16,
            Expr::Not(_) => 5u16,
            Expr::And(_, _) => 7u16,
            Expr::Or(_, _) => 5u16,
            Expr::MatImpl(_, _) => 5u16,
            Expr::MatEquiv(_, _) => 2u16,
            Expr::Necessity(_) => 0u16,
            Expr::Possibility(_) => 1000u16,
        },
        Node::Relation { .. } => 100u16,
    }
}

impl Modal {
    /// Symbols used in basic modal logic.
    pub fn symbols() -> (r: Vec<Symbol>)
        ensures
            r@ == seq![
                Symbol::Not,
                Symbol::And,
                Symbol::Or,
                Symbol::MatImpl,
                Symbol::MatEquiv,
                Symbol::Necess,
                Symbol::Possib,
            ],
    {
        let mut out: Vec<Symbol> = Vec::new();
        out.push(Symbol::Not);
        out.push(Symbol::And);
        out.push(Symbol::Or);
        out.push(Symbol::MatImpl);
        out.push(Symbol::MatEquiv);
        out.push(Symbol::Necess);
        out.push(Symbol::Possib);
        proof {
            assert(out@ =~= seq![
                Symbol::Not,
                Symbol::And,
                Symbol::Or,
                Symbol::MatImpl,
                Symbol::MatEquiv,
                Symbol::Necess,
                Symbol::Possib,
            ]);
        }
        out
    }

    /// Decomposes a node per the basic modal table against the given branch
    /// (leaf first, root last).
    pub fn infer(&self, node: &Node, branch: &Vec<Node>) -> (r: InferenceRule<Node>)
        requires
            all_worlds_lt(branch@, usize::MAX as int),
        ensures
            r@ == spec_modal_infer(*node, branch@),
    {
        match node {
            Node::Relation { .. } => InferenceRule::none(),
            Node::Expr { expr, world } => match expr {
                Expr::Not(p) => match &**p {
                    Expr::Possibility(q) => InferenceRule::single(
                        Node::Expr { expr: Expr::Necessity(Box::new(q.not())), world: *world },
                    ),
                    Expr::Necessity(q) => InferenceRule::single(
                        Node::Expr { expr: Expr::Possibility(Box::new(q.not())), world: *world },
                    ),
                    _ => classical_step(expr, *world),
                },
                Expr::Possibility(p) => {
                    let fresh = fresh_world(branch);
                    let chain = vec![
                        Node::Relation { from: *world, to: fresh },
                        Node::Expr { expr: (**p).clone(), world: fresh },
                    ];
                    assert(chain@ =~= seq![
                        Node::Relation { from: *world, to: fresh },
                        at(**p, fresh),
                    ]);
                    InferenceRule::chain(chain)
                },
                Expr::Necessity(p) => InferenceRule::chain(necessity_instances(branch, *world, p)),
                _ => classical_step(expr, *world),
            },
        }
    }

    /// Whether the branch (leaf first, root last) asserts some atom both true
    /// and false at the same world.
    pub fn has_contradiction(&self, branch: &Vec<Node>) -> (r: bool)
        ensures
            r == crate::logic::spec_branch_contradiction(branch@, true),
    {
        crate::logic::find_contradiction(branch, true)
    }

    /// The modal expansion priority of a node: higher expands sooner.
    pub fn priority(&self, node: &Node) -> (r: u16)
        ensures
            r == spec_modal_priority(*node),
    {
        match node {
            Node::Expr { expr: e, .. } => match e {
                Expr::Const(_) => 5,
                Expr::Not(_) => 5,
                Expr::And(_, _) => 7,
                Expr::Or(_, _) => 5,
                Expr::MatImpl(_, _) => 5,
                Expr::MatEquiv(_, _) => 2,
                Expr::Necessity(_) => 0,
                Expr::Possibility(_) => 1000,
            },
            Node::Relation { .. } => 100,
        }
    }
}

} // verus!
