use vstd::prelude::*;

use crate::logic::classical::{at, classical_step};
use crate::logic::modal::{
    all_worlds_lt, fresh_world, necessity_instances, spec_fresh_world, spec_modal_infer, Expr,
    Node, World,
};
use crate::logic::{InferenceRule, RuleView};

verus! {

/// The parametrized normal modal rule set: the basic modal rules of system K
/// extended with any combination of four accessibility axioms. The standard
/// systems T, D, B, S4 and S5 are combinations of these flags.
#[derive(Debug, Clone, Copy)]
pub struct NormalModal {
    /// ρ: every world accesses itself.
    pub reflexive: bool,
    /// σ: if `w1 R w2` then `w2 R w1`.
    pub symmetric: bool,
    /// τ: if `w1 R w2` and `w2 R w3` then `w1 R w3`.
    pub transitive: bool,
    /// η: every world accesses some world.
    pub extendable: bool,
}

/// The implied closure of an axiom set: reflexivity follows from symmetry,
/// transitivity and extendability together, and extendability follows from
/// reflexivity. Two axiom sets are considered equal when their closures are.
pub open spec fn spec_normalized(nm: NormalModal) -> NormalModal {
    NormalModal {
        reflexive: nm.reflexive || (nm.symmetric && nm.transitive && nm.extendable),
        symmetric: nm.symmetric,
        transitive: nm.transitive,
        extendable: nm.extendable || nm.reflexive,
    }
}

/// Whether `n` is a relation whose source world is `w`.
pub open spec fn node_is_rel_from(n: Node, w: World) -> bool {
    n matches Node::Relation { from, to } && from == w
}

/// Whether some relation of the branch has `w` as its source world.
pub open spec fn spec_is_rel_source(s: Seq<Node>, w: World) -> bool {
    exists|i: int| 0 <= i < s.len() && node_is_rel_from(#[trigger] s[i], w)
}

/// The world a node mentions when looking for worlds that access nothing yet:
/// an expression node offers its own world, a relation node its target.
pub open spec fn spec_candidate_world(n: Node) -> World {
    match n {
        Node::Expr { world, .. } => world,
        Node::Relation { to, .. } => to,
    }
}

/// The first world offered by `full[i..]` that is the source of no relation
/// of the branch: a world from which no accessible world exists yet.
pub open spec fn spec_find_leaf_world_from(full: Seq<Node>, i: int) -> Option<World>
    decreases full.len() - i,
{
    if i < 0 || i >= full.len() {
        None
    } else {
        let c = spec_candidate_world(full[i]);
        if !spec_is_rel_source(full, c) {
            Some(c)
        } else {
            spec_find_leaf_world_from(full, i + 1)
        }
    }
}

/// The first world of the branch that accesses no world yet, if any.
pub open spec fn spec_find_leaf_world(s: Seq<Node>) -> Option<World> {
    spec_find_leaf_world_from(s, 0)
}

/// The relations a transitive axiom composes out of a fresh relation
/// `j R k`: for every branch relation `i R j`, the relation `i R k`, in
/// branch order, skipping compositions already present on the branch.
pub open spec fn spec_trans_adds(full: Seq<Node>, s: Seq<Node>, j: World, k: World) -> Seq<Node>
    decreases s.len(),
{
    if s.len() == 0 {
        Seq::empty()
    } else {
        let pre = spec_trans_adds(full, s.drop_last(), j, k);
        match s.last() {
            Node::Relation { from: i, to: jj } => if jj == j && !full.contains(
                Node::Relation { from: i, to: k },
            ) {
                pre.push(Node::Relation { from: i, to: k })
            } else {
                pre
            },
            _ => pre,
        }
    }
}

/// What a relation node `j R k` emits under the axioms: the transitive
/// compositions first, then the mirrored relation if the symmetry axiom is on
/// and the mirror is not on the branch yet.
pub open spec fn spec_relation_infer(nm: NormalModal, j: World, k: World, branch: Seq<Node>) -> Seq<
    Node,
> {
    let t = if nm.transitive {
        spec_trans_adds(branch, branch, j, k)
    } else {
        Seq::empty()
    };
    let s = if nm.symmetric && !branch.contains(Node::Relation { from: k, to: j }) {
        seq![Node::Relation { from: k, to: j }]
    } else {
        Seq::empty()
    };
    t + s
}

/// What the extendability axiom emits when no ordinary rule fired: a relation
/// from a world that accesses nothing yet to a fresh world, so that branches
/// never stall without accessible continuations.
pub open spec fn spec_extend(branch: Seq<Node>) -> RuleView<Node> {
    match spec_find_leaf_world(branch) {
        None => RuleView::Terminal,
        Some(lw) => RuleView::Single(Node::Relation { from: lw, to: spec_fresh_world(branch) }),
    }
}

/// The decomposition before the extendability axiom is considered: the basic
/// modal table, except that a possibility additionally asserts the fresh
/// world's self-loop under the reflexivity axiom, and that relation nodes
/// emit their axiom consequences.
pub open spec fn spec_nm_base(nm: NormalModal, n: Node, branch: Seq<Node>) -> RuleView<Node> {
    match n {
        Node::Relation { from: j, to: k } => RuleView::Chain(spec_relation_infer(nm, j, k, branch)),
        Node::Expr { expr: e, world: w } => match e {
            Expr::Possibility(p) => {
                let fresh = spec_fresh_world(branch);
                let base = seq![Node::Relation { from: w, to: fresh }, at(*p, fresh)];
                RuleView::Chain(
                    if nm.reflexive {
                        base.push(Node::Relation { from: fresh, to: fresh })
                    } else {
                        base
                    },
                )
            },
            _ => spec_modal_infer(n, branch),
        },
    }
}

/// The full normal modal decomposition: the base table, except that when no
/// rule fired and the extendability axiom is on, the branch is extended.
pub open spec fn spec_nm_infer(nm: NormalModal, n: Node, branch: Seq<Node>) -> RuleView<Node> {
    let base = spec_nm_base(nm, n, branch);
    if nm.extendable && base is Terminal {
        spec_extend(branch)
    } else {
        base
    }
}

/// Transitive compositions only mention source worlds of the branch and the
/// target of the decomposed relation, so they respect any bound on those.
pub proof fn lemma_trans_adds_worlds(full: Seq<Node>, s: Seq<Node>, j: World, k: World, b: int)
    requires
        all_worlds_lt(s, b),
        k.0 < b,
    ensures
        all_worlds_lt(spec_trans_adds(full, s, j, k), b),
    decreases s.len(),
{
    if s.len() > 0 {
        assert(all_worlds_lt(s.drop_last(), b)) by {
            assert(forall|i: int|
                0 <= i < s.len() - 1 ==> crate::logic::modal::node_worlds_lt(
                    #[trigger] s.drop_last()[i],
                    b,
                ));
        }
        lemma_trans_adds_worlds(full, s.drop_last(), j, k, b);
        assert(crate::logic::modal::node_worlds_lt(s[s.len() - 1], b));
        let pre = spec_trans_adds(full, s.drop_last(), j, k);
        let whole = spec_trans_adds(full, s, j, k);
        assert forall|i: int| 0 <= i < whole.len() implies crate::logic::modal::node_worlds_lt(
            #[trigger] whole[i],
            b,
        ) by {
            if i < pre.len() {
                assert(crate::logic::modal::node_worlds_lt(pre[i], b));
            }
        }
    }
}

/// The leaf world the extendability axiom picks is a world of the branch, so
/// it respects any bound the branch respects.
pub proof fn lemma_find_leaf_world_lt(full: Seq<Node>, i: int, b: int)
    requires
        all_worlds_lt(full, b),
    ensures
        spec_find_leaf_world_from(full, i) matches Some(w) ==> w.0 < b,
    decreases full.len() - i,
{
    if 0 <= i < full.len() {
        assert(crate::logic::modal::node_worlds_lt(full[i], b));
        lemma_find_leaf_world_lt(full, i + 1, b);
    }
}

/// Every node the normal modal table produces mentions either a world of the
/// branch, a world of the decomposed node, or the one fresh world just above
/// them, so a bound on those worlds grows by at most one.
pub proof fn lemma_nm_infer_worlds(nm: NormalModal, n: Node, branch: Seq<Node>, b: int)
    requires
        all_worlds_lt(branch, b),
        crate::logic::modal::node_worlds_lt(n, b),
        b <= usize::MAX as int,
    ensures
        crate::logic::modal::rule_worlds_lt(spec_nm_infer(nm, n, branch), b + 1),
{
    match n {
        Node::Relation { from: j, to: k } => {
            if nm.transitive {
                lemma_trans_adds_worlds(branch, branch, j, k, b);
            }
            let chain = spec_relation_infer(nm, j, k, branch);
            let t = if nm.transitive {
                spec_trans_adds(branch, branch, j, k)
            } else {
                Seq::<Node>::empty()
            };
            assert forall|i: int| 0 <= i < chain.len() implies crate::logic::modal::node_worlds_lt(
                #[trigger] chain[i],
                b + 1,
            ) by {
                if i < t.len() {
                    assert(crate::logic::modal::node_worlds_lt(t[i], b));
                } else {
                    assert(chain[i] == (Node::Relation { from: k, to: j }));
                }
            }
        },
        Node::Expr { expr: e, world: w } => match e {
            Expr::Possibility(p) => {
                crate::logic::modal::lemma_max_world_lt(branch, b);
                let fresh = spec_fresh_world(branch);
                assert(fresh.0 < b + 1);
                let base = seq![Node::Relation { from: w, to: fresh }, at(*p, fresh)];
                let chain = if nm.reflexive {
                    base.push(Node::Relation { from: fresh, to: fresh })
                } else {
                    base
                };
                assert forall|i: int|
                    0 <= i < chain.len() implies crate::logic::modal::node_worlds_lt(
                    #[trigger] chain[i],
                    b + 1,
                ) by {}
            },
            _ => {
                crate::logic::modal::lemma_modal_infer_worlds(n, branch, b);
                if nm.extendable && spec_nm_base(nm, n, branch) is Terminal {
                    lemma_find_leaf_world_lt(branch, 0, b);
                    crate::logic::modal::lemma_max_world_lt(branch, b);
                }
            },
        },
    }
}

/// Whether the branch holds the relation `from R to`.
pub(crate) fn contains_relation(branch: &Vec<Node>, from: World, to: World) -> (r: bool)
    ensures
        r == branch@.contains(Node::Relation { from, to }),
{
    let mut i: usize = 0;
    while i < branch.len()
        invariant
            i <= branch@.len(),
            forall|j: int| 0 <= j < i ==> branch@[j] != (Node::Relation { from, to }),
        decreases branch@.len() - i,
    {
        match &branch[i] {
            Node::Relation { from: f, to: t } => {
                if *f == from && *t == to {
                    assert(branch@[i as int] == (Node::Relation { from, to }));
                    return true;
                }
            },
            _ => {},
        }
        i = i + 1;
    }
    proof {
        if branch@.contains(Node::Relation { from, to }) {
            let j = choose|j: int|
                0 <= j < branch@.len() && branch@[j] == (Node::Relation { from, to });
            assert(false);
        }
    }
    false
}

/// Whether some relation of the branch has `w` as its source world.
fn is_rel_source(branch: &Vec<Node>, w: World) -> (r: bool)
    ensures
        r == spec_is_rel_source(branch@, w),
{
    let mut i: usize = 0;
    while i < branch.len()
        invariant
            i <= branch@.len(),
            forall|j: int| 0 <= j < i ==> !node_is_rel_from(#[trigger] branch@[j], w),
        decreases branch@.len() - i,
    {
        match &branch[i] {
            Node::Relation { from, .. } => {
                if *from == w {
                    assert(node_is_rel_from(branch@[i as int], w));
                    return true;
                }
            },
            _ => {},
        }
        i = i + 1;
    }
    false
}

/// The first world of the branch that accesses no world yet, if any.
fn find_leaf_world(branch: &Vec<Node>) -> (r: Option<World>)
    ensures
        r == spec_find_leaf_world(branch@),
{
    let mut i: usize = 0;
    while i < branch.len()
        invariant
            i <= branch@.len(),
            spec_find_leaf_world(branch@) == spec_find_leaf_world_from(branch@, i as int),
        decreases branch@.len() - i,
    {
        let c = match &branch[i] {
            Node::Expr { world, .. } => *world,
            Node::Relation { to, .. } => *to,
        };
        assert(c == spec_candidate_world(branch@[i as int]));
        if !is_rel_source(branch, c) {
            return Some(c);
        }
        i = i + 1;
    }
    None
}

impl NormalModal {
    /// Creates K, the basic modal logic: no axioms.
    pub fn new() -> (r: Self)
        ensures
            r == (NormalModal {
                reflexive: false,
                symmetric: false,
                transitive: false,
                extendable: false,
            }),
    {
        NormalModal { reflexive: false, symmetric: false, transitive: false, extendable: false }
    }

    /// Adds the reflexivity axiom. Reflexivity implies extendability, so the
    /// explicit extendability flag, which tends to be more compute heavy, is
    /// cleared; the reasoning power is the same.
    pub fn reflexive(self) -> (r: Self)
        ensures
            r == (NormalModal {
                reflexive: true,
                symmetric: self.symmetric,
                transitive: self.transitive,
                extendable: false,
            }),
    {
        NormalModal {
            reflexive: true,
            symmetric: self.symmetric,
            transitive: self.transitive,
            extendable: false,
        }
    }

    /// Adds the symmetry axiom.
    pub fn symmetric(self) -> (r: Self)
        ensures
            r == (NormalModal { symmetric: true, ..self }),
    {
        NormalModal { symmetric: true, ..self }
    }

    /// Adds the transitivity axiom.
    pub fn transitive(self) -> (r: Self)
        ensures
            r == (NormalModal { transitive: true, ..self }),
    {
        NormalModal { transitive: true, ..self }
    }

    /// Adds the extendability axiom.
    pub fn extendable(self) -> (r: Self)
        ensures
            r == (NormalModal { extendable: true, ..self }),
    {
        NormalModal { extendable: true, ..self }
    }

    /// The implied closure of this axiom set.
    pub fn normalized(self) -> (r: Self)
        ensures
            r == spec_normalized(self),
    {
        NormalModal {
            reflexive: self.reflexive || (self.symmetric && self.transitive && self.extendable),
            symmetric: self.symmetric,
            transitive: self.transitive,
            extendable: self.extendable || self.reflexive,
        }
    }

    /// Decomposes a node per the normal modal table against the given branch
    /// (leaf first, root last).
    pub fn infer(&self, node: &Node, branch: &Vec<Node>) -> (r: InferenceRule<Node>)
        requires
            all_worlds_lt(branch@, usize::MAX as int),
        ensures
            r@ == spec_nm_infer(*self, *node, branch@),
    {
        match node {
            Node::Relation { from, to } => {
                let j = *from;
                let k = *to;
                let mut chain: Vec<Node> = Vec::new();
                if self.transitive {
                    let mut i: usize = 0;
                    while i < branch.len()
                        invariant
                            i <= branch@.len(),
                            chain@ == spec_trans_adds(branch@, branch@.take(i as int), j, k),
                        decreases branch@.len() - i,
                    {
                        proof {
                            assert(branch@.take(i + 1).drop_last() =~= branch@.take(i as int));
                            assert(branch@.take(i + 1).last() == branch@[i as int]);
                        }
                        match &branch[i] {
                            Node::Relation { from: i2, to: jj } => {
                                if *jj == j && !contains_relation(branch, *i2, k) {
                                    chain.push(Node::Relation { from: *i2, to: k });
                                }
                            },
                            _ => {},
                        }
                        i = i + 1;
                    }
                    proof {
                        assert(branch@.take(branch@.len() as int) =~= branch@);
                    }
                }
                assert(chain@ == if self.transitive {
                    spec_trans_adds(branch@, branch@, j, k)
                } else {
                    Seq::<Node>::empty()
                });
                if self.symmetric && !contains_relation(branch, k, j) {
                    chain.push(Node::Relation { from: k, to: j });
                }
                proof {
                    assert(chain@ =~= spec_relation_infer(*self, j, k, branch@));
                }
                InferenceRule::chain(chain)
            },
            Node::Expr { expr, world } => match expr {
                Expr::Possibility(p) => {
                    let fresh = fresh_world(branch);
                    let mut chain = vec![
                        Node::Relation { from: *world, to: fresh },
                        Node::Expr { expr: (**p).clone(), world: fresh },
                    ];
                    if self.reflexive {
                        chain.push(Node::Relation { from: fresh, to: fresh });
                    }
                    proof {
                        let base = seq![
                            Node::Relation { from: *world, to: fresh },
                            at(**p, fresh),
                        ];
                        assert(chain@ =~= if self.reflexive {
                            base.push(Node::Relation { from: fresh, to: fresh })
                        } else {
                            base
                        });
                    }
                    InferenceRule::chain(chain)
                },
                _ => {
                    let base = match expr {
                        Expr::Not(p) => match &**p {
                            Expr::Possibility(q) => InferenceRule::single(
                                Node::Expr {
                                    expr: Expr::Necessity(Box::new(q.not())),
                                    world: *world,
                                },
                            ),
                            Expr::Necessity(q) => InferenceRule::single(
                                Node::Expr {
                                    expr: Expr::Possibility(Box::new(q.not())),
                                    world: *world,
                                },
                            ),
                            _ => classical_step(expr, *world),
                        },
                        Expr::Necessity(p) => InferenceRule::chain(
                            necessity_instances(branch, *world, p),
                        ),
                        _ => classical_step(expr, *world),
                    };
                    assert(base@ == spec_modal_infer(*node, branch@));
                    if self.extendable {
                        let is_terminal = match &base {
                            InferenceRule::Terminal => true,
                            _ => false,
                        };
                        if is_terminal {
                            return match find_leaf_world(branch) {
                                None => InferenceRule::none(),
                                Some(lw) => InferenceRule::single(
                                    Node::Relation { from: lw, to: fresh_world(branch) },
                                ),
                            };
                        }
                    }
                    base
                },
            },
        }
    }

    /// Whether the branch (leaf first, root last) asserts some atom both true
    /// and false at the same world.
    pub fn has_contradiction(&self, branch: &Vec<Node>) -> (r: bool)
        ensures
            r == crate::logic::spec_branch_contradiction(branch@, true),
    {
        crate::logic::find_contradiction(branch, true)
    }

    /// The expansion priority of a node; this rule set orders no node before
    /// another.
    pub fn priority(&self, _node: &Node) -> (r: u16)
        ensures
            r == 0u16,
    {
        0
    }
}

impl NormalModal {
    /// Symbols used in normal modal logic: the same as in basic modal logic.
    pub fn symbols() -> (r: Vec<crate::logic::lexer::Symbol>)
        ensures
            r@ == seq![
                crate::logic::lexer::Symbol::Not,
                crate::logic::lexer::Symbol::And,
                crate::logic::lexer::Symbol::Or,
                crate::logic::lexer::Symbol::MatImpl,
                crate::logic::lexer::Symbol::MatEquiv,
                crate::logic::lexer::Symbol::Necess,
                crate::logic::lexer::Symbol::Possib,
            ],
    {
        crate::logic::modal::Modal::symbols()
    }
}

impl vstd::std_specs::cmp::PartialEqSpecImpl for NormalModal {
    open spec fn obeys_eq_spec() -> bool {
        true
    }

    open spec fn eq_spec(&self, other: &NormalModal) -> bool {
        spec_normalized(*self) == spec_normalized(*other)
    }
}

impl PartialEq for NormalModal {
    /// Axiom-set equality is defined up to logical implication, not literal
    /// flag equality: two configurations are equal iff their implied closures
    /// match.
    fn eq(&self, other: &Self) -> (r: bool) {
        let a = self.normalized();
        let b = other.normalized();
        a.reflexive == b.reflexive && a.symmetric == b.symmetric && a.transitive == b.transitive
            && a.extendable == b.extendable
    }
}

impl Eq for NormalModal {

}

} // verus!
