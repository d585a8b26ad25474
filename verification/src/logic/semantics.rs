use vstd::prelude::*;

use crate::logic::classical::{at, spec_classical_infer};
use crate::logic::modal::{Expr, Node, World};
use crate::logic::RuleView;

verus! {

/// Whether a formula uses only the classical connectives.
pub open spec fn is_classical(e: Expr) -> bool
    decreases e,
{
    match e {
        Expr::Const(_) => true,
        Expr::Not(p) => is_classical(*p),
        Expr::And(p, q) => is_classical(*p) && is_classical(*q),
        Expr::Or(p, q) => is_classical(*p) && is_classical(*q),
        Expr::MatImpl(p, q) => is_classical(*p) && is_classical(*q),
        Expr::MatEquiv(p, q) => is_classical(*p) && is_classical(*q),
        Expr::Possibility(_) => false,
        Expr::Necessity(_) => false,
    }
}

/// Whether a formula is a literal: an atom or a negated atom. Literals are
/// the terminal nodes of classical decomposition.
pub open spec fn is_literal(e: Expr) -> bool {
    match e {
        Expr::Const(_) => true,
        Expr::Not(p) => *p is Const,
        _ => false,
    }
}

/// Truth of a classical formula under a valuation of its atoms. Only
/// meaningful for classical formulas; the modal operators are not given a
/// truth value here (see [`meval`] for the relational semantics).
pub open spec fn eval(e: Expr, v: Map<u64, bool>) -> bool
    decreases e,
{
    match e {
        Expr::Const(id) => v[id],
        Expr::Not(p) => !eval(*p, v),
        Expr::And(p, q) => eval(*p, v) && eval(*q, v),
        Expr::Or(p, q) => eval(*p, v) || eval(*q, v),
        Expr::MatImpl(p, q) => !eval(*p, v) || eval(*q, v),
        Expr::MatEquiv(p, q) => eval(*p, v) == eval(*q, v),
        Expr::Possibility(_) => false,
        Expr::Necessity(_) => false,
    }
}

/// Truth of a modal formula at a world of a Kripke model: an accessibility
/// relation over worlds and a valuation of each atom at each world. A
/// possibility holds when the formula holds at some accessible world, a
/// necessity when it holds at every accessible world.
pub open spec fn meval(e: Expr, r: Set<(World, World)>, v: Map<(u64, World), bool>, w: World) -> bool
    decreases e,
{
    match e {
        Expr::Const(id) => v[(id, w)],
        Expr::Not(p) => !meval(*p, r, v, w),
        Expr::And(p, q) => meval(*p, r, v, w) && meval(*q, r, v, w),
        Expr::Or(p, q) => meval(*p, r, v, w) || meval(*q, r, v, w),
        Expr::MatImpl(p, q) => !meval(*p, r, v, w) || meval(*q, r, v, w),
        Expr::MatEquiv(p, q) => meval(*p, r, v, w) == meval(*q, r, v, w),
        Expr::Possibility(p) => exists|w2: World| #[trigger] r.contains((w, w2)) && meval(*p, r, v, w2),
        Expr::Necessity(p) => forall|w2: World| #[trigger] r.contains((w, w2)) ==> meval(*p, r, v, w2),
    }
}

/// Truth of one tableau commitment in a Kripke model: an expression node is
/// its formula's truth at its world, a relation node is the presence of its
/// accessibility edge.
pub open spec fn node_sat(n: Node, r: Set<(World, World)>, v: Map<(u64, World), bool>) -> bool {
    match n {
        Node::Expr { expr, world } => meval(expr, r, v, world),
        Node::Relation { from, to } => r.contains((from, to)),
    }
}

/// What it means for the classical table to be semantically faithful on one
/// formula under one valuation: a terminal is a literal; a single preserves
/// truth; a split holds exactly when one side does; a chain holds exactly
/// when both links do; a split of chains holds exactly when one chain does.
/// No model of the formula is lost, and none is invented.
pub open spec fn classical_rule_faithful(e: Expr, w: World, v: Map<u64, bool>) -> bool {
    match spec_classical_infer(at(e, w)) {
        RuleView::Terminal => is_literal(e),
        RuleView::Single(n) => n matches Node::Expr { expr: e2, world: w2 } && w2 == w && (eval(
            e,
            v,
        ) == eval(e2, v)),
        RuleView::Split(a, b) => a matches Node::Expr { expr: ea, world: wa } && wa == w && (b
            matches Node::Expr { expr: eb, world: wb } && wb == w && (eval(e, v) == (eval(ea, v)
            || eval(eb, v)))),
        RuleView::Chain(s) => s.len() == 2 && (s[0] matches Node::Expr { expr: e0, world: w0 }
            && w0 == w && (s[1] matches Node::Expr { expr: e1, world: w1 } && w1 == w && (eval(e, v)
            == (eval(e0, v) && eval(e1, v))))),
        RuleView::SplitAndChain(a, b, c, d) => a matches Node::Expr { expr: ea, world: wa } && wa
            == w && (b matches Node::Expr { expr: eb, world: wb } && wb == w && (c
            matches Node::Expr { expr: ec, world: wc } && wc == w && (d matches Node::Expr {
            expr: ed,
            world: wd,
        } && wd == w && (eval(e, v) == ((eval(ea, v) && eval(eb, v)) || (eval(ec, v) && eval(
            ed,
            v,
        ))))))),
    }
}

/// Soundness of the classical rules: for every well-formed classical formula
/// and every valuation, the decomposition table is a semantically faithful
/// case split, in the sense of [`classical_rule_faithful`].
pub proof fn lemma_classical_rules_faithful(e: Expr, w: World, v: Map<u64, bool>)
    requires
        is_classical(e),
    ensures
        classical_rule_faithful(e, w, v),
{
    match e {
        Expr::Const(_) => {},
        Expr::Not(p) => {
            assert(eval(e, v) == !eval(*p, v));
            match *p {
                Expr::Const(_) => {},
                Expr::Not(q) => {
                    assert(eval(*p, v) == !eval(*q, v));
                },
                Expr::And(p2, q2) => {
                    assert(eval(*p, v) == (eval(*p2, v) && eval(*q2, v)));
                },
                Expr::Or(p2, q2) => {
                    assert(eval(*p, v) == (eval(*p2, v) || eval(*q2, v)));
                },
                Expr::MatImpl(p2, q2) => {
                    assert(eval(*p, v) == (!eval(*p2, v) || eval(*q2, v)));
                },
                Expr::MatEquiv(p2, q2) => {
                    assert(eval(*p, v) == (eval(*p2, v) == eval(*q2, v)));
                },
                Expr::Possibility(_) => {
                    assert(is_classical(*p));
                    assert(false);
                },
                Expr::Necessity(_) => {
                    assert(is_classical(*p));
                    assert(false);
                },
            }
        },
        Expr::And(_, _) => {},
        Expr::Or(_, _) => {},
        Expr::MatImpl(_, _) => {},
        Expr::MatEquiv(_, _) => {},
        Expr::Possibility(_) => {},
        Expr::Necessity(_) => {},
    }
}

/// The same faithfulness in the relational semantics, at any fixed world of
/// any Kripke model: the modal rule sets decompose classical connectives by
/// the same table, with every produced formula staying at the node's world.
pub open spec fn classical_rule_faithful_kripke(
    e: Expr,
    w: World,
    r: Set<(World, World)>,
    v: Map<(u64, World), bool>,
) -> bool {
    match spec_classical_infer(at(e, w)) {
        RuleView::Terminal => true,
        RuleView::Single(n) => n matches Node::Expr { expr: e2, world: w2 } && w2 == w && (meval(
            e,
            r,
            v,
            w,
        ) == meval(e2, r, v, w)),
        RuleView::Split(a, b) => a matches Node::Expr { expr: ea, world: wa } && wa == w && (b
            matches Node::Expr { expr: eb, world: wb } && wb == w && (meval(e, r, v, w) == (meval(
            ea,
            r,
            v,
            w,
        ) || meval(eb, r, v, w)))),
        RuleView::Chain(s) => s.len() == 2 && (s[0] matches Node::Expr { expr: e0, world: w0 }
            && w0 == w && (s[1] matches Node::Expr { expr: e1, world: w1 } && w1 == w && (meval(
            e,
            r,
            v,
            w,
        ) == (meval(e0, r, v, w) && meval(e1, r, v, w))))),
        RuleView::SplitAndChain(a, b, c, d) => a matches Node::Expr { expr: ea, world: wa } && wa
            == w && (b matches Node::Expr { expr: eb, world: wb } && wb == w && (c
            matches Node::Expr { expr: ec, world: wc } && wc == w && (d matches Node::Expr {
            expr: ed,
            world: wd,
        } && wd == w && (meval(e, r, v, w) == ((meval(ea, r, v, w) && meval(eb, r, v, w)) || (meval(
            ec,
            r,
            v,
            w,
        ) && meval(ed, r, v, w))))))),
    }
}

/// Soundness of the classical part of the modal tables: on a classical
/// connective the decomposition is faithful at the node's world, in every
/// Kripke model.
pub proof fn lemma_classical_rules_faithful_kripke(
    e: Expr,
    w: World,
    r: Set<(World, World)>,
    v: Map<(u64, World), bool>,
)
    requires
        is_classical(e),
    ensures
        classical_rule_faithful_kripke(e, w, r, v),
{
    match e {
        Expr::Const(_) => {},
        Expr::Not(p) => {
            assert(meval(e, r, v, w) == !meval(*p, r, v, w));
            match *p {
                Expr::Const(_) => {},
                Expr::Not(q) => {
                    assert(meval(*p, r, v, w) == !meval(*q, r, v, w));
                },
                Expr::And(p2, q2) => {
                    assert(meval(*p, r, v, w) == (meval(*p2, r, v, w) && meval(*q2, r, v, w)));
                },
                Expr::Or(p2, q2) => {
                    assert(meval(*p, r, v, w) == (meval(*p2, r, v, w) || meval(*q2, r, v, w)));
                },
                Expr::MatImpl(p2, q2) => {
                    assert(meval(*p, r, v, w) == (!meval(*p2, r, v, w) || meval(*q2, r, v, w)));
                },
                Expr::MatEquiv(p2, q2) => {
                    assert(meval(*p, r, v, w) == (meval(*p2, r, v, w) == meval(*q2, r, v, w)));
                },
                Expr::Possibility(_) => {
                    assert(is_classical(*p));
                    assert(false);
                },
                Expr::Necessity(_) => {
                    assert(is_classical(*p));
                    assert(false);
                },
            }
        },
        Expr::And(_, _) => {},
        Expr::Or(_, _) => {},
        Expr::MatImpl(_, _) => {},
        Expr::MatEquiv(_, _) => {},
        Expr::Possibility(_) => {},
        Expr::Necessity(_) => {},
    }
}

/// The modal negation rules are exact dualities: a denied possibility is a
/// necessary denial, and a denied necessity is a possible denial, in every
/// Kripke model at every world.
pub proof fn lemma_modal_dualities(
    p: Expr,
    r: Set<(World, World)>,
    v: Map<(u64, World), bool>,
    w: World,
)
    ensures
        meval(Expr::Not(Box::new(Expr::Possibility(Box::new(p)))), r, v, w) == meval(
            Expr::Necessity(Box::new(Expr::Not(Box::new(p)))),
            r,
            v,
            w,
        ),
        meval(Expr::Not(Box::new(Expr::Necessity(Box::new(p)))), r, v, w) == meval(
            Expr::Possibility(Box::new(Expr::Not(Box::new(p)))),
            r,
            v,
            w,
        ),
{
    let bp = Box::new(p);
    let bnp = Box::new(Expr::Not(Box::new(p)));
    assert(*bp == p);
    // at every accessible world, the denial of p is the negation of p
    assert forall|w2: World| #[trigger] r.contains((w, w2)) implies (meval(*bnp, r, v, w2)
        == !meval(*bp, r, v, w2)) by {
        assert(meval(*bnp, r, v, w2) == !meval(*Box::new(p), r, v, w2));
    }
    assert(meval(Expr::Not(Box::new(Expr::Possibility(Box::new(p)))), r, v, w) == !meval(
        Expr::Possibility(Box::new(p)),
        r,
        v,
        w,
    ));
    assert(meval(Expr::Not(Box::new(Expr::Necessity(Box::new(p)))), r, v, w) == !meval(
        Expr::Necessity(Box::new(p)),
        r,
        v,
        w,
    ));
    if meval(Expr::Possibility(Box::new(p)), r, v, w) {
        let w2 = choose|w2: World| #[trigger] r.contains((w, w2)) && meval(*bp, r, v, w2);
        assert(!meval(*bnp, r, v, w2));
        assert(!meval(Expr::Necessity(bnp), r, v, w));
    } else {
        assert forall|w2: World| #[trigger] r.contains((w, w2)) implies meval(
            *bnp,
            r,
            v,
            w2,
        ) by {
            if meval(*bp, r, v, w2) {
                assert(r.contains((w, w2)) && meval(*bp, r, v, w2));
                assert(meval(Expr::Possibility(bp), r, v, w));
            }
        }
        assert(meval(Expr::Necessity(bnp), r, v, w));
    }
    if meval(Expr::Necessity(Box::new(p)), r, v, w) {
        assert forall|w2: World| #[trigger] r.contains((w, w2)) implies !meval(
            *bnp,
            r,
            v,
            w2,
        ) by {
            assert(meval(*bp, r, v, w2));
        }
        if meval(Expr::Possibility(bnp), r, v, w) {
            let w2 = choose|w2: World| #[trigger] r.contains((w, w2)) && meval(*bnp, r, v, w2);
            assert(false);
        }
    } else {
        let w2 = choose|w2: World| #[trigger] r.contains((w, w2)) && !meval(*bp, r, v, w2);
        assert(meval(*bnp, r, v, w2));
        assert(meval(Expr::Possibility(bnp), r, v, w));
    }
}

/// A necessity instantiates soundly: if a necessity holds at a world, its
/// body holds at every world accessible from it.
pub proof fn lemma_necessity_instance(
    p: Expr,
    r: Set<(World, World)>,
    v: Map<(u64, World), bool>,
    w: World,
    w2: World,
)
    requires
        meval(Expr::Necessity(Box::new(p)), r, v, w),
        r.contains((w, w2)),
    ensures
        meval(p, r, v, w2),
{
    let bp = Box::new(p);
    assert(*bp == p);
    assert(r.contains((w, w2)) ==> meval(*bp, r, v, w2));
}

/// A possibility's decomposition is sound: a branch asserting the fresh
/// relation and the body at the fresh world only describes models where the
/// possibility itself holds.
pub proof fn lemma_possibility_sound(
    p: Expr,
    r: Set<(World, World)>,
    v: Map<(u64, World), bool>,
    w: World,
    fresh: World,
)
    requires
        r.contains((w, fresh)),
        meval(p, r, v, fresh),
    ensures
        meval(Expr::Possibility(Box::new(p)), r, v, w),
{
    let bp = Box::new(p);
    assert(*bp == p);
    assert(r.contains((w, fresh)) && meval(*bp, r, v, fresh));
}

/// Truth of one tableau commitment under a plain classical valuation,
/// ignoring worlds; relation nodes carry no classical content.
pub open spec fn node_sat_classical(n: Node, v: Map<u64, bool>) -> bool {
    match n {
        Node::Expr { expr, .. } => eval(expr, v),
        Node::Relation { .. } => true,
    }
}

/// Closing a branch on a same-world clash is sound: a branch asserting some
/// atom both true and false at one world is satisfied by no Kripke model.
pub proof fn lemma_clash_has_no_kripke_model(
    branch: Seq<Node>,
    r: Set<(World, World)>,
    v: Map<(u64, World), bool>,
)
    requires
        crate::logic::spec_branch_contradiction(branch, true),
    ensures
        !(forall|i: int| 0 <= i < branch.len() ==> node_sat(#[trigger] branch[i], r, v)),
{
    let i = choose|i: int|
        0 <= i < branch.len() && #[trigger] crate::logic::spec_clash(branch[0], branch[i], true);
    if forall|j: int| 0 <= j < branch.len() ==> node_sat(#[trigger] branch[j], r, v) {
        assert(node_sat(branch[0], r, v));
        assert(node_sat(branch[i], r, v));
        lemma_literal_sat(branch[0], r, v);
        lemma_literal_sat(branch[i], r, v);
        assert(false);
    }
}

/// A satisfied literal node fixes its atom's value at its world.
proof fn lemma_literal_sat(n: Node, r: Set<(World, World)>, v: Map<(u64, World), bool>)
    requires
        node_sat(n, r, v),
    ensures
        crate::logic::modal::spec_interpretation(n) matches Some((id, val, w)) ==> v[(id, w)]
            == val,
{
    match n {
        Node::Expr { expr, world } => {
            match expr {
                Expr::Const(_) => {},
                Expr::Not(p) => {
                    match *p {
                        Expr::Const(id) => {
                            assert(meval(expr, r, v, world) == !meval(*p, r, v, world));
                        },
                        _ => {},
                    }
                },
                _ => {},
            }
        },
        Node::Relation { .. } => {},
    }
}

/// Closing a branch on a world-blind clash is classically sound: a branch
/// asserting some atom both true and false has no classical model.
pub proof fn lemma_clash_has_no_classical_model(branch: Seq<Node>, v: Map<u64, bool>)
    requires
        crate::logic::spec_branch_contradiction(branch, false),
    ensures
        !(forall|i: int| 0 <= i < branch.len() ==> node_sat_classical(#[trigger] branch[i], v)),
{
    let i = choose|i: int|
        0 <= i < branch.len() && #[trigger] crate::logic::spec_clash(branch[0], branch[i], false);
    if forall|j: int| 0 <= j < branch.len() ==> node_sat_classical(#[trigger] branch[j], v) {
        assert(node_sat_classical(branch[0], v));
        assert(node_sat_classical(branch[i], v));
        lemma_literal_sat_classical(branch[0], v);
        lemma_literal_sat_classical(branch[i], v);
        assert(false);
    }
}

/// A classically satisfied literal node fixes its atom's value.
proof fn lemma_literal_sat_classical(n: Node, v: Map<u64, bool>)
    requires
        node_sat_classical(n, v),
    ensures
        crate::logic::modal::spec_interpretation(n) matches Some((id, val, w)) ==> v[id] == val,
{
    match n {
        Node::Expr { expr, .. } => {
            match expr {
                Expr::Const(_) => {},
                Expr::Not(p) => {
                    match *p {
                        Expr::Const(id) => {
                            assert(eval(expr, v) == !eval(*p, v));
                        },
                        _ => {},
                    }
                },
                _ => {},
            }
        },
        Node::Relation { .. } => {},
    }
}

} // verus!

