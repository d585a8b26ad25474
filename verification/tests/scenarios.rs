use tableaux::logic::classical::Classical;
use tableaux::logic::modal::{Expr, Modal, Node, World};
use tableaux::logic::normal_modal::NormalModal;
use tableaux::logic::Logic;
use tableaux::tableau::{PartialTableau, Tableau};

fn atom(id: u64) -> Expr {
    Expr::Const(id)
}

fn not(e: Expr) -> Expr {
    Expr::Not(Box::new(e))
}

fn and(a: Expr, b: Expr) -> Expr {
    Expr::And(Box::new(a), Box::new(b))
}

fn imp(a: Expr, b: Expr) -> Expr {
    Expr::MatImpl(Box::new(a), Box::new(b))
}

fn equiv(a: Expr, b: Expr) -> Expr {
    Expr::MatEquiv(Box::new(a), Box::new(b))
}

fn nec(e: Expr) -> Expr {
    Expr::Necessity(Box::new(e))
}

fn classical() -> Logic {
    Logic::Classical(Classical {})
}

fn modal() -> Logic {
    Logic::Modal(Modal {})
}

fn run(logic: Logic, premises: Vec<Expr>, conclusion: Expr) -> Tableau {
    PartialTableau::new(logic, premises, conclusion)
        .infer(100_000)
        .expect("search exhausted")
}

// Premises "A > B" and "B > C" entail "A > C" in classical logic.
#[test]
fn implication_chains_transitively() {
    let t = run(
        classical(),
        vec![imp(atom(0), atom(1)), imp(atom(1), atom(2))],
        imp(atom(0), atom(2)),
    );
    assert_eq!(t.holds(), true);
    assert!(t.countermodel().is_none());
}

// "p > p" is a classical tautology, derivable from no premises.
#[test]
fn implication_is_reflexive() {
    let t = run(classical(), vec![], imp(atom(0), atom(0)));
    assert_eq!(t.holds(), true);
}

// "p > q" does not entail "q > p"; the countermodel makes p false and q true.
#[test]
fn converse_implication_fails() {
    let t = run(classical(), vec![imp(atom(0), atom(1))], imp(atom(1), atom(0)));
    assert_eq!(t.holds(), false);
    let cm = t.countermodel().expect("open tableau must give a countermodel");
    let nodes = cm.nodes();
    let p_false = Node::Expr {
        expr: not(atom(0)),
        world: World(0),
    };
    let q_true = Node::Expr {
        expr: atom(1),
        world: World(0),
    };
    assert!(nodes.iter().any(|n| *n == p_false));
    assert!(nodes.iter().any(|n| *n == q_true));
}

// In system T (reflexive accessibility), "[]p > p" is a theorem.
#[test]
fn necessity_implies_truth_under_reflexivity() {
    let t = run(
        Logic::NormalModal(NormalModal::new().reflexive()),
        vec![],
        imp(nec(atom(0)), atom(0)),
    );
    assert_eq!(t.holds(), true);
}

// In basic modal K, with no accessibility axioms, "[]p > p" is not a theorem.
#[test]
fn necessity_does_not_imply_truth_in_k() {
    let t = run(modal(), vec![], imp(nec(atom(0)), atom(0)));
    assert_eq!(t.holds(), false);
    assert!(t.countermodel().is_some());
}

// The biconditional decomposes through split-and-chain: "A == B" entails
// "B == A".
#[test]
fn biconditional_is_symmetric() {
    let t = run(classical(), vec![equiv(atom(0), atom(1))], equiv(atom(1), atom(0)));
    assert_eq!(t.holds(), true);
}

// The countermodel of scenario three, read as an interpretation, satisfies
// the premise "p > q" and falsifies the conclusion "q > p".
#[test]
fn countermodel_satisfies_premises_and_falsifies_conclusion() {
    let t = run(classical(), vec![imp(atom(0), atom(1))], imp(atom(1), atom(0)));
    assert_eq!(t.holds(), false);
    let cm = t.countermodel().unwrap();
    // read the surviving branch as an assignment: an atom is true iff it is
    // asserted positively somewhere on the branch
    let mut p = None;
    let mut q = None;
    for n in cm.nodes().iter() {
        match n {
            Node::Expr {
                expr: Expr::Const(id),
                ..
            } => {
                if *id == 0 {
                    p = Some(true);
                } else if *id == 1 {
                    q = Some(true);
                }
            }
            Node::Expr {
                expr: Expr::Not(inner),
                ..
            } => {
                if let Expr::Const(id) = &**inner {
                    if *id == 0 {
                        p = Some(false);
                    } else if *id == 1 {
                        q = Some(false);
                    }
                }
            }
            _ => {}
        }
    }
    let p = p.unwrap_or(false);
    let q = q.unwrap_or(false);
    // premise "p > q" satisfied
    assert!(!p || q);
    // conclusion "q > p" falsified
    assert!(q && !p);
}

// In K, a necessary conjunction entails the necessity of each conjunct.
#[test]
fn necessity_distributes_over_conjunction() {
    let t = run(
        modal(),
        vec![],
        imp(nec(and(atom(0), atom(1))), nec(atom(0))),
    );
    assert_eq!(t.holds(), true);
}

// A necessity is instantiated only against the relations present when it is
// expanded; relations discovered later do not replay it. "[]p > [][]p",
// although an S4 theorem, is therefore left open by this search: an
// acknowledged incompleteness for deeply nested modal formulas, not a
// closure or propagation fault.
#[test]
fn necessity_is_not_rederived_for_later_relations() {
    let t = run(
        Logic::NormalModal(NormalModal::new().reflexive().transitive()),
        vec![],
        imp(nec(atom(0)), nec(nec(atom(0)))),
    );
    assert_eq!(t.holds(), false);
}

// In B (reflexive and symmetric accessibility), "p > []<>p" is a theorem.
#[test]
fn truth_implies_necessary_possibility_under_symmetry() {
    let t = run(
        Logic::NormalModal(NormalModal::new().reflexive().symmetric()),
        vec![],
        imp(
            atom(0),
            nec(Expr::Possibility(Box::new(atom(0)))),
        ),
    );
    assert_eq!(t.holds(), true);
}
