use tableaux::logic::classical::Classical;
use tableaux::logic::modal::Expr;
use tableaux::logic::Logic;
use tableaux::tableau::PartialTableau;

fn atom(id: u64) -> Expr {
    Expr::Const(id)
}

fn not(e: Expr) -> Expr {
    Expr::Not(Box::new(e))
}

fn and(a: Expr, b: Expr) -> Expr {
    Expr::And(Box::new(a), Box::new(b))
}

fn or(a: Expr, b: Expr) -> Expr {
    Expr::Or(Box::new(a), Box::new(b))
}

fn imp(a: Expr, b: Expr) -> Expr {
    Expr::MatImpl(Box::new(a), Box::new(b))
}

fn equiv(a: Expr, b: Expr) -> Expr {
    Expr::MatEquiv(Box::new(a), Box::new(b))
}

fn truth(e: &Expr, v: &[bool; 3]) -> bool {
    match e {
        Expr::Const(id) => v[*id as usize],
        Expr::Not(p) => !truth(p, v),
        Expr::And(p, q) => truth(p, v) && truth(q, v),
        Expr::Or(p, q) => truth(p, v) || truth(q, v),
        Expr::MatImpl(p, q) => !truth(p, v) || truth(q, v),
        Expr::MatEquiv(p, q) => truth(p, v) == truth(q, v),
        _ => panic!("classical formulas only"),
    }
}

fn tautology(e: &Expr) -> bool {
    for bits in 0..8u32 {
        let v = [bits & 1 != 0, bits & 2 != 0, bits & 4 != 0];
        if !truth(e, &v) {
            return false;
        }
    }
    true
}

// The prover's verdict on three-variable classical formulas agrees with the
// brute-force truth table: no model is lost by the decomposition rules, and
// none is invented.
#[test]
fn classical_verdicts_match_truth_tables() {
    let a = || atom(0);
    let b = || atom(1);
    let c = || atom(2);
    let formulas: Vec<Expr> = vec![
        // currying
        equiv(imp(and(a(), b()), c()), imp(a(), imp(b(), c()))),
        // one of De Morgan's laws
        equiv(or(a(), b()), not(and(not(a()), not(b())))),
        // a classically valid but intuitionistically surprising disjunction
        or(imp(a(), b()), imp(b(), c())),
        // not valid: the antecedent forces nothing
        imp(a(), or(b(), c())),
        // no contradiction is true
        not(and(a(), not(a()))),
        // the biconditional chains
        imp(and(equiv(a(), b()), equiv(b(), c())), equiv(a(), c())),
        // not valid: a bare conjunction
        and(or(a(), not(b())), c()),
        // not valid: nothing equals its own negation
        equiv(not(a()), a()),
        // excluded middle
        or(a(), not(a())),
        // contraposition
        equiv(imp(a(), b()), imp(not(b()), not(a()))),
    ];
    for f in formulas {
        let expected = tautology(&f);
        let t = PartialTableau::new(Logic::Classical(Classical {}), vec![], f.clone())
            .infer(100_000)
            .expect("search exhausted");
        assert_eq!(t.holds(), expected, "verdict mismatch on {f:?}");
    }
}
