use tableaux::logic::classical::Classical;
use tableaux::logic::lexer::Symbol;
use tableaux::logic::modal::{Expr, Modal, Node, World};
use tableaux::logic::normal_modal::NormalModal;
use tableaux::logic::Logic;
use tableaux::tableau::TableauParseError;

fn atom(id: u64) -> Expr {
    Expr::Const(id)
}

fn not(e: Expr) -> Expr {
    Expr::Not(Box::new(e))
}

fn and(a: Expr, b: Expr) -> Expr {
    Expr::And(Box::new(a), Box::new(b))
}

// Axiom-set equality is up to logical implication: symmetry, transitivity
// and extendability together imply reflexivity, and reflexivity implies
// extendability.
#[test]
fn axiom_sets_compare_up_to_implication() {
    let t_system = NormalModal::new().reflexive();
    let explicit = NormalModal {
        reflexive: true,
        symmetric: false,
        transitive: false,
        extendable: true,
    };
    assert!(t_system == explicit);
    let implied_reflexive = NormalModal::new().symmetric().transitive().extendable();
    let spelled_out = NormalModal {
        reflexive: true,
        symmetric: true,
        transitive: true,
        extendable: true,
    };
    assert!(implied_reflexive == spelled_out);
    assert!(NormalModal::new() != NormalModal::new().reflexive());
    assert!(NormalModal::new().symmetric() != NormalModal::new().transitive());
}

// Normalization computes the implied closure of the axiom flags.
#[test]
fn normalization_closes_the_axiom_set() {
    let n = NormalModal::new().symmetric().transitive().extendable().normalized();
    assert!(n.reflexive && n.symmetric && n.transitive && n.extendable);
    let n = NormalModal::new().reflexive().normalized();
    assert!(n.reflexive && !n.symmetric && !n.transitive && n.extendable);
    let n = NormalModal::new().normalized();
    assert!(!n.reflexive && !n.symmetric && !n.transitive && !n.extendable);
}

// A node knows its world, what a relation makes accessible, and the literal
// it commits to.
#[test]
fn node_queries_read_the_right_fields() {
    let e = Node::Expr {
        expr: atom(7),
        world: World(2),
    };
    let r = Node::Relation {
        from: World(1),
        to: World(3),
    };
    assert_eq!(e.world(), Some(World(2)));
    assert_eq!(r.world(), None);
    assert_eq!(r.accessible_world_from(World(1)), Some(World(3)));
    assert_eq!(r.accessible_world_from(World(2)), None);
    assert_eq!(e.accessible_world_from(World(2)), None);
    assert_eq!(e.interpretation(), Some((7, true, World(2))));
    let ne = Node::Expr {
        expr: not(atom(7)),
        world: World(2),
    };
    assert_eq!(ne.interpretation(), Some((7, false, World(2))));
    let compound = Node::Expr {
        expr: and(atom(0), atom(1)),
        world: World(0),
    };
    assert_eq!(compound.interpretation(), None);
}

// Classical contradiction ignores worlds; the modal rule sets require the
// clash to sit at one world.
#[test]
fn contradiction_respects_worlds_per_logic() {
    let branch = vec![
        Node::Expr {
            expr: not(atom(0)),
            world: World(1),
        },
        Node::Expr {
            expr: atom(0),
            world: World(0),
        },
    ];
    let classical = Logic::Classical(Classical {});
    let modal = Logic::Modal(Modal {});
    assert!(classical.has_contradiction(&branch));
    assert!(!modal.has_contradiction(&branch));
    let same_world = vec![
        Node::Expr {
            expr: not(atom(0)),
            world: World(1),
        },
        Node::Expr {
            expr: atom(0),
            world: World(1),
        },
    ];
    assert!(modal.has_contradiction(&same_world));
    assert!(!modal.has_contradiction(&[same_world[0].clone()].to_vec()));
}

// Worlds count up from zero.
#[test]
fn worlds_count_upward() {
    assert_eq!(World::zero(), World(0));
    assert_eq!(World(4).next(), World(5));
}

// Negation wraps a formula.
#[test]
fn negation_wraps() {
    assert_eq!(atom(3).not(), not(atom(3)));
    let e = and(atom(0), atom(1));
    assert_eq!(e.not(), not(and(atom(0), atom(1))));
}

// Each rule set publishes its connective symbols.
#[test]
fn rule_sets_publish_their_symbols() {
    assert_eq!(
        Classical::symbols(),
        vec![
            Symbol::Not,
            Symbol::And,
            Symbol::Or,
            Symbol::MatImpl,
            Symbol::MatEquiv
        ]
    );
    assert_eq!(Modal::symbols().len(), 7);
    assert_eq!(NormalModal::symbols(), Modal::symbols());
}

// The symbol table pairs each connective with its Unicode character and
// ASCII alias.
#[test]
fn symbol_table_matches_the_wire_contract() {
    assert_eq!(Symbol::Not.symbol(), '¬');
    assert_eq!(Symbol::And.symbol(), '∧');
    assert_eq!(Symbol::Or.symbol(), '∨');
    assert_eq!(Symbol::MatImpl.symbol(), '⊃');
    assert_eq!(Symbol::MatEquiv.symbol(), '≡');
    assert_eq!(Symbol::Possib.symbol(), '◇');
    assert_eq!(Symbol::Necess.symbol(), '□');
    assert_eq!(Symbol::Not.ascii_str(), "!");
    assert_eq!(Symbol::And.ascii_str(), "&&");
    assert_eq!(Symbol::Or.ascii_str(), "||");
    assert_eq!(Symbol::MatImpl.ascii_str(), ">");
    assert_eq!(Symbol::MatEquiv.ascii_str(), "==");
    assert_eq!(Symbol::Possib.ascii_str(), "<>");
    assert_eq!(Symbol::Necess.ascii_str(), "[]");
    assert_eq!(Symbol::MatImpl.name(), "Material implication");
    // material implication is listed after possibility: its ASCII alias is a
    // suffix of possibility's
    let order = Symbol::iter();
    let pos_possib = order.iter().position(|s| *s == Symbol::Possib).unwrap();
    let pos_impl = order.iter().position(|s| *s == Symbol::MatImpl).unwrap();
    assert!(pos_possib < pos_impl);
    assert_eq!(order.len(), 7);
}

// The parse-error taxonomy distinguishes a failed formula from a missing
// inference symbol.
#[test]
fn parse_error_taxonomy_is_distinct() {
    let e: TableauParseError<String> = TableauParseError::ExpressionError("bad".to_string());
    assert!(matches!(e, TableauParseError::ExpressionError(_)));
    let m: TableauParseError<String> = TableauParseError::MissingInferenceSymbol;
    assert!(matches!(m, TableauParseError::MissingInferenceSymbol));
    let c: TableauParseError<String> = TableauParseError::MissingConclusion;
    assert!(matches!(c, TableauParseError::MissingConclusion));
}
