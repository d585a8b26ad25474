use tableaux::logic::classical::Classical;
use tableaux::logic::modal::{Expr, Modal, Node, World};
use tableaux::logic::normal_modal::NormalModal;
use tableaux::logic::{InferenceRule, Logic};
use tableaux::tableau::{NodeId, NodeIdPriority, PartialTableau, Tableau};

fn atom(id: u64) -> Expr {
    Expr::Const(id)
}

fn not(e: Expr) -> Expr {
    Expr::Not(Box::new(e))
}

fn and(a: Expr, b: Expr) -> Expr {
    Expr::And(Box::new(a), Box::new(b))
}

fn or(a: Expr, b: Expr) -> Expr {
    Expr::Or(Box::new(a), Box::new(b))
}

fn imp(a: Expr, b: Expr) -> Expr {
    Expr::MatImpl(Box::new(a), Box::new(b))
}

fn nec(e: Expr) -> Expr {
    Expr::Necessity(Box::new(e))
}

fn poss(e: Expr) -> Expr {
    Expr::Possibility(Box::new(e))
}

fn classical() -> Logic {
    Logic::Classical(Classical {})
}

// A branch carrying an atom both asserted and negated closes, the closure
// propagates to the root, and with it every leaf of the finished tree is
// dead.
#[test]
fn contradictory_branch_closes() {
    let t = PartialTableau::new(classical(), vec![], not(and(atom(0), not(atom(0)))))
        .infer(10_000)
        .unwrap();
    assert!(t.holds());
    for node in t.nodes.iter() {
        if node.children.len() == 0 {
            assert!(node.is_dead());
        }
    }
}

// The verdict does not depend on the expansion order: driving the expansion
// by hand in plain creation order gives the same verdicts as the
// priority-driven queue, on a valid and on an invalid argument.
#[test]
fn verdict_is_independent_of_expansion_order() {
    let cases: Vec<(Vec<Expr>, Expr, bool)> = vec![
        (vec![imp(atom(0), atom(1))], imp(atom(1), atom(0)), false),
        (
            vec![imp(atom(0), atom(1)), imp(atom(1), atom(2))],
            imp(atom(0), atom(2)),
            true,
        ),
        (vec![], or(atom(0), not(atom(0))), true),
    ];
    for (premises, conclusion, expected) in cases {
        let queued = PartialTableau::new(classical(), premises.clone(), conclusion.clone())
            .infer(10_000)
            .unwrap();
        assert_eq!(queued.holds(), expected);

        let mut manual = PartialTableau::new(classical(), premises, conclusion);
        let mut idx = 0;
        while idx < manual.nodes.len() {
            manual.infer_node(NodeId { index: idx });
            idx += 1;
        }
        let frozen = Tableau {
            nodes: manual.nodes,
            root: manual.root,
        };
        assert_eq!(frozen.holds(), expected);
    }
}

// A spent step budget surfaces as a distinct search-exhausted outcome, with
// the pending work intact.
#[test]
fn exhausted_search_returns_the_partial_tableau() {
    let t = PartialTableau::new(classical(), vec![atom(0)], atom(1));
    match t.infer(0) {
        Ok(_) => panic!("a zero-step search cannot finish with pending nodes"),
        Err(partial) => {
            assert!(partial.uninferred_nodes.len() > 0);
        }
    }
}

// The extendability axiom keeps branches from stalling: a world that
// accesses nothing receives a fresh accessible world.
#[test]
fn extendability_adds_a_fresh_relation() {
    let t = PartialTableau::new(
        Logic::NormalModal(NormalModal::new().extendable()),
        vec![atom(0)],
        nec(atom(1)),
    )
    .infer(10_000)
    .unwrap();
    assert!(!t.holds());
    let relations: Vec<(usize, usize)> = t
        .nodes
        .iter()
        .filter_map(|n| match n.value {
            Node::Relation {
                from: World(f),
                to: World(t),
            } => Some((f, t)),
            _ => None,
        })
        .collect();
    // beyond the possibility-created edge, the axiom extended some world
    // that accessed nothing yet
    assert!(relations.len() >= 2);
    assert!(relations.iter().any(|(f, _)| *f != 0));
}

// The premise chain is built in order, with the negated conclusion at its
// end, all alive and queued.
#[test]
fn construction_builds_the_premise_chain() {
    let t = PartialTableau::new(classical(), vec![atom(0), atom(1)], atom(2));
    assert_eq!(t.nodes.len(), 3);
    assert_eq!(
        t.nodes[0].value,
        Node::Expr {
            expr: atom(0),
            world: World(0)
        }
    );
    assert_eq!(
        t.nodes[1].value,
        Node::Expr {
            expr: atom(1),
            world: World(0)
        }
    );
    assert_eq!(
        t.nodes[2].value,
        Node::Expr {
            expr: not(atom(2)),
            world: World(0)
        }
    );
    assert_eq!(t.nodes[2].parent, Some(NodeId { index: 1 }));
    assert_eq!(t.uninferred_nodes.len(), 3);
    // every chain node is queued once, in order, at its classical priority
    // (atoms and negated atoms rank highest, at ten)
    for i in 0..3 {
        assert_eq!(
            t.uninferred_nodes[i],
            NodeIdPriority {
                node_id: NodeId { index: i },
                priority: 10
            }
        );
    }
    assert!(t.nodes.iter().all(|n| !n.is_dead()));
}

// A reflexive rule set seeds the initial world's self-loop below the chain.
#[test]
fn reflexive_rule_set_seeds_the_initial_self_loop() {
    let t = PartialTableau::new(
        Logic::NormalModal(NormalModal::new().reflexive()),
        vec![],
        atom(0),
    );
    assert_eq!(t.nodes.len(), 2);
    assert_eq!(
        t.nodes[1].value,
        Node::Relation {
            from: World(0),
            to: World(0)
        }
    );
    assert_eq!(t.nodes[1].parent, Some(NodeId { index: 0 }));
    // the seeded relation is queued too, at the rule set's flat priority
    assert_eq!(
        t.uninferred_nodes[1],
        NodeIdPriority {
            node_id: NodeId { index: 1 },
            priority: 0
        }
    );
}

// An unexpanded chain keeps its depth; splitting deepens one level at a
// time.
#[test]
fn depth_follows_the_tree_shape() {
    let t = PartialTableau::new(classical(), vec![atom(0), atom(1)], atom(2));
    assert_eq!(t.depth(), 2);
    assert_eq!(t.depth_of(NodeId { index: 2 }), 0);
}

// The branch of a leaf runs from the leaf back to the root.
#[test]
fn branch_runs_leaf_to_root() {
    let t = PartialTableau::new(classical(), vec![atom(0)], atom(1));
    let branch = t.branch(NodeId { index: 1 });
    assert_eq!(branch.len(), 2);
    assert_eq!(
        branch[0],
        Node::Expr {
            expr: not(atom(1)),
            world: World(0)
        }
    );
    assert_eq!(
        branch[1],
        Node::Expr {
            expr: atom(0),
            world: World(0)
        }
    );
}

// Live leaves are the childless, unclosed nodes, in index order.
#[test]
fn live_leaves_lists_open_tips() {
    let t = PartialTableau::new(classical(), vec![atom(0)], atom(1));
    let leaves = t.live_leaves();
    assert_eq!(leaves.len(), 1);
    assert_eq!(leaves[0], NodeId { index: 1 });
}

// Adding a child by hand attaches, links and queues it.
#[test]
fn add_child_links_and_queues() {
    let mut t = PartialTableau::new(Logic::Modal(Modal {}), vec![], atom(0));
    t.add_child(
        NodeId { index: 0 },
        Node::Relation {
            from: World(0),
            to: World(0),
        },
    );
    assert_eq!(t.nodes.len(), 2);
    assert_eq!(t.nodes[0].children.len(), 1);
    assert_eq!(t.nodes[0].live_children, 1);
    assert_eq!(t.nodes[1].parent, Some(NodeId { index: 0 }));
    assert_eq!(t.uninferred_nodes.len(), 2);
}

// In K, a possibility opens a world one above the largest on its branch,
// visible in the final tree.
#[test]
fn possibility_allocates_the_next_world() {
    let t = PartialTableau::new(Logic::Modal(Modal {}), vec![poss(atom(0))], atom(1))
        .infer(10_000)
        .unwrap();
    assert!(!t.holds());
    let has_relation = t.nodes.iter().any(|n| {
        matches!(
            n.value,
            Node::Relation {
                from: World(0),
                to: World(1)
            }
        )
    });
    let has_instance = t.nodes.iter().any(|n| {
        n.value
            == Node::Expr {
                expr: atom(0),
                world: World(1),
            }
    });
    assert!(has_relation);
    assert!(has_instance);
}

// The inference-rule constructors build exactly their advertised shapes, and
// map applies a function to every node while keeping the shape.
#[test]
fn inference_rule_constructors_and_map() {
    let r: InferenceRule<u64> = InferenceRule::none();
    assert!(matches!(r, InferenceRule::Terminal));
    let r = InferenceRule::single(3u64).map(|x| x + 1);
    assert!(matches!(r, InferenceRule::Single(4)));
    let r = InferenceRule::split(1u64, 2u64).map(|x| x * 10);
    assert!(matches!(r, InferenceRule::Split(10, 20)));
    let r = InferenceRule::chain(vec![1u64, 2, 3]).map(|x| x * 2);
    match r {
        InferenceRule::Chain(v) => assert_eq!(v, vec![2, 4, 6]),
        _ => panic!("chain must stay a chain"),
    }
    let r = InferenceRule::split_and_chain(1u64, 2, 3, 4).map(|x| x + 1);
    assert!(matches!(r, InferenceRule::SplitAndChain(2, 3, 4, 5)));
}
