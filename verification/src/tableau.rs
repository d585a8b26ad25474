use vstd::prelude::*;

use crate::logic::modal::{all_worlds_lt, node_worlds_lt, rule_worlds_lt, Expr, Node, World};
use crate::logic::{spec_logic_infer, spec_logic_priority, InferenceRule, Logic, RuleView};

verus! {

/// A handle on one node of the proof tree: a dense index into the arena.
/// Indices are assigned at insertion and never reused or removed.
#[derive(Debug, Clone, Copy, PartialEq, Eq, Structural)]
pub struct NodeId {
    pub index: usize,
}

/// A [`NodeId`] together with its expansion priority, used to choose what
/// node to infer first.
#[derive(Debug, Clone, Copy, PartialEq, Eq, Structural)]
pub struct NodeIdPriority {
    pub node_id: NodeId,
    pub priority: u16,
}

/// One node of the proof tree: a logic-specific value, a back-reference to
/// its parent, its children, a cached count of its live children, and an
/// optional death marker. A node is dead exactly when the marker is set.
#[derive(Debug)]
pub struct TableauNode<V> {
    pub value: V,
    pub parent: Option<NodeId>,
    pub children: Vec<NodeId>,
    pub live_children: usize,
    pub death_reason: Option<()>,
}

impl<V> TableauNode<V> {
    /// Whether this node's death marker is set.
    pub open spec fn spec_dead(&self) -> bool {
        self.death_reason is Some
    }

    /// Whether this node is dead: its branch (or every branch through it)
    /// has closed.
    pub fn is_dead(&self) -> (r: bool)
        ensures
            r == self.spec_dead(),
    {
        self.death_reason.is_some()
    }
}

/// How many entries of `ch` point at a node of `nodes` that is not dead.
/// Out-of-range entries count as dead.
pub open spec fn count_live<V>(nodes: Seq<TableauNode<V>>, ch: Seq<NodeId>) -> int
    decreases ch.len(),
{
    if ch.len() == 0 {
        0
    } else {
        count_live(nodes, ch.drop_last()) + {
            let c = ch.last();
            if c.index < nodes.len() && !nodes[c.index as int].spec_dead() {
                1int
            } else {
                0int
            }
        }
    }
}

/// Structural soundness of node `i`: the root and only the root has no
/// parent, parents sit strictly below their children, and children lists
/// point strictly upward, in range, back at their parent, and without
/// duplicates.
pub open spec fn node_struct_ok<V>(nodes: Seq<TableauNode<V>>, i: int) -> bool {
    let n = nodes[i];
    &&& match n.parent {
        Some(p) => i != 0 && p.index < i,
        None => i == 0,
    }
    &&& forall|k: int|
        0 <= k < n.children@.len() ==> i < (#[trigger] n.children@[k]).index < nodes.len()
            && nodes[n.children@[k].index as int].parent == Some(NodeId { index: i as usize })
    &&& forall|k1: int, k2: int|
        0 <= k1 < k2 < n.children@.len() ==> n.children@[k1] != n.children@[k2]
    &&& n.children@.len() < nodes.len()
}

/// Liveness bookkeeping soundness of node `i`: the cached live-child count is
/// the number of live children, and an inner node is dead exactly when that
/// count has dropped to zero.
pub open spec fn node_counts_ok<V>(nodes: Seq<TableauNode<V>>, i: int) -> bool {
    let n = nodes[i];
    &&& n.live_children == count_live(nodes, n.children@)
    &&& n.children@.len() > 0 ==> (n.spec_dead() <==> n.live_children == 0)
}

/// Node `i` is linked: every non-root node appears in its parent's children.
pub open spec fn node_linked<V>(nodes: Seq<TableauNode<V>>, i: int) -> bool {
    nodes[i].parent matches Some(p) ==> nodes[p.index as int].children@.contains(
        NodeId { index: i as usize },
    )
}

/// A well-formed arena: nonempty, structurally sound, fully linked, with
/// sound liveness bookkeeping.
pub open spec fn nodes_wf<V>(nodes: Seq<TableauNode<V>>) -> bool {
    &&& nodes.len() >= 1
    &&& forall|i: int| 0 <= i < nodes.len() ==> node_struct_ok(nodes, i)
    &&& forall|i: int| 0 <= i < nodes.len() ==> node_counts_ok(nodes, i)
    &&& forall|i: int| 0 <= i < nodes.len() ==> node_linked(nodes, i)
}

/// Every world mentioned by a value in the arena lies below the arena's
/// length: at most one fresh world can exist per node.
pub open spec fn worlds_ok(nodes: Seq<TableauNode<Node>>) -> bool {
    forall|i: int| 0 <= i < nodes.len() ==> node_worlds_lt((#[trigger] nodes[i]).value, nodes.len() as int)
}

/// The arena only grows: values and parents of existing nodes never change,
/// children lists only gain entries at the end, and death is permanent.
pub open spec fn nodes_extend<V>(a: Seq<TableauNode<V>>, b: Seq<TableauNode<V>>) -> bool {
    &&& a.len() <= b.len()
    &&& forall|i: int|
        0 <= i < a.len() ==> {
            let x = #[trigger] a[i];
            let y = b[i];
            &&& y.value == x.value
            &&& y.parent == x.parent
            &&& x.children@.len() <= y.children@.len()
            &&& y.children@.take(x.children@.len() as int) == x.children@
            &&& (x.spec_dead() ==> y.spec_dead())
        }
}

/// Extension is reflexive and transitive.
pub proof fn lemma_extend_trans<V>(a: Seq<TableauNode<V>>, b: Seq<TableauNode<V>>, c: Seq<
    TableauNode<V>,
>)
    requires
        nodes_extend(a, b),
        nodes_extend(b, c),
    ensures
        nodes_extend(a, c),
{
    assert forall|i: int| 0 <= i < a.len() implies {
        let x = #[trigger] a[i];
        let y = c[i];
        &&& y.value == x.value
        &&& y.parent == x.parent
        &&& x.children@.len() <= y.children@.len()
        &&& y.children@.take(x.children@.len() as int) == x.children@
        &&& (x.spec_dead() ==> y.spec_dead())
    } by {
        let x = a[i];
        let y = b[i];
        let z = c[i];
        assert(y.children@.take(x.children@.len() as int) == x.children@);
        assert(z.children@.take(y.children@.len() as int) == y.children@);
        assert(z.children@.take(x.children@.len() as int) =~= y.children@.take(
            x.children@.len() as int,
        ));
    }
}

/// Counting live children only depends on the death markers the child list
/// points at.
pub proof fn lemma_count_live_congruence<V>(
    nodes1: Seq<TableauNode<V>>,
    nodes2: Seq<TableauNode<V>>,
    ch: Seq<NodeId>,
)
    requires
        forall|k: int|
            0 <= k < ch.len() ==> {
                let c = (#[trigger] ch[k]).index as int;
                &&& (c < nodes1.len() <==> c < nodes2.len())
                &&& (c < nodes1.len() ==> nodes1[c].spec_dead() == nodes2[c].spec_dead())
            },
    ensures
        count_live(nodes1, ch) == count_live(nodes2, ch),
    decreases ch.len(),
{
    if ch.len() > 0 {
        lemma_count_live_congruence(nodes1, nodes2, ch.drop_last());
    }
}

/// Counting live children over a list that does not mention node `x` is
/// unaffected by changing node `x`.
pub proof fn lemma_count_live_update_other<V>(
    nodes: Seq<TableauNode<V>>,
    x: usize,
    n: TableauNode<V>,
    ch: Seq<NodeId>,
)
    requires
        x < nodes.len(),
        forall|k: int| 0 <= k < ch.len() ==> (#[trigger] ch[k]).index != x,
    ensures
        count_live(nodes.update(x as int, n), ch) == count_live(nodes, ch),
{
    lemma_count_live_congruence(nodes, nodes.update(x as int, n), ch);
}

/// Marking a live node dead lowers by one the live count of any duplicate-free
/// child list that mentions it.
pub proof fn lemma_count_live_mark_dead<V>(
    nodes: Seq<TableauNode<V>>,
    x: usize,
    n: TableauNode<V>,
    ch: Seq<NodeId>,
)
    requires
        x < nodes.len(),
        !nodes[x as int].spec_dead(),
        n.spec_dead(),
        ch.contains(NodeId { index: x }),
        forall|k1: int, k2: int| 0 <= k1 < k2 < ch.len() ==> ch[k1] != ch[k2],
    ensures
        count_live(nodes.update(x as int, n), ch) == count_live(nodes, ch) - 1,
    decreases ch.len(),
{
    let xid = NodeId { index: x };
    let j = choose|j: int| 0 <= j < ch.len() && ch[j] == xid;
    let pre = ch.drop_last();
    assert(forall|k: int| 0 <= k < pre.len() ==> (#[trigger] pre[k]) == ch[k]);
    let upd = nodes.update(x as int, n);
    assert(upd.len() == nodes.len());
    if ch.last() == xid {
        assert forall|k: int| 0 <= k < pre.len() implies (#[trigger] pre[k]).index != x by {
            assert(ch[k] != ch[ch.len() - 1]);
        }
        lemma_count_live_update_other(nodes, x, n, pre);
        assert(count_live(upd, ch) == count_live(upd, pre) + (if ch.last().index < upd.len()
            && !upd[ch.last().index as int].spec_dead() {
            1int
        } else {
            0int
        }));
        assert(upd[x as int].spec_dead());
        assert(count_live(nodes, ch) == count_live(nodes, pre) + (if ch.last().index < nodes.len()
            && !nodes[ch.last().index as int].spec_dead() {
            1int
        } else {
            0int
        }));
    } else {
        assert(j < ch.len() - 1);
        assert(pre.contains(xid)) by {
            assert(pre[j] == xid);
        }
        assert(forall|k1: int, k2: int| 0 <= k1 < k2 < pre.len() ==> pre[k1] != pre[k2]);
        lemma_count_live_mark_dead(nodes, x, n, pre);
        assert(ch.last().index != x);
        assert(count_live(upd, ch) == count_live(upd, pre) + (if ch.last().index < upd.len()
            && !upd[ch.last().index as int].spec_dead() {
            1int
        } else {
            0int
        }));
        assert(count_live(nodes, ch) == count_live(nodes, pre) + (if ch.last().index < nodes.len()
            && !nodes[ch.last().index as int].spec_dead() {
            1int
        } else {
            0int
        }));
        assert(ch.last().index < nodes.len() ==> upd[ch.last().index as int].spec_dead()
            == nodes[ch.last().index as int].spec_dead());
    }
}

/// In a well-formed arena, a dead node has no live children, so every child
/// of a dead node is dead.
pub proof fn lemma_dead_children_dead<V>(nodes: Seq<TableauNode<V>>, i: int, k: int)
    requires
        nodes_wf(nodes),
        0 <= i < nodes.len(),
        nodes[i].spec_dead(),
        0 <= k < nodes[i].children@.len(),
    ensures
        nodes[nodes[i].children@[k].index as int].spec_dead(),
    decreases nodes[i].children@.len(),
{
    assert(node_counts_ok(nodes, i));
    assert(node_struct_ok(nodes, i));
    lemma_count_live_zero_all_dead(nodes, nodes[i].children@, k);
}

/// If a duplicate-free child list has live count zero, every in-range child
/// it mentions is dead.
pub proof fn lemma_count_live_zero_all_dead<V>(nodes: Seq<TableauNode<V>>, ch: Seq<NodeId>, k: int)
    requires
        count_live(nodes, ch) == 0,
        0 <= k < ch.len(),
        ch[k].index < nodes.len(),
    ensures
        nodes[ch[k].index as int].spec_dead(),
    decreases ch.len(),
{
    lemma_count_live_nonneg(nodes, ch);
    if k == ch.len() - 1 {
        lemma_count_live_nonneg(nodes, ch.drop_last());
    } else {
        lemma_count_live_nonneg(nodes, ch.drop_last());
        lemma_count_live_zero_all_dead(nodes, ch.drop_last(), k);
    }
}

/// A live count is never negative.
pub proof fn lemma_count_live_nonneg<V>(nodes: Seq<TableauNode<V>>, ch: Seq<NodeId>)
    ensures
        count_live(nodes, ch) >= 0,
    decreases ch.len(),
{
    if ch.len() > 0 {
        lemma_count_live_nonneg(nodes, ch.drop_last());
    }
}

/// A live count never exceeds the length of the child list.
pub proof fn lemma_count_live_le_len<V>(nodes: Seq<TableauNode<V>>, ch: Seq<NodeId>)
    ensures
        count_live(nodes, ch) <= ch.len(),
    decreases ch.len(),
{
    if ch.len() > 0 {
        lemma_count_live_le_len(nodes, ch.drop_last());
    }
}

/// Every parent reference points strictly downward, so walking parent links
/// terminates.
pub open spec fn parents_below<V>(nodes: Seq<TableauNode<V>>) -> bool {
    forall|i: int|
        0 <= i < nodes.len() ==> ((#[trigger] nodes[i]).parent matches Some(p) ==> p.index < i)
}

/// The branch of node `i`: the value of `i` first, then the values of its
/// ancestors in order, the root's value last.
pub open spec fn spec_branch<V>(nodes: Seq<TableauNode<V>>, i: int) -> Seq<V>
    decreases i,
{
    if i < 0 || i >= nodes.len() {
        Seq::empty()
    } else {
        match nodes[i].parent {
            None => seq![nodes[i].value],
            Some(p) => if p.index < i {
                seq![nodes[i].value] + spec_branch(nodes, p.index as int)
            } else {
                seq![nodes[i].value]
            },
        }
    }
}

/// Branch values are node values, so any bound on the arena's worlds bounds
/// the branch's worlds.
pub proof fn lemma_branch_worlds_lt(nodes: Seq<TableauNode<Node>>, i: int, b: int)
    requires
        forall|j: int| 0 <= j < nodes.len() ==> node_worlds_lt((#[trigger] nodes[j]).value, b),
        0 <= i < nodes.len(),
    ensures
        all_worlds_lt(spec_branch(nodes, i), b),
    decreases i,
{
    match nodes[i].parent {
        None => {},
        Some(p) => {
            if p.index < i {
                lemma_branch_worlds_lt(nodes, p.index as int, b);
                let s = spec_branch(nodes, i);
                let rest = spec_branch(nodes, p.index as int);
                assert forall|k: int| 0 <= k < s.len() implies node_worlds_lt(
                    #[trigger] s[k],
                    b,
                ) by {
                    if k > 0 {
                        assert(s[k] == rest[k - 1]);
                    }
                }
            }
        },
    }
}

/// A branch only depends on the values and parent links of the nodes at or
/// below its leaf, so extending the arena does not change it.
pub proof fn lemma_branch_stable<V>(a: Seq<TableauNode<V>>, b: Seq<TableauNode<V>>, i: int)
    requires
        nodes_extend(a, b),
        0 <= i < a.len(),
        parents_below(a),
    ensures
        spec_branch(b, i) == spec_branch(a, i),
    decreases i,
{
    match a[i].parent {
        None => {},
        Some(p) => {
            lemma_branch_stable(a, b, p.index as int);
        },
    }
}

/// Whether node `i` is a live leaf: in range, not dead, and childless.
pub open spec fn is_live_leaf<V>(nodes: Seq<TableauNode<V>>, i: int) -> bool {
    &&& 0 <= i < nodes.len()
    &&& !nodes[i].spec_dead()
    &&& nodes[i].children@.len() == 0
}

/// The live leaves with index below `i`, in ascending index order.
pub open spec fn spec_live_leaves_upto<V>(nodes: Seq<TableauNode<V>>, i: int) -> Seq<NodeId>
    decreases i,
{
    if i <= 0 {
        Seq::empty()
    } else {
        let pre = spec_live_leaves_upto(nodes, i - 1);
        if is_live_leaf(nodes, i - 1) {
            pre.push(NodeId { index: (i - 1) as usize })
        } else {
            pre
        }
    }
}

/// Every entry of the live-leaf listing is a live leaf below `i`, and the
/// entries are strictly ascending (hence distinct).
pub proof fn lemma_live_leaves_props<V>(nodes: Seq<TableauNode<V>>, i: int)
    requires
        i <= nodes.len(),
        i <= usize::MAX as int,
    ensures
        forall|j: int|
            0 <= j < spec_live_leaves_upto(nodes, i).len() ==> is_live_leaf(
                nodes,
                (#[trigger] spec_live_leaves_upto(nodes, i)[j]).index as int,
            ) && spec_live_leaves_upto(nodes, i)[j].index < i,
        forall|j1: int, j2: int|
            0 <= j1 < j2 < spec_live_leaves_upto(nodes, i).len()
                ==> spec_live_leaves_upto(nodes, i)[j1].index < spec_live_leaves_upto(
                nodes,
                i,
            )[j2].index,
    decreases i,
{
    if i > 0 {
        lemma_live_leaves_props(nodes, i - 1);
        let pre = spec_live_leaves_upto(nodes, i - 1);
        let whole = spec_live_leaves_upto(nodes, i);
        if is_live_leaf(nodes, i - 1) {
            assert(whole == pre.push(NodeId { index: (i - 1) as usize }));
            assert(forall|j: int| 0 <= j < pre.len() ==> whole[j] == pre[j]);
            assert forall|j: int| 0 <= j < whole.len() implies is_live_leaf(
                nodes,
                (#[trigger] whole[j]).index as int,
            ) && whole[j].index < i by {
                if j < pre.len() {
                    assert(whole[j] == pre[j]);
                    assert(is_live_leaf(nodes, pre[j].index as int) && pre[j].index < i - 1);
                } else {
                    assert(whole[j] == (NodeId { index: (i - 1) as usize }));
                }
            }
            assert forall|j1: int, j2: int| 0 <= j1 < j2 < whole.len() implies whole[j1].index
                < whole[j2].index by {
                if j2 < pre.len() {
                    assert(pre[j1].index < pre[j2].index);
                } else {
                    assert(whole[j1] == pre[j1] && pre[j1].index < i - 1);
                    assert(whole[j2].index == i - 1);
                }
            }
        } else {
            assert(whole == pre);
        }
    }
}

/// The tableau while it still grows: the selected rule set, the arena of
/// nodes, the root's handle, and the queue of nodes not yet expanded, each
/// tagged with its expansion priority.
#[derive(Debug)]
pub struct PartialTableau {
    /// The underlying logic system of the tableau.
    pub logic: Logic,
    pub nodes: Vec<TableauNode<Node>>,
    pub root: NodeId,
    /// Non-terminal nodes that need to be expanded.
    pub uninferred_nodes: Vec<NodeIdPriority>,
}

/// The finished tableau: the frozen arena, answering queries only.
#[derive(Debug)]
pub struct Tableau {
    pub nodes: Vec<TableauNode<Node>>,
    pub root: NodeId,
}

impl PartialTableau {
    /// Every queued handle is in range.
    pub open spec fn queue_wf(self) -> bool {
        forall|i: int|
            0 <= i < self.uninferred_nodes@.len() ==> (#[trigger] self.uninferred_nodes@[i]).node_id.index
                < self.nodes@.len()
    }

    /// The tableau's invariant: a well-formed arena rooted at index zero,
    /// worlds bounded by the arena's size, and a queue of in-range handles.
    pub open spec fn wf(self) -> bool {
        &&& nodes_wf(self.nodes@)
        &&& worlds_ok(self.nodes@)
        &&& self.root == (NodeId { index: 0usize })
        &&& self.queue_wf()
    }

    /// The node a handle refers to.
    pub fn get(&self, node_id: NodeId) -> (r: &TableauNode<Node>)
        requires
            node_id.index < self.nodes@.len(),
        ensures
            *r == self.nodes@[node_id.index as int],
    {
        &self.nodes[node_id.index]
    }

    /// The branch of `leaf`: its value first, its ancestors' values after,
    /// the root's value last.
    pub fn branch(&self, leaf: NodeId) -> (r: Vec<Node>)
        requires
            parents_below(self.nodes@),
            leaf.index < self.nodes@.len(),
        ensures
            r@ == spec_branch(self.nodes@, leaf.index as int),
    {
        let mut out: Vec<Node> = Vec::new();
        let mut cur: usize = leaf.index;
        loop
            invariant_except_break
                parents_below(self.nodes@),
                cur < self.nodes@.len(),
                spec_branch(self.nodes@, leaf.index as int) == out@ + spec_branch(
                    self.nodes@,
                    cur as int,
                ),
            ensures
                out@ == spec_branch(self.nodes@, leaf.index as int),
            decreases cur,
        {
            out.push(self.nodes[cur].value.clone());
            match self.nodes[cur].parent {
                Some(p) => {
                    proof {
                        assert(spec_branch(self.nodes@, cur as int) == seq![
                            self.nodes@[cur as int].value,
                        ] + spec_branch(self.nodes@, p.index as int));
                        assert(out@ + spec_branch(self.nodes@, p.index as int) =~= out@.drop_last()
                            + spec_branch(self.nodes@, cur as int));
                    }
                    cur = p.index;
                },
                None => {
                    proof {
                        assert(spec_branch(self.nodes@, cur as int) == seq![
                            self.nodes@[cur as int].value,
                        ]);
                        assert(out@ =~= out@.drop_last() + spec_branch(self.nodes@, cur as int));
                    }
                    break ;
                },
            }
        }
        out
    }

    /// Adds `child` as a new node under `parent`, which must be alive, and
    /// queues it for expansion with the priority the rule set gives it.
    #[verifier::spinoff_prover]
    pub fn add_child(&mut self, parent: NodeId, child: Node)
        requires
            old(self).wf(),
            parent.index < old(self).nodes@.len(),
            !old(self).nodes@[parent.index as int].spec_dead(),
            node_worlds_lt(child, old(self).nodes@.len() as int + 1),
        ensures
            final(self).wf(),
            nodes_extend(old(self).nodes@, final(self).nodes@),
            final(self).logic == old(self).logic,
            final(self).root == old(self).root,
            final(self).nodes@.len() == old(self).nodes@.len() + 1,
            final(self).nodes@.last().value == child,
            final(self).nodes@.last().parent == Some(parent),
            final(self).nodes@.last().children@.len() == 0,
            !final(self).nodes@.last().spec_dead(),
            final(self).nodes@[parent.index as int].children@ == old(self).nodes@[parent.index as int].children@.push(
                NodeId { index: old(self).nodes@.len() as usize },
            ),
            forall|i: int|
                0 <= i < old(self).nodes@.len() && i != parent.index ==> final(self).nodes@[i]
                    == old(self).nodes@[i],
            forall|i: int|
                0 <= i < old(self).nodes@.len() ==> (#[trigger] final(self).nodes@[i]).spec_dead()
                    == old(self).nodes@[i].spec_dead(),
            final(self).uninferred_nodes@ == old(self).uninferred_nodes@.push(
                NodeIdPriority {
                    node_id: NodeId { index: old(self).nodes@.len() as usize },
                    priority: spec_logic_priority(old(self).logic, child),
                },
            ),
    {
        let ghost prev = self.nodes@;
        let ghost old_len = self.nodes@.len() as int;
        let node_id = NodeId { index: self.nodes.len() };
        let priority = self.logic.priority(&child);
        self.nodes.push(
            TableauNode {
                value: child,
                parent: Some(parent),
                children: Vec::new(),
                live_children: 0,
                death_reason: None,
            },
        );
        let ghost mid = self.nodes@;
        self.nodes[parent.index].children.push(node_id);
        proof {
            assert(self.nodes@ == mid.update(
                parent.index as int,
                self.nodes@[parent.index as int],
            ));
            lemma_count_live_le_len(prev, prev[parent.index as int].children@);
        }
        let c = self.nodes[parent.index].live_children;
        assert(c < usize::MAX) by {
            assert(node_struct_ok(prev, parent.index as int));
            assert(node_counts_ok(prev, parent.index as int));
        }
        self.nodes[parent.index].live_children = c + 1;
        self.uninferred_nodes.push(NodeIdPriority { node_id, priority });
        proof {
            let cur = self.nodes@;
            let p = parent.index as int;
            assert(cur.len() == old_len + 1);
            assert(forall|i: int| 0 <= i < old_len && i != p ==> cur[i] == prev[i]);
            assert(cur[p].children@ == prev[p].children@.push(node_id));
            assert(cur[p].value == prev[p].value && cur[p].parent == prev[p].parent && cur[p].death_reason
                == prev[p].death_reason);
            assert(cur.last().children@.len() == 0);
            // every old child list sees the same death markers as before
            assert forall|i: int| 0 <= i < cur.len() implies node_counts_ok(cur, i) by {
                if i < old_len {
                    assert(node_counts_ok(prev, i));
                    assert(node_struct_ok(prev, i));
                    let ch_old = prev[i].children@;
                    lemma_count_live_congruence(prev, cur, ch_old);
                    if i == p {
                        assert(cur[p].children@.drop_last() =~= ch_old);
                        assert(cur[p].children@.last() == node_id);
                        assert(count_live(cur, cur[p].children@) == count_live(cur, ch_old) + (
                        if node_id.index < cur.len() && !cur[node_id.index as int].spec_dead() {
                            1int
                        } else {
                            0int
                        }));
                        assert(count_live(cur, cur[p].children@) == prev[p].live_children + 1);
                    } else {
                        assert(cur[i].children@ == ch_old);
                    }
                } else {
                    assert(cur[i].children@.len() == 0);
                }
            }
            assert forall|i: int| 0 <= i < cur.len() implies node_struct_ok(cur, i) by {
                if i < old_len {
                    assert(node_struct_ok(prev, i));
                    if i == p {
                        let ch = cur[p].children@;
                        let ch_old = prev[p].children@;
                        assert(forall|k: int| 0 <= k < ch_old.len() ==> ch[k] == ch_old[k]);
                        assert forall|k: int| 0 <= k < ch.len() implies i < (
                        #[trigger] ch[k]).index < cur.len() && cur[ch[k].index as int].parent
                            == Some(NodeId { index: i as usize }) by {
                            if k < ch_old.len() {
                                assert(ch[k] == ch_old[k]);
                                assert(i < ch_old[k].index < prev.len());
                                assert(cur[ch[k].index as int] == prev[ch_old[k].index as int]);
                            } else {
                                assert(ch[k] == node_id);
                            }
                        }
                        assert forall|k1: int, k2: int| 0 <= k1 < k2 < ch.len() implies ch[k1]
                            != ch[k2] by {
                            if k2 < ch_old.len() {
                                assert(ch_old[k1] != ch_old[k2]);
                            } else {
                                assert(ch[k1].index < prev.len());
                            }
                        }
                    } else {
                        assert(cur[i] == prev[i]);
                        assert forall|k: int| 0 <= k < cur[i].children@.len() implies i < (
                        #[trigger] cur[i].children@[k]).index < cur.len() && cur[cur[i].children@[k].index as int].parent
                            == Some(NodeId { index: i as usize }) by {
                            let cidx = prev[i].children@[k].index as int;
                            assert(i < cidx < prev.len());
                            if cidx != p {
                                assert(cur[cidx] == prev[cidx]);
                            }
                        }
                    }
                } else {
                    assert(cur[i].parent == Some(parent));
                }
            }
            assert forall|i: int| 0 <= i < cur.len() implies node_linked(cur, i) by {
                if i < old_len {
                    assert(node_linked(prev, i));
                    assert(node_struct_ok(prev, i));
                    match prev[i].parent {
                        Some(q) => {
                            let qi = q.index as int;
                            let xid = NodeId { index: i as usize };
                            assert(prev[qi].children@.contains(xid));
                            let k = choose|k: int|
                                0 <= k < prev[qi].children@.len() && #[trigger] prev[qi].children@[k]
                                    == xid;
                            assert(0 <= k < prev[qi].children@.len());
                            assert(cur[qi].children@[k] == prev[qi].children@[k]);
                            assert(cur[qi].children@.contains(xid));
                        },
                        None => {},
                    }
                } else {
                    assert(cur[p].children@.last() == node_id);
                }
            }
            assert forall|i: int| 0 <= i < cur.len() implies node_worlds_lt(
                (#[trigger] cur[i]).value,
                cur.len() as int,
            ) by {
                if i < old_len {
                    assert(node_worlds_lt(prev[i].value, prev.len() as int));
                    assert(cur[i].value == prev[i].value);
                    match cur[i].value {
                        Node::Expr { .. } => {},
                        Node::Relation { .. } => {},
                    }
                } else {
                    match child {
                        Node::Expr { .. } => {},
                        Node::Relation { .. } => {},
                    }
                }
            }
            assert(nodes_extend(prev, cur)) by {
                assert forall|i: int| 0 <= i < prev.len() implies {
                    let x = #[trigger] prev[i];
                    let y = cur[i];
                    &&& y.value == x.value
                    &&& y.parent == x.parent
                    &&& x.children@.len() <= y.children@.len()
                    &&& y.children@.take(x.children@.len() as int) == x.children@
                    &&& (x.spec_dead() ==> y.spec_dead())
                } by {
                    if i == p {
                        assert(cur[p].children@.take(prev[p].children@.len() as int)
                            =~= prev[p].children@);
                    } else {
                        assert(cur[i].children@.take(prev[i].children@.len() as int)
                            =~= prev[i].children@);
                    }
                }
            }
        }
    }

    /// Every leaf node that is not dead, in ascending index order.
    pub fn live_leaves(&self) -> (r: Vec<NodeId>)
        ensures
            r@ == spec_live_leaves_upto(self.nodes@, self.nodes@.len() as int),
    {
        let mut out: Vec<NodeId> = Vec::new();
        let mut i: usize = 0;
        while i < self.nodes.len()
            invariant
                i <= self.nodes@.len(),
                out@ == spec_live_leaves_upto(self.nodes@, i as int),
            decreases self.nodes@.len() - i,
        {
            if !self.nodes[i].is_dead() && self.nodes[i].children.len() == 0 {
                out.push(NodeId { index: i });
            }
            i = i + 1;
        }
        out
    }
}

/// An exact copy of a vector of nodes.
fn clone_nodes(v: &Vec<Node>) -> (r: Vec<Node>)
    ensures
        r@ == v@,
{
    let mut out: Vec<Node> = Vec::new();
    let mut i: usize = 0;
    while i < v.len()
        invariant
            i <= v@.len(),
            out@ == v@.take(i as int),
        decreases v@.len() - i,
    {
        out.push(v[i].clone());
        proof {
            assert(out@ =~= v@.take(i + 1));
        }
        i = i + 1;
    }
    proof {
        assert(v@.take(v@.len() as int) =~= v@);
    }
    out
}

/// Like [`PartialTableau::wf`], except that node `leaf` is in the middle of
/// gaining the children one rule application gives it: its live-child count
/// still reads zero and it is still alive; everything else is sound.
pub open spec fn wf_except_leaf(t: PartialTableau, leaf: int) -> bool {
    &&& t.nodes@.len() >= 1
    &&& 0 <= leaf < t.nodes@.len()
    &&& forall|i: int| 0 <= i < t.nodes@.len() ==> node_struct_ok(t.nodes@, i)
    &&& forall|i: int| 0 <= i < t.nodes@.len() ==> node_linked(t.nodes@, i)
    &&& forall|i: int| 0 <= i < t.nodes@.len() && i != leaf ==> node_counts_ok(t.nodes@, i)
    &&& t.nodes@[leaf].live_children == 0
    &&& !t.nodes@[leaf].spec_dead()
    &&& worlds_ok(t.nodes@)
    &&& t.root == (NodeId { index: 0usize })
    &&& t.queue_wf()
}

/// Like [`PartialTableau::wf`], except that node `x` has just died and the
/// death has not reached its parent's live-child count yet: the parent still
/// counts `x` as live, one too many.
pub open spec fn wf_overcount(t: PartialTableau, x: int) -> bool {
    &&& t.nodes@.len() >= 1
    &&& 0 <= x < t.nodes@.len()
    &&& forall|i: int| 0 <= i < t.nodes@.len() ==> node_struct_ok(t.nodes@, i)
    &&& forall|i: int| 0 <= i < t.nodes@.len() ==> node_linked(t.nodes@, i)
    &&& t.nodes@[x].spec_dead()
    &&& match t.nodes@[x].parent {
        None => forall|i: int| 0 <= i < t.nodes@.len() ==> node_counts_ok(t.nodes@, i),
        Some(p) => {
            &&& forall|i: int|
                0 <= i < t.nodes@.len() && i != p.index ==> node_counts_ok(t.nodes@, i)
            &&& t.nodes@[p.index as int].live_children == count_live(
                t.nodes@,
                t.nodes@[p.index as int].children@,
            ) + 1
            &&& !t.nodes@[p.index as int].spec_dead()
        },
    }
    &&& worlds_ok(t.nodes@)
    &&& t.root == (NodeId { index: 0usize })
    &&& t.queue_wf()
}

/// Liveness bookkeeping transfers to a grown arena when a node's own fields
/// and every death marker it can see are unchanged.
pub proof fn lemma_counts_ok_preserved<V>(prev: Seq<TableauNode<V>>, cur: Seq<TableauNode<V>>, i: int)
    requires
        0 <= i < prev.len(),
        prev.len() <= cur.len(),
        node_counts_ok(prev, i),
        node_struct_ok(prev, i),
        cur[i].children@ == prev[i].children@,
        cur[i].live_children == prev[i].live_children,
        cur[i].spec_dead() == prev[i].spec_dead(),
        forall|j: int|
            0 <= j < prev.len() ==> (#[trigger] cur[j]).spec_dead() == prev[j].spec_dead(),
    ensures
        node_counts_ok(cur, i),
{
    lemma_count_live_congruence(prev, cur, prev[i].children@);
}

/// Liveness bookkeeping of node `i` survives the death of a node that is not
/// one of `i`'s children.
pub proof fn lemma_counts_ok_other_death<V>(
    prev: Seq<TableauNode<V>>,
    cur: Seq<TableauNode<V>>,
    i: int,
    x: usize,
)
    requires
        prev.len() == cur.len(),
        0 <= i < prev.len(),
        x < prev.len(),
        node_counts_ok(prev, i),
        node_struct_ok(prev, i),
        cur[i].children@ == prev[i].children@,
        cur[i].live_children == prev[i].live_children,
        cur[i].spec_dead() == prev[i].spec_dead(),
        forall|j: int|
            0 <= j < prev.len() && j != x ==> (#[trigger] cur[j]).spec_dead()
                == prev[j].spec_dead(),
        prev[x as int].parent != Some(NodeId { index: i as usize }),
    ensures
        node_counts_ok(cur, i),
{
    let ch = prev[i].children@;
    assert forall|k: int| 0 <= k < ch.len() implies (#[trigger] ch[k]).index != x by {
        if ch[k].index == x {
            assert(prev[ch[k].index as int].parent == Some(NodeId { index: i as usize }));
        }
    }
    lemma_count_live_congruence(prev, cur, ch);
}

impl PartialTableau {
    /// Walks a fresh death up the tree: the dead node's parent loses one live
    /// child; a parent whose live-child count drops to zero dies as well, and
    /// the walk continues from it.
    #[verifier::spinoff_prover]
    fn propagate_death(&mut self, start: NodeId)
        requires
            wf_overcount(*old(self), start.index as int),
            old(self).nodes@[start.index as int].children@.len() > 0,
        ensures
            final(self).wf(),
            final(self).nodes@.len() == old(self).nodes@.len(),
            final(self).logic == old(self).logic,
            final(self).root == old(self).root,
            final(self).uninferred_nodes == old(self).uninferred_nodes,
            forall|i: int|
                0 <= i < old(self).nodes@.len() ==> {
                    let x = old(self).nodes@[i];
                    let y = #[trigger] final(self).nodes@[i];
                    y.value == x.value && y.parent == x.parent && y.children == x.children && (
                    x.spec_dead() ==> y.spec_dead())
                },
            forall|i: int|
                0 <= i < old(self).nodes@.len() && !old(self).nodes@[i].spec_dead() && (
                #[trigger] final(self).nodes@[i]).spec_dead()
                    ==> final(self).nodes@[i].children@.len() > 0 && i < start.index,
    {
        let ghost orig = self.nodes@;
        proof {
            assert(orig[start.index as int].children@.len() > 0);
        }
        let len_now = self.nodes.len();
        let mut cur = start;
        loop
            invariant_except_break
                wf_overcount(*self, cur.index as int),
                cur.index < self.nodes@.len(),
                self.nodes@.len() == orig.len(),
                orig.len() <= usize::MAX as int,
                self.logic == old(self).logic,
                self.root == old(self).root,
                self.uninferred_nodes == old(self).uninferred_nodes,
                forall|i: int|
                    0 <= i < orig.len() ==> {
                        let x = orig[i];
                        let y = #[trigger] self.nodes@[i];
                        y.value == x.value && y.parent == x.parent && y.children == x.children && (
                        x.spec_dead() ==> y.spec_dead())
                    },
                forall|i: int|
                    0 <= i < orig.len() && !orig[i].spec_dead() && (
                    #[trigger] self.nodes@[i]).spec_dead() ==> self.nodes@[i].children@.len() > 0
                        && i < start.index,
                self.nodes@[cur.index as int].spec_dead(),
                cur.index <= start.index,
            ensures
                self.wf(),
                self.nodes@.len() == orig.len(),
                self.logic == old(self).logic,
                self.root == old(self).root,
                self.uninferred_nodes == old(self).uninferred_nodes,
                forall|i: int|
                    0 <= i < orig.len() ==> {
                        let x = orig[i];
                        let y = #[trigger] self.nodes@[i];
                        y.value == x.value && y.parent == x.parent && y.children == x.children && (
                        x.spec_dead() ==> y.spec_dead())
                    },
                forall|i: int|
                    0 <= i < orig.len() && !orig[i].spec_dead() && (
                    #[trigger] self.nodes@[i]).spec_dead() ==> self.nodes@[i].children@.len() > 0
                        && i < start.index,
            decreases cur.index,
        {
            let ghost prev = self.nodes@;
            let par_opt = self.nodes[cur.index].parent;
            match par_opt {
                None => {
                    break ;
                },
                Some(p) => {
                    proof {
                        assert(node_struct_ok(self.nodes@, cur.index as int));
                        assert(p.index < cur.index);
                        lemma_count_live_nonneg(self.nodes@, self.nodes@[p.index as int].children@);
                    }
                    let c = self.nodes[p.index].live_children;
                    self.nodes[p.index].live_children = c - 1;
                    proof {
                        let cur_s = self.nodes@;
                        let pi = p.index as int;
                        assert(cur_s == prev.update(pi, cur_s[pi]));
                        assert(forall|j: int|
                            0 <= j < prev.len() ==> (#[trigger] cur_s[j]).spec_dead()
                                == prev[j].spec_dead());
                        assert(count_live(cur_s, cur_s[pi].children@) == count_live(
                            prev,
                            prev[pi].children@,
                        )) by {
                            lemma_count_live_congruence(prev, cur_s, prev[pi].children@);
                        }
                    }
                    if c - 1 == 0 {
                        self.nodes[p.index].death_reason = Some(());
                        proof {
                            let ghost mid = prev.update(
                                p.index as int,
                                self.nodes@[p.index as int],
                            );
                            let cur_s = self.nodes@;
                            let pi = p.index as int;
                            assert(cur_s =~= mid);
                            assert(cur_s[pi].parent == prev[pi].parent);
                            assert(cur_s[pi].children@ == prev[pi].children@);
                            assert(node_struct_ok(prev, pi));
                            // the parent has children (the dead child is linked)
                            assert(node_linked(prev, cur.index as int));
                            assert(prev[pi].children@.contains(
                                NodeId { index: cur.index as usize },
                            ));
                            assert(cur_s[pi].children@.len() > 0);
                            // counts of every node other than the grandparent
                            assert forall|i: int|
                                0 <= i < cur_s.len() && (match prev[pi].parent {
                                    Some(q) => i != q.index,
                                    None => true,
                                }) implies node_counts_ok(cur_s, i) by {
                                if i == pi {
                                    assert(cur_s[pi].spec_dead());
                                    assert(cur_s[pi].live_children == 0);
                                    let ch = prev[pi].children@;
                                    assert forall|k: int| 0 <= k < ch.len() implies {
                                        let c2 = (#[trigger] ch[k]).index as int;
                                        &&& (c2 < prev.len() <==> c2 < cur_s.len())
                                        &&& (c2 < prev.len() ==> prev[c2].spec_dead()
                                            == cur_s[c2].spec_dead())
                                    } by {
                                        assert(pi < ch[k].index < prev.len());
                                    }
                                    assert(count_live(cur_s, cur_s[pi].children@) == 0) by {
                                        lemma_count_live_congruence(prev, cur_s, ch);
                                    }
                                } else {
                                    assert(node_counts_ok(prev, i));
                                    assert(node_struct_ok(prev, i));
                                    assert(prev[pi].parent != Some(NodeId { index: i as usize }));
                                    lemma_counts_ok_other_death(prev, cur_s, i, p.index);
                                }
                            }
                            assert forall|i: int| 0 <= i < cur_s.len() implies node_struct_ok(
                                cur_s,
                                i,
                            ) by {
                                assert(node_struct_ok(prev, i));
                            }
                            assert forall|i: int| 0 <= i < cur_s.len() implies node_linked(
                                cur_s,
                                i,
                            ) by {
                                assert(node_linked(prev, i));
                                assert(node_struct_ok(prev, i));
                                match prev[i].parent {
                                    Some(q) => {
                                        let qi = q.index as int;
                                        assert(cur_s[i].parent == prev[i].parent);
                                        assert(cur_s[qi].children@ == prev[qi].children@);
                                        assert(prev[qi].children@.contains(
                                            NodeId { index: i as usize },
                                        ));
                                    },
                                    None => {},
                                }
                            }
                            // the grandparent, if any, now overcounts by one
                            match cur_s[pi].parent {
                                Some(q) => {
                                    let qi = q.index as int;
                                    assert(node_linked(prev, pi));
                                    assert(prev[qi].children@.contains(
                                        NodeId { index: p.index as usize },
                                    ));
                                    assert(node_counts_ok(prev, qi));
                                    assert(node_struct_ok(prev, qi));
                                    lemma_count_live_mark_dead(
                                        prev,
                                        p.index,
                                        cur_s[pi],
                                        prev[qi].children@,
                                    );
                                    assert(count_live(cur_s, cur_s[qi].children@) == count_live(
                                        prev,
                                        prev[qi].children@,
                                    ) - 1);
                                    // the grandparent was counting a live child, so it is alive
                                    assert(prev[qi].live_children >= 1) by {
                                        lemma_count_live_nonneg(cur_s, cur_s[qi].children@);
                                    }
                                    assert(!cur_s[qi].spec_dead());
                                },
                                None => {},
                            }
                        }
                        cur = p;
                    } else {
                        proof {
                            let cur_s = self.nodes@;
                            let pi = p.index as int;
                            assert forall|i: int| 0 <= i < cur_s.len() implies node_counts_ok(
                                cur_s,
                                i,
                            ) by {
                                if i == pi {
                                    assert(node_linked(prev, cur.index as int));
                                    assert(cur_s[pi].children@.contains(
                                        NodeId { index: cur.index as usize },
                                    ));
                                    assert(cur_s[pi].children@.len() > 0);
                                } else {
                                    assert(node_counts_ok(prev, i));
                                    assert(node_struct_ok(prev, i));
                                    lemma_counts_ok_preserved(prev, cur_s, i);
                                }
                            }
                            assert forall|i: int| 0 <= i < cur_s.len() implies node_struct_ok(
                                cur_s,
                                i,
                            ) by {
                                assert(node_struct_ok(prev, i));
                            }
                            assert forall|i: int| 0 <= i < cur_s.len() implies node_linked(
                                cur_s,
                                i,
                            ) by {
                                assert(node_linked(prev, i));
                                assert(node_struct_ok(prev, i));
                                match prev[i].parent {
                                    Some(q) => {
                                        let qi = q.index as int;
                                        assert(cur_s[i].parent == prev[i].parent);
                                        assert(cur_s[qi].children@ == prev[qi].children@);
                                        assert(prev[qi].children@.contains(
                                            NodeId { index: i as usize },
                                        ));
                                    },
                                    None => {},
                                }
                            }
                        }
                        break ;
                    }
                },
            }
        }
    }
}

impl PartialTableau {
    /// Settles a leaf after one rule application attached its children:
    /// recounts the leaf's live children, and if every branch below it has
    /// closed, marks the leaf dead and walks the death upward.
    #[verifier::spinoff_prover]
    fn resolve_leaf(&mut self, leaf: NodeId)
        requires
            wf_except_leaf(*old(self), leaf.index as int),
        ensures
            final(self).wf(),
            final(self).nodes@.len() == old(self).nodes@.len(),
            final(self).logic == old(self).logic,
            final(self).root == old(self).root,
            final(self).uninferred_nodes == old(self).uninferred_nodes,
            forall|i: int|
                0 <= i < old(self).nodes@.len() ==> {
                    let x = old(self).nodes@[i];
                    let y = #[trigger] final(self).nodes@[i];
                    y.value == x.value && y.parent == x.parent && y.children == x.children && (
                    x.spec_dead() ==> y.spec_dead())
                },
            forall|i: int|
                0 <= i < old(self).nodes@.len() && !old(self).nodes@[i].spec_dead() && (
                #[trigger] final(self).nodes@[i]).spec_dead()
                    ==> final(self).nodes@[i].children@.len() > 0 && i <= leaf.index,
    {
        let ghost orig = self.nodes@;
        let li = leaf.index;
        let nch = self.nodes[li].children.len();
        if nch == 0 {
            proof {
                assert(self.nodes@[li as int].children@.len() == 0);
                assert(count_live(self.nodes@, self.nodes@[li as int].children@) == 0);
                assert(node_counts_ok(self.nodes@, li as int));
            }
            return ;
        }
        let mut cnt: usize = 0;
        let mut k: usize = 0;
        while k < nch
            invariant
                wf_except_leaf(*self, li as int),
                *self == *old(self),
                li == leaf.index,
                li < self.nodes@.len(),
                nch == self.nodes@[li as int].children@.len(),
                k <= nch,
                cnt <= k,
                cnt == count_live(self.nodes@, self.nodes@[li as int].children@.take(k as int)),
            decreases nch - k,
        {
            proof {
                assert(node_struct_ok(self.nodes@, li as int));
            }
            let cid = self.nodes[li].children[k];
            let alive = !self.nodes[cid.index].is_dead();
            proof {
                let ch = self.nodes@[li as int].children@;
                assert(ch.take(k + 1).drop_last() =~= ch.take(k as int));
                assert(ch.take(k + 1).last() == ch[k as int]);
            }
            if alive {
                cnt = cnt + 1;
            }
            k = k + 1;
        }
        proof {
            let ch = self.nodes@[li as int].children@;
            assert(ch.take(nch as int) =~= ch);
        }
        let ghost prev = self.nodes@;
        self.nodes[li].live_children = cnt;
        proof {
            let cur_s = self.nodes@;
            assert(forall|j: int|
                0 <= j < prev.len() ==> (#[trigger] cur_s[j]).spec_dead() == prev[j].spec_dead());
            assert(count_live(cur_s, cur_s[li as int].children@) == count_live(
                prev,
                prev[li as int].children@,
            )) by {
                lemma_count_live_congruence(prev, cur_s, prev[li as int].children@);
            }
            assert forall|i: int| 0 <= i < cur_s.len() implies node_struct_ok(cur_s, i) by {
                assert(node_struct_ok(prev, i));
            }
            assert forall|i: int| 0 <= i < cur_s.len() implies node_linked(cur_s, i) by {
                assert(node_linked(prev, i));
                assert(node_struct_ok(prev, i));
                match prev[i].parent {
                    Some(q) => {
                        let qi = q.index as int;
                        assert(cur_s[i].parent == prev[i].parent);
                        assert(cur_s[qi].children@ == prev[qi].children@);
                        assert(prev[qi].children@.contains(NodeId { index: i as usize }));
                    },
                    None => {},
                }
            }
            assert forall|i: int| 0 <= i < cur_s.len() && i != li implies node_counts_ok(
                cur_s,
                i,
            ) by {
                assert(node_counts_ok(prev, i));
                assert(node_struct_ok(prev, i));
                lemma_counts_ok_preserved(prev, cur_s, i);
            }
        }
        if cnt == 0 {
            let ghost prev2 = self.nodes@;
            let n_total = self.nodes.len();
            self.nodes[li].death_reason = Some(());
            proof {
                let cur_s = self.nodes@;
                let lii = li as int;
                assert(prev2.len() == n_total as int);
                assert(node_struct_ok(prev2, lii));
                assert(cur_s[lii].children@ == prev2[lii].children@);
                assert(cur_s[lii].spec_dead() && cur_s[lii].live_children == 0);
                // the leaf's own count is now sound
                assert(count_live(cur_s, cur_s[lii].children@) == count_live(
                    prev2,
                    prev2[lii].children@,
                )) by {
                    assert(node_struct_ok(prev2, lii));
                    let ch = prev2[lii].children@;
                    assert forall|j: int| 0 <= j < ch.len() implies {
                        let c2 = (#[trigger] ch[j]).index as int;
                        &&& (c2 < prev2.len() <==> c2 < cur_s.len())
                        &&& (c2 < prev2.len() ==> prev2[c2].spec_dead() == cur_s[c2].spec_dead())
                    } by {
                        assert(lii < ch[j].index < prev2.len());
                    }
                    lemma_count_live_congruence(prev2, cur_s, ch);
                }
                // every other node is settled, except the parent now overcounts
                assert forall|i: int|
                    0 <= i < cur_s.len() && (match prev2[lii].parent {
                        Some(q) => i != q.index,
                        None => true,
                    }) && i != lii implies node_counts_ok(cur_s, i) by {
                    assert(node_counts_ok(prev2, i));
                    assert(node_struct_ok(prev2, i));
                    assert(prev2[lii].parent != Some(NodeId { index: i as usize }));
                    lemma_counts_ok_other_death(prev2, cur_s, i, li);
                }
                assert forall|i: int| 0 <= i < cur_s.len() implies node_struct_ok(cur_s, i) by {
                    assert(node_struct_ok(prev2, i));
                }
                assert forall|i: int| 0 <= i < cur_s.len() implies node_linked(cur_s, i) by {
                    assert(node_linked(prev2, i));
                    assert(node_struct_ok(prev2, i));
                    match prev2[i].parent {
                        Some(q) => {
                            let qi = q.index as int;
                            assert(cur_s[i].parent == prev2[i].parent);
                            assert(cur_s[qi].children@ == prev2[qi].children@);
                            assert(prev2[qi].children@.contains(NodeId { index: i as usize }));
                        },
                        None => {},
                    }
                }
                match prev2[lii].parent {
                    Some(q) => {
                        let qi = q.index as int;
                        assert(node_linked(prev2, lii));
                        assert(prev2[qi].children@.contains(NodeId { index: li }));
                        assert(node_counts_ok(prev2, qi));
                        assert(node_struct_ok(prev2, qi));
                        lemma_count_live_mark_dead(prev2, li, cur_s[lii], prev2[qi].children@);
                        assert(count_live(cur_s, cur_s[qi].children@) == count_live(
                            prev2,
                            prev2[qi].children@,
                        ) - 1);
                        assert(prev2[qi].live_children >= 1) by {
                            lemma_count_live_nonneg(cur_s, cur_s[qi].children@);
                        }
                        assert(!cur_s[qi].spec_dead());
                    },
                    None => {},
                }
                assert(wf_overcount(*self, lii));
            }
            self.propagate_death(leaf);
        } else {
            proof {
                let cur_s = self.nodes@;
                assert(node_counts_ok(cur_s, li as int));
                assert(self.wf());
            }
        }
    }
}

/// The values of the chain `first..=last`, in leaf-to-root order.
pub open spec fn spec_chain_values_rev(nodes: Seq<TableauNode<Node>>, first: int, last: int) -> Seq<
    Node,
>
    decreases last - first + 1,
{
    if last < first {
        Seq::empty()
    } else {
        seq![nodes[last].value] + spec_chain_values_rev(nodes, first, last - 1)
    }
}

/// The branch of the last node of a parent-linked chain hanging under
/// `leaf`: the chain's values in leaf-to-root order, then the leaf's branch.
pub proof fn lemma_chain_branch(nodes: Seq<TableauNode<Node>>, leaf: int, first: int, last: int)
    requires
        nodes.len() <= usize::MAX as int,
        0 <= leaf < first <= last < nodes.len(),
        nodes[first].parent == Some(NodeId { index: leaf as usize }),
        forall|i: int|
            first < i <= last ==> (#[trigger] nodes[i]).parent == Some(
                NodeId { index: (i - 1) as usize },
            ),
    ensures
        spec_branch(nodes, last) == spec_chain_values_rev(nodes, first, last) + spec_branch(
            nodes,
            leaf,
        ),
    decreases last - first,
{
    if last == first {
        assert(spec_branch(nodes, last) == seq![nodes[last].value] + spec_branch(nodes, leaf));
        assert(spec_chain_values_rev(nodes, first, last - 1) =~= Seq::<Node>::empty());
        assert(spec_chain_values_rev(nodes, first, last) == seq![nodes[last].value]
            + spec_chain_values_rev(nodes, first, last - 1));
        assert(spec_chain_values_rev(nodes, first, last) =~= seq![nodes[last].value]);
        assert(seq![nodes[last].value] + spec_branch(nodes, leaf) =~= spec_chain_values_rev(
            nodes,
            first,
            last,
        ) + spec_branch(nodes, leaf));
    } else {
        lemma_chain_branch(nodes, leaf, first, last - 1);
        assert(spec_branch(nodes, last) == seq![nodes[last].value] + spec_branch(nodes, last - 1));
        assert(seq![nodes[last].value] + (spec_chain_values_rev(nodes, first, last - 1)
            + spec_branch(nodes, leaf)) =~= spec_chain_values_rev(nodes, first, last)
            + spec_branch(nodes, leaf));
    }
}

/// The queue entry the engine creates for node `i`: its handle, at the
/// priority the rule set gives its value.
pub open spec fn queue_entry(nodes: Seq<TableauNode<Node>>, logic: Logic, i: int) -> NodeIdPriority {
    NodeIdPriority {
        node_id: NodeId { index: i as usize },
        priority: spec_logic_priority(logic, nodes[i].value),
    }
}

/// The queue entries for the nodes `lo..hi`, in index order.
pub open spec fn queue_entries(nodes: Seq<TableauNode<Node>>, logic: Logic, lo: int, hi: int) -> Seq<
    NodeIdPriority,
>
    decreases hi - lo,
{
    if hi <= lo {
        Seq::empty()
    } else {
        queue_entries(nodes, logic, lo, hi - 1).push(queue_entry(nodes, logic, hi - 1))
    }
}

/// Queue entries only read node values, so any step that keeps the values of
/// `lo..hi` keeps the entries.
pub proof fn lemma_queue_entries_congruence(
    a: Seq<TableauNode<Node>>,
    b: Seq<TableauNode<Node>>,
    logic: Logic,
    lo: int,
    hi: int,
)
    requires
        forall|i: int| lo <= i < hi ==> (#[trigger] b[i]).value == a[i].value,
    ensures
        queue_entries(a, logic, lo, hi) == queue_entries(b, logic, lo, hi),
    decreases hi - lo,
{
    if hi > lo {
        lemma_queue_entries_congruence(a, b, logic, lo, hi - 1);
    }
}

/// Queue entries concatenate over adjacent index ranges.
pub proof fn lemma_queue_entries_concat(
    nodes: Seq<TableauNode<Node>>,
    logic: Logic,
    lo: int,
    mid: int,
    hi: int,
)
    requires
        lo <= mid <= hi,
    ensures
        queue_entries(nodes, logic, lo, hi) =~= queue_entries(nodes, logic, lo, mid)
            + queue_entries(nodes, logic, mid, hi),
    decreases hi - mid,
{
    if hi > mid {
        lemma_queue_entries_concat(nodes, logic, lo, mid, hi - 1);
    }
}

/// An exact linear path in the arena: starting at `head`, the nodes carry
/// the values `xs` in order, each linked to the next as its only child, the
/// last childless.
pub open spec fn chain_exact(post: Seq<TableauNode<Node>>, head: int, xs: Seq<Node>) -> bool
    decreases xs.len(),
{
    &&& 0 <= head < post.len()
    &&& xs.len() >= 1
    &&& post[head].value == xs[0]
    &&& if xs.len() == 1 {
        post[head].children@.len() == 0
    } else {
        &&& post[head].children@.len() == 1
        &&& head < post[head].children@[0].index < post.len()
        &&& chain_exact(post, post[head].children@[0].index as int, xs.skip(1))
    }
}

/// The stop-on-death attachment of `xs` at `head`: some nonempty prefix of
/// `xs` stands as an exact path, and the path was cut short only because it
/// closed, in which case the whole attached prefix is dead.
pub open spec fn chain_realized(post: Seq<TableauNode<Node>>, head: int, xs: Seq<Node>) -> bool {
    exists|k: int|
        1 <= k <= xs.len() && #[trigger] chain_exact(post, head, xs.take(k)) && (k < xs.len()
            ==> post[head].spec_dead())
}

/// One rule application realized under one leaf, per the five tree-splitting
/// shapes: a terminal adds nothing; a single is a one-node path; a split
/// opens two one-node branches; a chain is one stop-on-death path; a
/// split-and-chain opens two stop-on-death paths.
pub open spec fn rule_applied(post: Seq<TableauNode<Node>>, leaf: int, rv: RuleView<Node>) -> bool {
    &&& 0 <= leaf < post.len()
    &&& match rv {
        RuleView::Terminal => post[leaf].children@.len() == 0,
        RuleView::Single(x) => post[leaf].children@.len() == 1 && chain_realized(
            post,
            post[leaf].children@[0].index as int,
            seq![x],
        ),
        RuleView::Split(a, b) => post[leaf].children@.len() == 2 && chain_realized(
            post,
            post[leaf].children@[0].index as int,
            seq![a],
        ) && chain_realized(post, post[leaf].children@[1].index as int, seq![b]),
        RuleView::Chain(xs) => if xs.len() == 0 {
            post[leaf].children@.len() == 0
        } else {
            post[leaf].children@.len() == 1 && chain_realized(
                post,
                post[leaf].children@[0].index as int,
                xs,
            )
        },
        RuleView::SplitAndChain(a1, a2, b1, b2) => post[leaf].children@.len() == 2
            && chain_realized(post, post[leaf].children@[0].index as int, seq![a1, a2])
            && chain_realized(post, post[leaf].children@[1].index as int, seq![b1, b2]),
    }
}

/// An exact path survives any step that keeps the values and children of the
/// nodes at or above `lo`.
pub proof fn lemma_chain_exact_congruence(
    a: Seq<TableauNode<Node>>,
    b: Seq<TableauNode<Node>>,
    head: int,
    xs: Seq<Node>,
    lo: int,
)
    requires
        chain_exact(a, head, xs),
        lo <= head,
        a.len() <= b.len(),
        forall|i: int|
            lo <= i < a.len() ==> (#[trigger] b[i]).value == a[i].value && b[i].children@
                == a[i].children@,
    ensures
        chain_exact(b, head, xs),
    decreases xs.len(),
{
    if xs.len() > 1 {
        lemma_chain_exact_congruence(a, b, a[head].children@[0].index as int, xs.skip(1), lo);
    }
}

/// Builds an exact path from the linked, consecutive shape the engine lays
/// the attached nodes out in.
pub proof fn lemma_chain_exact_build(
    post: Seq<TableauNode<Node>>,
    first: int,
    vals: Seq<Node>,
    j: int,
)
    requires
        post.len() <= usize::MAX as int,
        0 <= first,
        first + vals.len() <= post.len(),
        0 <= j < vals.len(),
        forall|i: int|
            first <= i < first + vals.len() ==> (#[trigger] post[i]).value == vals[i - first],
        forall|i: int|
            first <= i < first + vals.len() - 1 ==> (#[trigger] post[i]).children@ == seq![
                NodeId { index: (i + 1) as usize },
            ],
        post[first + vals.len() - 1].children@.len() == 0,
    ensures
        chain_exact(post, first + j, vals.skip(j)),
    decreases vals.len() - j,
{
    let head = first + j;
    assert(post[head].value == vals[j]);
    assert(vals.skip(j)[0] == vals[j]);
    if j == vals.len() - 1 {
        assert(vals.skip(j).len() == 1);
    } else {
        lemma_chain_exact_build(post, first, vals, j + 1);
        assert(post[head].children@ == seq![NodeId { index: (head + 1) as usize }]);
        assert(post[head].children@[0].index == head + 1);
        assert(vals.skip(j).skip(1) =~= vals.skip(j + 1));
    }
}

/// A stop-on-death attachment survives any step that keeps the fields of
/// the nodes at or above `bound`.
pub proof fn lemma_chain_realized_stable(
    a: Seq<TableauNode<Node>>,
    b: Seq<TableauNode<Node>>,
    head: int,
    xs: Seq<Node>,
    bound: int,
)
    requires
        chain_realized(a, head, xs),
        a.len() <= b.len(),
        bound <= head,
        forall|i: int|
            bound <= i < a.len() ==> (#[trigger] b[i]).value == a[i].value && b[i].children@
                == a[i].children@ && b[i].spec_dead() == a[i].spec_dead(),
    ensures
        chain_realized(b, head, xs),
{
    let k = choose|k: int|
        1 <= k <= xs.len() && #[trigger] chain_exact(a, head, xs.take(k)) && (k < xs.len()
            ==> a[head].spec_dead());
    assert(chain_exact(a, head, xs.take(k)));
    lemma_chain_exact_congruence(a, b, head, xs.take(k), bound);
    assert(k < xs.len() ==> b[head].spec_dead());
    assert(chain_realized(b, head, xs));
}

/// The chain-values sequence has one entry per chain node.
pub proof fn lemma_chain_values_rev_len(nodes: Seq<TableauNode<Node>>, first: int, last: int)
    ensures
        spec_chain_values_rev(nodes, first, last).len() == if last < first {
            0int
        } else {
            last - first + 1
        },
    decreases last - first + 1,
{
    if last >= first {
        lemma_chain_values_rev_len(nodes, first, last - 1);
    }
}

/// The chain-values sequence lists the chain's values from its last node
/// backward.
pub proof fn lemma_chain_values_rev_index(
    nodes: Seq<TableauNode<Node>>,
    first: int,
    last: int,
    i: int,
)
    requires
        first <= last,
        0 <= i <= last - first,
    ensures
        spec_chain_values_rev(nodes, first, last)[i] == nodes[last - i].value,
    decreases last - first,
{
    lemma_chain_values_rev_len(nodes, first, last);
    if i > 0 {
        lemma_chain_values_rev_index(nodes, first, last - 1, i - 1);
    }
}

impl PartialTableau {
    /// Attaches `xs` as one linear path under `leaf`. The path is cut short
    /// at the first node whose branch closes; the attached prefix is then
    /// dead on arrival, every node of it having lost its only continuation.
    /// The leaf itself is not settled here: its live-child count is recounted
    /// by `resolve_leaf` once every branch of the rule is attached. Returns
    /// whether the attached path is alive.
    #[verifier::spinoff_prover]
    fn grow_chain(&mut self, leaf: NodeId, xs: Vec<Node>, leaf_branch: &Vec<Node>) -> (root_live:
        bool)
        requires
            wf_except_leaf(*old(self), leaf.index as int),
            xs@.len() > 0,
            all_worlds_lt(xs@, old(self).nodes@.len() as int + 1),
            leaf_branch@ == spec_branch(old(self).nodes@, leaf.index as int),
        ensures
            wf_except_leaf(*final(self), leaf.index as int),
            nodes_extend(old(self).nodes@, final(self).nodes@),
            final(self).nodes@.len() > old(self).nodes@.len(),
            final(self).logic == old(self).logic,
            final(self).root == old(self).root,
            final(self).nodes@[leaf.index as int].children@ == old(self).nodes@[leaf.index as int].children@.push(
                NodeId { index: old(self).nodes@.len() as usize },
            ),
            forall|i: int|
                0 <= i < old(self).nodes@.len() && i != leaf.index ==> final(self).nodes@[i] == old(
                    self,
                ).nodes@[i],
            root_live == !final(self).nodes@[old(self).nodes@.len() as int].spec_dead(),
            final(self).nodes@.last().children@.len() == 0,
            forall|i: int|
                old(self).nodes@.len() <= i < final(self).nodes@.len() - 1 ==> (
                #[trigger] final(self).nodes@[i]).children@.len() > 0,
            final(self).nodes@.last().spec_dead() <==> crate::logic::spec_branch_contradiction(
                spec_branch(final(self).nodes@, final(self).nodes@.len() - 1),
                crate::logic::spec_logic_same_world(old(self).logic),
            ),
            chain_realized(final(self).nodes@, old(self).nodes@.len() as int, xs@),
            final(self).uninferred_nodes@ == old(self).uninferred_nodes@ + queue_entries(
                final(self).nodes@,
                old(self).logic,
                old(self).nodes@.len() as int,
                final(self).nodes@.len() as int,
            ),
    {
        let ghost orig = self.nodes@;
        let ghost q0 = self.uninferred_nodes@;
        let ghost sw = crate::logic::spec_logic_same_world(self.logic);
        // Decide how much of the chain attaches and whether it closes: each
        // prospective node is tested against its own branch, which is the
        // attached prefix so far in front of the leaf's branch.
        let mut prefix_branch = clone_nodes(leaf_branch);
        let mut vals: Vec<Node> = Vec::new();
        let mut died = false;
        let mut k: usize = 0;
        while k < xs.len() && !died
            invariant
                *self == *old(self),
                sw == crate::logic::spec_logic_same_world(self.logic),
                k <= xs@.len(),
                vals@ == xs@.take(k as int),
                died ==> k > 0,
                prefix_branch@.len() == k + leaf_branch@.len(),
                forall|i: int| 0 <= i < k ==> prefix_branch@[i] == vals@[k - 1 - i],
                forall|i: int|
                    k <= i < prefix_branch@.len() ==> prefix_branch@[i] == leaf_branch@[i - k],
                k > 0 ==> died == crate::logic::spec_branch_contradiction(prefix_branch@, sw),
            decreases xs@.len() - k,
        {
            let v = xs[k].clone();
            prefix_branch.insert(0, v);
            died = self.logic.has_contradiction(&prefix_branch);
            vals.push(xs[k].clone());
            proof {
                assert(vals@ =~= xs@.take(k + 1));
            }
            k = k + 1;
        }
        let ghost final_prefix = prefix_branch@;
        let ghost chain_died = died;
        let n = vals.len();
        proof {
            assert(n >= 1);
            assert(all_worlds_lt(vals@, orig.len() as int + 1)) by {
                assert forall|i: int| 0 <= i < vals@.len() implies node_worlds_lt(
                    #[trigger] vals@[i],
                    orig.len() as int + 1,
                ) by {
                    assert(vals@[i] == xs@[i]);
                }
            }
        }
        // Push the attached prefix, dead on arrival if the chain closed.
        let first = self.nodes.len();
        let ghost first_i = first as int;
        let ghost allvals = vals@;
        proof {
            assert(self.uninferred_nodes@ =~= q0 + queue_entries(
                self.nodes@,
                old(self).logic,
                first_i,
                first_i,
            ));
        }
        let mut rest = vals;
        let mut j: usize = 0;
        let mut prev_id = leaf;
        while j < n
            invariant
                j <= n,
                n == allvals.len(),
                rest@ == allvals.skip(j as int),
                first_i == orig.len(),
                leaf.index < first_i,
                self.nodes@.len() == first_i + j,
                self.logic == old(self).logic,
                self.root == old(self).root,
                all_worlds_lt(allvals, first_i + 1),
                forall|i: int| 0 <= i < first_i ==> self.nodes@[i] == orig[i],
                forall|i: int|
                    first_i <= i < self.nodes@.len() ==> {
                        let nd = #[trigger] self.nodes@[i];
                        &&& (i == first_i ==> nd.parent == Some(leaf))
                        &&& (i > first_i ==> nd.parent == Some(NodeId { index: (i - 1) as usize }))
                        &&& nd.children@.len() == 0
                        &&& nd.live_children == 0
                        &&& nd.spec_dead() == died
                        &&& nd.value == allvals[i - first_i]
                    },
                prev_id == (if j == 0 {
                    leaf
                } else {
                    NodeId { index: (first_i + j - 1) as usize }
                }),
                forall|i: int| 0 <= i < self.nodes@.len() ==> node_struct_ok(self.nodes@, i),
                forall|i: int| 0 <= i < first_i ==> node_linked(self.nodes@, i),
                forall|i: int|
                    0 <= i < self.nodes@.len() && i != leaf.index ==> node_counts_ok(
                        self.nodes@,
                        i,
                    ),
                self.nodes@[leaf.index as int].live_children == 0,
                !self.nodes@[leaf.index as int].spec_dead(),
                worlds_ok(self.nodes@),
                self.queue_wf(),
                self.uninferred_nodes@ == q0 + queue_entries(
                    self.nodes@,
                    old(self).logic,
                    first_i,
                    self.nodes@.len() as int,
                ),
            decreases n - j,
        {
            let ghost prev_s = self.nodes@;
            let ghost prev_q = self.uninferred_nodes@;
            let value = rest.remove(0);
            let priority = self.logic.priority(&value);
            let death: Option<()> = if died {
                Some(())
            } else {
                None
            };
            let idx = self.nodes.len();
            self.nodes.push(
                TableauNode {
                    value,
                    parent: Some(prev_id),
                    children: Vec::new(),
                    live_children: 0,
                    death_reason: death,
                },
            );
            self.uninferred_nodes.push(NodeIdPriority { node_id: NodeId { index: idx }, priority });
            prev_id = NodeId { index: idx };
            j = j + 1;
            proof {
                let cur_s = self.nodes@;
                assert(cur_s == prev_s.push(cur_s.last()));
                assert(forall|i: int| 0 <= i < prev_s.len() ==> cur_s[i] == prev_s[i]);
                assert forall|i: int| 0 <= i < cur_s.len() implies node_struct_ok(cur_s, i) by {
                    if i < prev_s.len() {
                        assert(node_struct_ok(prev_s, i));
                    }
                }
                assert forall|i: int| 0 <= i < first_i implies node_linked(cur_s, i) by {
                    assert(node_linked(prev_s, i));
                    assert(node_struct_ok(prev_s, i));
                    match prev_s[i].parent {
                        Some(q) => {
                            assert(prev_s[q.index as int].children@.contains(
                                NodeId { index: i as usize },
                            ));
                        },
                        None => {},
                    }
                }
                assert forall|i: int|
                    0 <= i < cur_s.len() && i != leaf.index implies node_counts_ok(cur_s, i) by {
                    if i < prev_s.len() {
                        assert(node_counts_ok(prev_s, i));
                        assert(node_struct_ok(prev_s, i));
                        lemma_counts_ok_preserved(prev_s, cur_s, i);
                    } else {
                        assert(cur_s[i].children@.len() == 0);
                    }
                }
                assert forall|i: int| 0 <= i < cur_s.len() implies node_worlds_lt(
                    (#[trigger] cur_s[i]).value,
                    cur_s.len() as int,
                ) by {
                    if i < prev_s.len() {
                        assert(node_worlds_lt(prev_s[i].value, prev_s.len() as int));
                        match cur_s[i].value {
                            Node::Expr { .. } => {},
                            Node::Relation { .. } => {},
                        }
                    } else {
                        assert(cur_s[i].value == allvals[i - first_i]);
                        assert(node_worlds_lt(allvals[i - first_i], first_i + 1));
                        match cur_s[i].value {
                            Node::Expr { .. } => {},
                            Node::Relation { .. } => {},
                        }
                    }
                }
                lemma_queue_entries_congruence(
                    prev_s,
                    cur_s,
                    old(self).logic,
                    first_i,
                    prev_s.len() as int,
                );
                assert(queue_entries(cur_s, old(self).logic, first_i, cur_s.len() as int)
                    == queue_entries(cur_s, old(self).logic, first_i, cur_s.len() - 1).push(
                    queue_entry(cur_s, old(self).logic, cur_s.len() - 1),
                ));
                assert(queue_entry(cur_s, old(self).logic, cur_s.len() - 1) == (NodeIdPriority {
                    node_id: NodeId { index: idx },
                    priority,
                }));
                assert(self.uninferred_nodes@ =~= q0 + queue_entries(
                    cur_s,
                    old(self).logic,
                    first_i,
                    cur_s.len() as int,
                ));
            }
        }
        // Link the attached prefix into a path.
        let total_len = self.nodes.len();
        let ghost after_push = self.nodes@;
        let mut j2: usize = 0;
        while j2 + 1 < n
            invariant
                j2 < n,
                n == allvals.len(),
                n >= 1,
                first_i == orig.len(),
                leaf.index < first_i,
                first == first_i,
                total_len == first_i + n,
                self.nodes@.len() == first_i + n,
                self.logic == old(self).logic,
                self.root == old(self).root,
                forall|i: int| 0 <= i < first_i ==> self.nodes@[i] == orig[i],
                forall|i: int|
                    first_i <= i < self.nodes@.len() ==> {
                        let nd = #[trigger] self.nodes@[i];
                        &&& (i == first_i ==> nd.parent == Some(leaf))
                        &&& (i > first_i ==> nd.parent == Some(NodeId { index: (i - 1) as usize }))
                        &&& nd.spec_dead() == died
                        &&& nd.value == allvals[i - first_i]
                    },
                forall|i: int|
                    first_i <= i < first_i + j2 ==> (#[trigger] self.nodes@[i]).children@ =~= seq![
                        NodeId { index: (i + 1) as usize },
                    ] && self.nodes@[i].live_children == (if died {
                        0int
                    } else {
                        1int
                    }),
                forall|i: int|
                    first_i + j2 <= i < self.nodes@.len() ==> (
                    #[trigger] self.nodes@[i]).children@.len() == 0 && self.nodes@[i].live_children
                        == 0,
                forall|i: int| 0 <= i < self.nodes@.len() ==> node_struct_ok(self.nodes@, i),
                forall|i: int| 0 <= i < first_i ==> node_linked(self.nodes@, i),
                forall|i: int|
                    first_i < i <= first_i + j2 ==> node_linked(self.nodes@, i),
                forall|i: int|
                    0 <= i < self.nodes@.len() && i != leaf.index ==> node_counts_ok(
                        self.nodes@,
                        i,
                    ),
                self.nodes@[leaf.index as int].live_children == 0,
                !self.nodes@[leaf.index as int].spec_dead(),
                worlds_ok(self.nodes@),
                self.queue_wf(),
                self.uninferred_nodes@ == q0 + queue_entries(
                    self.nodes@,
                    old(self).logic,
                    first_i,
                    first_i + n,
                ),
            decreases n - j2,
        {
            let ghost prev_s = self.nodes@;
            let idx = first + j2;
            let next_id = NodeId { index: idx + 1 };
            self.nodes[idx].children.push(next_id);
            if !died {
                self.nodes[idx].live_children = 1;
            }
            j2 = j2 + 1;
            proof {
                let cur_s = self.nodes@;
                let ii = idx as int;
                assert(cur_s == prev_s.update(ii, cur_s[ii]));
                assert(cur_s[ii].value == prev_s[ii].value);
                lemma_queue_entries_congruence(prev_s, cur_s, old(self).logic, first_i, first_i
                    + n);
                assert(forall|i: int| 0 <= i < cur_s.len() && i != ii ==> cur_s[i] == prev_s[i]);
                assert(cur_s[ii].children@ =~= seq![next_id]);
                assert forall|i: int| 0 <= i < cur_s.len() implies node_struct_ok(cur_s, i) by {
                    assert(node_struct_ok(prev_s, i));
                    if i == ii {
                        assert(cur_s[ii].children@[0] == next_id);
                        assert(cur_s[next_id.index as int].parent == Some(
                            NodeId { index: idx },
                        ));
                    }
                }
                assert forall|i: int|
                    (0 <= i < first_i || first_i < i <= first_i + j2) implies node_linked(
                    cur_s,
                    i,
                ) by {
                    if i == ii + 1 {
                        assert(cur_s[ii].children@[0] == next_id);
                        assert(cur_s[ii].children@.contains(NodeId { index: i as usize }));
                    } else {
                        assert(node_linked(prev_s, i));
                        assert(node_struct_ok(prev_s, i));
                        match prev_s[i].parent {
                            Some(q) => {
                                let qi = q.index as int;
                                assert(cur_s[i].parent == prev_s[i].parent);
                                assert(qi != ii ==> cur_s[qi].children@ == prev_s[qi].children@);
                                if qi == ii {
                                    assert(prev_s[qi].children@.len() == 0);
                                    assert(false);
                                }
                                assert(prev_s[qi].children@.contains(NodeId { index: i as usize }));
                            },
                            None => {},
                        }
                    }
                }
                assert forall|i: int|
                    0 <= i < cur_s.len() && i != leaf.index implies node_counts_ok(cur_s, i) by {
                    if i == ii {
                        let ch = cur_s[ii].children@;
                        assert(ch.drop_last() =~= Seq::<NodeId>::empty());
                        assert(count_live(cur_s, Seq::<NodeId>::empty()) == 0);
                        assert(ch.last() == next_id);
                        assert(next_id.index < cur_s.len());
                        assert(cur_s[next_id.index as int].spec_dead() == died);
                        assert(count_live(cur_s, ch) == (if died {
                            0int
                        } else {
                            1int
                        }));
                    } else {
                        assert(node_counts_ok(prev_s, i));
                        assert(node_struct_ok(prev_s, i));
                        lemma_counts_ok_preserved(prev_s, cur_s, i);
                    }
                }
            }
        }
        // Hand the path's first node to the leaf; the leaf's own count is
        // settled by `resolve_leaf`.
        let ghost before_bind = self.nodes@;
        self.nodes[leaf.index].children.push(NodeId { index: first });
        proof {
            let cur_s = self.nodes@;
            let li = leaf.index as int;
            assert(cur_s == before_bind.update(li, cur_s[li]));
            assert(forall|i: int| 0 <= i < cur_s.len() && i != li ==> cur_s[i] == before_bind[i]);
            assert(cur_s[li].children@ == before_bind[li].children@.push(NodeId { index: first }));
            assert(before_bind[li].children@ == orig[li].children@);
            assert forall|i: int| 0 <= i < cur_s.len() implies node_struct_ok(cur_s, i) by {
                assert(node_struct_ok(before_bind, i));
                if i == li {
                    let ch = cur_s[li].children@;
                    let ch_old = before_bind[li].children@;
                    assert(node_struct_ok(orig, li));
                    assert(forall|k2: int| 0 <= k2 < ch_old.len() ==> ch[k2] == ch_old[k2]);
                    assert forall|k2: int| 0 <= k2 < ch.len() implies i < (
                    #[trigger] ch[k2]).index < cur_s.len() && cur_s[ch[k2].index as int].parent
                        == Some(NodeId { index: leaf.index }) by {
                        if k2 < ch_old.len() {
                            assert(ch[k2] == ch_old[k2]);
                            assert(i < ch_old[k2].index < before_bind.len());
                            assert(cur_s[ch_old[k2].index as int] == before_bind[ch_old[k2].index as int]);
                        } else {
                            assert(ch[k2] == (NodeId { index: first }));
                            assert(cur_s[first as int].parent == Some(leaf));
                        }
                    }
                    assert forall|k1: int, k2: int| 0 <= k1 < k2 < ch.len() implies ch[k1]
                        != ch[k2] by {
                        if k2 < ch_old.len() {
                            assert(ch_old[k1] != ch_old[k2]);
                        } else {
                            assert(ch[k1] == ch_old[k1]);
                            assert(node_struct_ok(orig, li));
                            assert(orig[li].children@[k1].index < orig.len());
                        }
                    }
                }
            }
            assert forall|i: int| 0 <= i < cur_s.len() implies node_linked(cur_s, i) by {
                if i == first as int {
                    assert(cur_s[li].children@.last() == (NodeId { index: first }));
                    assert(cur_s[li].children@.contains(NodeId { index: first }));
                } else if first_i < i < cur_s.len() {
                    assert(node_linked(before_bind, i));
                    assert(cur_s[i].parent == before_bind[i].parent);
                    assert(cur_s[i].parent == Some(NodeId { index: (i - 1) as usize }));
                    assert(i - 1 != li);
                    assert(cur_s[i - 1].children@ == before_bind[i - 1].children@);
                    assert(before_bind[i - 1].children@.contains(NodeId { index: i as usize }));
                } else if 0 <= i < first_i {
                    assert(node_linked(before_bind, i));
                    assert(node_struct_ok(before_bind, i));
                    match before_bind[i].parent {
                        Some(q) => {
                            let qi = q.index as int;
                            assert(cur_s[i].parent == before_bind[i].parent);
                            if qi == li {
                                let xid = NodeId { index: i as usize };
                                let k2 = choose|k2: int|
                                    0 <= k2 < before_bind[qi].children@.len()
                                        && #[trigger] before_bind[qi].children@[k2] == xid;
                                assert(cur_s[qi].children@[k2] == xid);
                                assert(cur_s[qi].children@.contains(xid));
                            } else {
                                assert(cur_s[qi].children@ == before_bind[qi].children@);
                                assert(before_bind[qi].children@.contains(
                                    NodeId { index: i as usize },
                                ));
                            }
                        },
                        None => {},
                    }
                }
            }
            assert forall|i: int|
                0 <= i < cur_s.len() && i != li implies node_counts_ok(cur_s, i) by {
                assert(node_counts_ok(before_bind, i));
                assert(node_struct_ok(before_bind, i));
                lemma_counts_ok_preserved(before_bind, cur_s, i);
            }
            assert(nodes_extend(orig, cur_s)) by {
                assert forall|i: int| 0 <= i < orig.len() implies {
                    let x = #[trigger] orig[i];
                    let y = cur_s[i];
                    &&& y.value == x.value
                    &&& y.parent == x.parent
                    &&& x.children@.len() <= y.children@.len()
                    &&& y.children@.take(x.children@.len() as int) == x.children@
                    &&& (x.spec_dead() ==> y.spec_dead())
                } by {
                    if i == li {
                        assert(cur_s[li].children@.take(orig[li].children@.len() as int)
                            =~= orig[li].children@);
                    } else {
                        assert(cur_s[i] == orig[i]);
                        assert(cur_s[i].children@.take(orig[i].children@.len() as int)
                            =~= orig[i].children@);
                    }
                }
            }
            assert(cur_s[first as int].spec_dead() == died);
            // the new path's last node is the new leaf; its branch is the
            // attached values in front of the leaf's branch, and its death
            // marker records exactly whether that branch closes
            let last = cur_s.len() - 1;
            assert(cur_s.last().children@.len() == 0);
            assert forall|i2: int| orig.len() <= i2 < last implies (
            #[trigger] cur_s[i2]).children@.len() > 0 by {}
            assert(cur_s[first_i].parent == Some(leaf));
            lemma_chain_branch(cur_s, leaf.index as int, first_i, last);
            assert forall|i2: int| 0 <= i2 < orig.len() implies ((#[trigger] orig[i2]).parent
                matches Some(p2) ==> p2.index < i2) by {
                assert(node_struct_ok(orig, i2));
            }
            lemma_branch_stable(orig, cur_s, leaf.index as int);
            assert(spec_branch(cur_s, leaf.index as int) == leaf_branch@);
            let rev = spec_chain_values_rev(cur_s, first_i, last);
            lemma_chain_values_rev_len(cur_s, first_i, last);
            assert(rev.len() == n);
            assert forall|i2: int| 0 <= i2 < rev.len() implies rev[i2] == allvals[n - 1 - i2] by {
                lemma_chain_values_rev_index(cur_s, first_i, last, i2);
                assert(cur_s[last - i2].value == allvals[last - i2 - first_i]);
            }
            assert(spec_branch(cur_s, last) =~= final_prefix) by {
                assert(spec_branch(cur_s, last) == rev + leaf_branch@);
                assert(final_prefix.len() == n + leaf_branch@.len());
                assert(forall|i2: int| 0 <= i2 < n ==> final_prefix[i2] == allvals[n - 1 - i2]);
                assert(forall|i2: int|
                    n <= i2 < final_prefix.len() ==> final_prefix[i2] == leaf_branch@[i2 - n]);
            }
            assert(cur_s.last().spec_dead() == chain_died);
            assert(chain_died == crate::logic::spec_branch_contradiction(final_prefix, sw));
            // the queue gained exactly one entry per attached node, in order
            assert(cur_s[li].value == before_bind[li].value);
            lemma_queue_entries_congruence(before_bind, cur_s, old(self).logic, first_i, first_i
                + n);
            assert(self.uninferred_nodes@ == q0 + queue_entries(
                cur_s,
                old(self).logic,
                first_i,
                cur_s.len() as int,
            ));
            // the attached nodes stand as one exact path under the leaf,
            // realizing the requested chain up to its closing point
            assert(cur_s.len() <= usize::MAX as int) by {
                assert(cur_s.len() == total_len as int);
            }
            assert forall|i2: int| first_i <= i2 < first_i + n implies (
            #[trigger] cur_s[i2]).value == allvals[i2 - first_i] by {}
            assert forall|i2: int| first_i <= i2 < first_i + n - 1 implies (
            #[trigger] cur_s[i2]).children@ == seq![NodeId { index: (i2 + 1) as usize }] by {
                assert(cur_s[i2].children@ =~= seq![NodeId { index: (i2 + 1) as usize }]);
            }
            assert(cur_s[first_i + n - 1].children@.len() == 0);
            lemma_chain_exact_build(cur_s, first_i, allvals, 0);
            assert(allvals.skip(0) =~= allvals);
            assert(chain_exact(cur_s, first_i, allvals));
            assert(allvals == xs@.take(n as int));
            assert(chain_exact(cur_s, first_i, xs@.take(n as int)));
            assert((n as int) < xs@.len() ==> cur_s[first_i].spec_dead());
            assert(chain_realized(cur_s, first_i, xs@));
        }
        !died
    }
}

/// An arena extends itself.
pub proof fn lemma_extend_refl<V>(a: Seq<TableauNode<V>>)
    ensures
        nodes_extend(a, a),
{
    assert forall|i: int| 0 <= i < a.len() implies {
        let x = #[trigger] a[i];
        let y = a[i];
        &&& y.value == x.value
        &&& y.parent == x.parent
        &&& x.children@.len() <= y.children@.len()
        &&& y.children@.take(x.children@.len() as int) == x.children@
        &&& (x.spec_dead() ==> y.spec_dead())
    } by {
        assert(a[i].children@.take(a[i].children@.len() as int) =~= a[i].children@);
    }
}

/// An arena of the same shape whose only changes are new deaths extends the
/// old one.
pub proof fn lemma_extend_same_shape<V>(a: Seq<TableauNode<V>>, b: Seq<TableauNode<V>>)
    requires
        a.len() == b.len(),
        forall|i: int|
            0 <= i < a.len() ==> {
                let x = a[i];
                let y = #[trigger] b[i];
                y.value == x.value && y.parent == x.parent && y.children == x.children && (
                x.spec_dead() ==> y.spec_dead())
            },
    ensures
        nodes_extend(a, b),
{
    assert forall|i: int| 0 <= i < a.len() implies {
        let x = #[trigger] a[i];
        let y = b[i];
        &&& y.value == x.value
        &&& y.parent == x.parent
        &&& x.children@.len() <= y.children@.len()
        &&& y.children@.take(x.children@.len() as int) == x.children@
        &&& (x.spec_dead() ==> y.spec_dead())
    } by {
        assert(b[i].children@.take(a[i].children@.len() as int) =~= a[i].children@);
    }
}

/// What one expansion does, in full: the decomposition of `node`'s value is
/// replayed against every leaf that was live on entry, realized under each
/// per its shape; every new node that ends as a leaf is dead exactly when
/// its branch closes; every new node is queued once, in order, at its rule
/// priority; dead leaves are left alone; and the arena only grows.
pub open spec fn node_expanded(
    pre_nodes: Seq<TableauNode<Node>>,
    pre_queue: Seq<NodeIdPriority>,
    logic: Logic,
    post: PartialTableau,
    node: NodeId,
) -> bool {
    let leaves = spec_live_leaves_upto(pre_nodes, pre_nodes.len() as int);
    &&& post.wf()
    &&& post.logic == logic
    &&& nodes_extend(pre_nodes, post.nodes@)
    &&& node.index < pre_nodes.len()
    &&& post.uninferred_nodes@ == pre_queue + queue_entries(
        post.nodes@,
        logic,
        pre_nodes.len() as int,
        post.nodes@.len() as int,
    )
    &&& forall|j: int|
        0 <= j < leaves.len() ==> rule_applied(
            post.nodes@,
            (#[trigger] leaves[j]).index as int,
            spec_logic_infer(
                logic,
                pre_nodes[node.index as int].value,
                spec_branch(pre_nodes, leaves[j].index as int),
            ),
        )
    &&& forall|j: int|
        pre_nodes.len() <= j < post.nodes@.len() && (#[trigger] post.nodes@[j]).children@.len()
            == 0 ==> (post.nodes@[j].spec_dead()
            <==> crate::logic::spec_branch_contradiction(
            spec_branch(post.nodes@, j),
            crate::logic::spec_logic_same_world(logic),
        ))
    &&& forall|i: int|
        0 <= i < pre_nodes.len() && (#[trigger] pre_nodes[i]).children@.len() == 0
            && pre_nodes[i].spec_dead() ==> post.nodes@[i].children@.len() == 0
            && post.nodes@[i].spec_dead()
}

/// A realized rule application under a settled leaf survives any step that
/// keeps the leaf's children and the fields of every node at or above `lo`.
pub proof fn lemma_rule_applied_stable(
    a: Seq<TableauNode<Node>>,
    b: Seq<TableauNode<Node>>,
    l: int,
    rv: RuleView<Node>,
    lo: int,
)
    requires
        rule_applied(a, l, rv),
        a.len() <= b.len(),
        l < lo,
        b[l].children@ == a[l].children@,
        forall|k: int| 0 <= k < a[l].children@.len() ==> lo <= (#[trigger] a[l].children@[k]).index,
        forall|i: int|
            lo <= i < a.len() ==> (#[trigger] b[i]).value == a[i].value && b[i].children@
                == a[i].children@ && b[i].spec_dead() == a[i].spec_dead(),
    ensures
        rule_applied(b, l, rv),
{
    match rv {
        RuleView::Terminal => {},
        RuleView::Single(x) => {
            lemma_chain_realized_stable(a, b, a[l].children@[0].index as int, seq![x], lo);
        },
        RuleView::Split(x, y) => {
            lemma_chain_realized_stable(a, b, a[l].children@[0].index as int, seq![x], lo);
            lemma_chain_realized_stable(a, b, a[l].children@[1].index as int, seq![y], lo);
        },
        RuleView::Chain(xs) => {
            if xs.len() > 0 {
                lemma_chain_realized_stable(a, b, a[l].children@[0].index as int, xs, lo);
            }
        },
        RuleView::SplitAndChain(x1, x2, y1, y2) => {
            lemma_chain_realized_stable(a, b, a[l].children@[0].index as int, seq![x1, x2], lo);
            lemma_chain_realized_stable(a, b, a[l].children@[1].index as int, seq![y1, y2], lo);
        },
    }
}

/// Settling a leaf (recounting it and propagating its death) does not touch
/// any field of the nodes above `lo`, when the leaf sits below `lo`.
pub proof fn lemma_settle_preserves_new(
    mid: Seq<TableauNode<Node>>,
    fin: Seq<TableauNode<Node>>,
    lo: int,
    leaf: int,
)
    requires
        mid.len() == fin.len(),
        0 <= leaf < lo,
        forall|i: int| 0 <= i < mid.len() ==> (#[trigger] fin[i]).value == mid[i].value,
        forall|i: int| 0 <= i < mid.len() ==> (#[trigger] fin[i]).children == mid[i].children,
        forall|i: int|
            0 <= i < mid.len() && mid[i].spec_dead() ==> (#[trigger] fin[i]).spec_dead(),
        forall|i: int|
            0 <= i < mid.len() && !mid[i].spec_dead() && (#[trigger] fin[i]).spec_dead()
                ==> i <= leaf,
    ensures
        forall|i: int|
            lo <= i < mid.len() ==> (#[trigger] fin[i]).value == mid[i].value && fin[i].children@
                == mid[i].children@ && fin[i].spec_dead() == mid[i].spec_dead(),
{
    assert forall|i: int| lo <= i < mid.len() implies (#[trigger] fin[i]).value == mid[i].value
        && fin[i].children@ == mid[i].children@ && fin[i].spec_dead() == mid[i].spec_dead() by {
        assert(fin[i].children == mid[i].children);
        assert(fin[i].children@ == mid[i].children@);
        if !mid[i].spec_dead() && fin[i].spec_dead() {
            assert(i <= leaf);
            assert(false);
        }
    }
}

/// A new leaf's closure verdict survives a step that keeps its own fields
/// and only grows the arena around it.
pub proof fn lemma_leaf_iff_transfer(
    a: Seq<TableauNode<Node>>,
    b: Seq<TableauNode<Node>>,
    j: int,
    sw: bool,
)
    requires
        0 <= j < a.len() <= b.len(),
        parents_below(a),
        nodes_extend(a, b),
        b[j].children@ == a[j].children@,
        b[j].spec_dead() == a[j].spec_dead(),
        a[j].children@.len() == 0,
        a[j].spec_dead() <==> crate::logic::spec_branch_contradiction(spec_branch(a, j), sw),
    ensures
        b[j].spec_dead() <==> crate::logic::spec_branch_contradiction(spec_branch(b, j), sw),
{
    lemma_branch_stable(a, b, j);
}

/// After one chain is attached under a leaf and the leaf is settled, every
/// new childless node is the chain's end, dead exactly when its branch
/// closes.
pub proof fn lemma_new_leaf_iff_one_chain(
    orig: Seq<TableauNode<Node>>,
    mid: Seq<TableauNode<Node>>,
    fin: Seq<TableauNode<Node>>,
    leaf: int,
    sw: bool,
)
    requires
        orig.len() < mid.len(),
        fin.len() == mid.len(),
        mid.last().children@.len() == 0,
        forall|i: int|
            orig.len() <= i < mid.len() - 1 ==> (#[trigger] mid[i]).children@.len() > 0,
        mid.last().spec_dead() <==> crate::logic::spec_branch_contradiction(
            spec_branch(mid, mid.len() - 1),
            sw,
        ),
        forall|i: int|
            0 <= i < mid.len() ==> {
                let x = mid[i];
                let y = #[trigger] fin[i];
                y.value == x.value && y.parent == x.parent && y.children == x.children && (
                x.spec_dead() ==> y.spec_dead())
            },
        forall|i: int|
            0 <= i < mid.len() && !mid[i].spec_dead() && (#[trigger] fin[i]).spec_dead()
                ==> fin[i].children@.len() > 0,
        parents_below(fin),
    ensures
        forall|j: int|
            orig.len() <= j < fin.len() && (#[trigger] fin[j]).children@.len() == 0 ==> (
            fin[j].spec_dead() <==> crate::logic::spec_branch_contradiction(
                spec_branch(fin, j),
                sw,
            )),
{
    assert forall|i: int| 0 <= i < mid.len() implies ((#[trigger] mid[i]).parent matches Some(p)
        ==> p.index < i) by {
        assert(fin[i].parent == mid[i].parent);
    }
    lemma_extend_same_shape(mid, fin);
    assert forall|j: int|
        orig.len() <= j < fin.len() && (#[trigger] fin[j]).children@.len() == 0 implies (
    fin[j].spec_dead() <==> crate::logic::spec_branch_contradiction(
        spec_branch(fin, j),
        sw,
    )) by {
        assert(fin[j].children@ == mid[j].children@);
        assert(j == mid.len() - 1);
        assert(fin[j].spec_dead() == mid[j].spec_dead());
        lemma_leaf_iff_transfer(mid, fin, j, sw);
    }
}

/// After the two chains of a split are attached under a leaf and the leaf is
/// settled, every new childless node is one of the chains' ends, dead
/// exactly when its branch closes.
pub proof fn lemma_new_leaf_iff_two_chains(
    orig: Seq<TableauNode<Node>>,
    m1: Seq<TableauNode<Node>>,
    m2: Seq<TableauNode<Node>>,
    fin: Seq<TableauNode<Node>>,
    leaf: int,
    sw: bool,
)
    requires
        0 <= leaf < orig.len() < m1.len() < m2.len(),
        fin.len() == m2.len(),
        m1.last().children@.len() == 0,
        forall|i: int| orig.len() <= i < m1.len() - 1 ==> (#[trigger] m1[i]).children@.len() > 0,
        m1.last().spec_dead() <==> crate::logic::spec_branch_contradiction(
            spec_branch(m1, m1.len() - 1),
            sw,
        ),
        nodes_extend(m1, m2),
        forall|i: int| 0 <= i < m1.len() && i != leaf ==> #[trigger] m2[i] == m1[i],
        m2.last().children@.len() == 0,
        forall|i: int| m1.len() <= i < m2.len() - 1 ==> (#[trigger] m2[i]).children@.len() > 0,
        m2.last().spec_dead() <==> crate::logic::spec_branch_contradiction(
            spec_branch(m2, m2.len() - 1),
            sw,
        ),
        forall|i: int|
            0 <= i < m2.len() ==> {
                let x = m2[i];
                let y = #[trigger] fin[i];
                y.value == x.value && y.parent == x.parent && y.children == x.children && (
                x.spec_dead() ==> y.spec_dead())
            },
        forall|i: int|
            0 <= i < m2.len() && !m2[i].spec_dead() && (#[trigger] fin[i]).spec_dead()
                ==> fin[i].children@.len() > 0,
        parents_below(fin),
    ensures
        forall|j: int|
            orig.len() <= j < fin.len() && (#[trigger] fin[j]).children@.len() == 0 ==> (
            fin[j].spec_dead() <==> crate::logic::spec_branch_contradiction(
                spec_branch(fin, j),
                sw,
            )),
{
    assert forall|i: int| 0 <= i < m2.len() implies ((#[trigger] m2[i]).parent matches Some(p)
        ==> p.index < i) by {
        assert(fin[i].parent == m2[i].parent);
    }
    assert forall|i: int| 0 <= i < m1.len() implies ((#[trigger] m1[i]).parent matches Some(p)
        ==> p.index < i) by {
        assert(m2[i].parent == m1[i].parent);
    }
    lemma_extend_same_shape(m2, fin);
    assert forall|j: int|
        orig.len() <= j < fin.len() && (#[trigger] fin[j]).children@.len() == 0 implies (
    fin[j].spec_dead() <==> crate::logic::spec_branch_contradiction(
        spec_branch(fin, j),
        sw,
    )) by {
        assert(fin[j].children@ == m2[j].children@);
        if j < m1.len() {
            assert(m2[j] == m1[j]);
            assert(j == m1.len() - 1);
            lemma_leaf_iff_transfer(m1, m2, j, sw);
        } else {
            assert(j == m2.len() - 1);
        }
        assert(fin[j].spec_dead() == m2[j].spec_dead());
        lemma_leaf_iff_transfer(m2, fin, j, sw);
    }
}

impl PartialTableau {
    /// Replays the decomposition of `node_value` against one live leaf:
    /// asks the rule set what follows on the leaf's branch, attaches the
    /// result below the leaf per the rule's shape, closes every new node
    /// whose branch clashes, and settles the leaf and its ancestors.
    #[verifier::rlimit(100)]
    #[verifier::spinoff_prover]
    fn expand_leaf(&mut self, node_value: &Node, leaf: NodeId)
        requires
            old(self).wf(),
            is_live_leaf(old(self).nodes@, leaf.index as int),
            node_worlds_lt(*node_value, old(self).nodes@.len() as int),
        ensures
            final(self).wf(),
            nodes_extend(old(self).nodes@, final(self).nodes@),
            final(self).logic == old(self).logic,
            final(self).root == old(self).root,
            forall|i: int|
                0 <= i < old(self).nodes@.len() && i != leaf.index ==> (
                #[trigger] final(self).nodes@[i]).children@ == old(self).nodes@[i].children@,
            forall|i: int|
                0 <= i < old(self).nodes@.len() && i != leaf.index && old(self).nodes@[i].children@.len()
                    == 0 ==> (#[trigger] final(self).nodes@[i]).spec_dead() == old(self).nodes@[i].spec_dead(),
            forall|j: int|
                old(self).nodes@.len() <= j < final(self).nodes@.len() && (
                #[trigger] final(self).nodes@[j]).children@.len() == 0
                    ==> (final(self).nodes@[j].spec_dead()
                    <==> crate::logic::spec_branch_contradiction(
                    spec_branch(final(self).nodes@, j),
                    crate::logic::spec_logic_same_world(old(self).logic),
                )),
            rule_applied(
                final(self).nodes@,
                leaf.index as int,
                spec_logic_infer(
                    old(self).logic,
                    *node_value,
                    spec_branch(old(self).nodes@, leaf.index as int),
                ),
            ),
            final(self).uninferred_nodes@ == old(self).uninferred_nodes@ + queue_entries(
                final(self).nodes@,
                old(self).logic,
                old(self).nodes@.len() as int,
                final(self).nodes@.len() as int,
            ),
            forall|i: int|
                0 <= i < old(self).nodes@.len() && !old(self).nodes@[i].spec_dead() && (
                #[trigger] final(self).nodes@[i]).spec_dead()
                    ==> final(self).nodes@[i].children@.len() > 0 && i <= leaf.index,
            forall|k: int|
                0 <= k < final(self).nodes@[leaf.index as int].children@.len() ==> old(
                    self,
                ).nodes@.len() <= (
                #[trigger] final(self).nodes@[leaf.index as int].children@[k]).index,
    {
        let ghost orig = self.nodes@;
        let ghost q_in = self.uninferred_nodes@;
        let ghost sw = crate::logic::spec_logic_same_world(self.logic);
        let len0 = self.nodes.len();
        proof {
            assert forall|i: int| 0 <= i < orig.len() implies ((#[trigger] orig[i]).parent
                matches Some(p) ==> p.index < i) by {
                assert(node_struct_ok(orig, i));
            }
        }
        let branch = self.branch(leaf);
        proof {
            lemma_branch_worlds_lt(orig, leaf.index as int, orig.len() as int);
            assert forall|i: int| 0 <= i < branch@.len() implies node_worlds_lt(
                #[trigger] branch@[i],
                usize::MAX as int,
            ) by {
                assert(node_worlds_lt(branch@[i], orig.len() as int));
                match branch@[i] {
                    Node::Expr { .. } => {},
                    Node::Relation { .. } => {},
                }
            }
        }
        let rule = self.logic.infer(node_value, &branch);
        let ghost rv = rule@;
        proof {
            assert(rv == spec_logic_infer(self.logic, *node_value, branch@));
            assert(all_worlds_lt(branch@, len0 as int) && node_worlds_lt(
                *node_value,
                len0 as int,
            ) && len0 as int <= usize::MAX as int);
            assert(rule_worlds_lt(rule@, len0 as int + 1));
            assert(count_live(orig, Seq::<NodeId>::empty()) == 0);
            assert(orig[leaf.index as int].live_children == 0) by {
                assert(node_counts_ok(orig, leaf.index as int));
            }
            assert(wf_except_leaf(*self, leaf.index as int));
        }
        match rule {
            InferenceRule::Terminal => {
                proof {
                    lemma_extend_refl(orig);
                    assert(self.uninferred_nodes@ =~= q_in + queue_entries(
                        self.nodes@,
                        old(self).logic,
                        len0 as int,
                        len0 as int,
                    ));
                    assert(rv is Terminal);
                    assert(self.nodes@[leaf.index as int].children@.len() == 0);
                    assert(rule_applied(self.nodes@, leaf.index as int, rv));
                }
            },
            InferenceRule::Single(x) => {
                let mut v: Vec<Node> = Vec::new();
                v.push(x);
                proof {
                    assert(v@ =~= seq![x]);
                    assert forall|i: int| 0 <= i < v@.len() implies node_worlds_lt(
                        #[trigger] v@[i],
                        len0 as int + 1,
                    ) by {}
                }
                self.grow_chain(leaf, v, &branch);
                let ghost mid = self.nodes@;
                self.resolve_leaf(leaf);
                proof {
                    lemma_extend_same_shape(mid, self.nodes@);
                    lemma_extend_trans(orig, mid, self.nodes@);
                    assert forall|i2: int| 0 <= i2 < self.nodes@.len() implies ((
                    #[trigger] self.nodes@[i2]).parent matches Some(p2) ==> p2.index < i2) by {
                        assert(node_struct_ok(self.nodes@, i2));
                    }
                    lemma_new_leaf_iff_one_chain(orig, mid, self.nodes@, leaf.index as int, sw);
                    let fin = self.nodes@;
                    assert forall|i2: int| 0 <= i2 < mid.len() implies (#[trigger] fin[i2]).value
                        == mid[i2].value by {}
                    assert forall|i2: int| 0 <= i2 < mid.len() implies (
                    #[trigger] fin[i2]).children == mid[i2].children by {}
                    assert forall|i2: int|
                        0 <= i2 < mid.len() && mid[i2].spec_dead() implies (
                    #[trigger] fin[i2]).spec_dead() by {}
                    assert forall|i2: int|
                        0 <= i2 < mid.len() && !mid[i2].spec_dead() && (
                    #[trigger] fin[i2]).spec_dead() implies i2 <= leaf.index as int by {}
                    lemma_settle_preserves_new(mid, fin, len0 as int, leaf.index as int);
                    assert(chain_realized(mid, len0 as int, v@));
                    lemma_chain_realized_stable(mid, fin, len0 as int, v@, len0 as int);
                    assert(v@ == seq![x]);
                    assert(chain_realized(fin, len0 as int, seq![x]));
                    assert(orig[leaf.index as int].children@.len() == 0);
                    assert(mid[leaf.index as int].children@ == orig[leaf.index as int].children@.push(
                        NodeId { index: len0 },
                    ));
                    assert(fin[leaf.index as int].children@ == mid[leaf.index as int].children@);
                    assert(fin[leaf.index as int].children@.len() == 1);
                    assert(fin[leaf.index as int].children@[0] == (NodeId { index: len0 }));
                    assert(rv == RuleView::Single(x));
                    assert(rule_applied(fin, leaf.index as int, rv));
                    lemma_queue_entries_congruence(
                        mid,
                        fin,
                        old(self).logic,
                        len0 as int,
                        mid.len() as int,
                    );
                    assert(self.uninferred_nodes@ == q_in + queue_entries(
                        fin,
                        old(self).logic,
                        len0 as int,
                        fin.len() as int,
                    ));
                    assert forall|i2: int|
                        0 <= i2 < orig.len() && !orig[i2].spec_dead() && (
                        #[trigger] fin[i2]).spec_dead() implies fin[i2].children@.len() > 0 && i2
                        <= leaf.index by {
                        if i2 != leaf.index {
                            assert(mid[i2] == orig[i2]);
                        }
                    }
                }
            },
            InferenceRule::Split(a, b) => {
                let mut v1: Vec<Node> = Vec::new();
                v1.push(a);
                let mut v2: Vec<Node> = Vec::new();
                v2.push(b);
                proof {
                    assert(v1@ =~= seq![a]);
                    assert(v2@ =~= seq![b]);
                }
                self.grow_chain(leaf, v1, &branch);
                let m1 = self.nodes.len();
                let ghost mid1 = self.nodes@;
                proof {
                    lemma_branch_stable(orig, mid1, leaf.index as int);
                    assert forall|i: int| 0 <= i < v2@.len() implies node_worlds_lt(
                        #[trigger] v2@[i],
                        mid1.len() as int + 1,
                    ) by {
                        assert(node_worlds_lt(b, len0 as int + 1));
                        match v2@[i] {
                            Node::Expr { .. } => {},
                            Node::Relation { .. } => {},
                        }
                    }
                }
                self.grow_chain(leaf, v2, &branch);
                let ghost mid2 = self.nodes@;
                self.resolve_leaf(leaf);
                proof {
                    lemma_extend_trans(orig, mid1, mid2);
                    lemma_extend_same_shape(mid2, self.nodes@);
                    lemma_extend_trans(orig, mid2, self.nodes@);
                    assert forall|i2: int| 0 <= i2 < self.nodes@.len() implies ((
                    #[trigger] self.nodes@[i2]).parent matches Some(p2) ==> p2.index < i2) by {
                        assert(node_struct_ok(self.nodes@, i2));
                    }
                    lemma_new_leaf_iff_two_chains(
                        orig,
                        mid1,
                        mid2,
                        self.nodes@,
                        leaf.index as int,
                        sw,
                    );
                    let fin = self.nodes@;
                    // the second attachment left the first chain untouched
                    assert forall|i2: int| len0 as int <= i2 < mid1.len() implies (
                    #[trigger] mid2[i2]).value == mid1[i2].value && mid2[i2].children@
                        == mid1[i2].children@ && mid2[i2].spec_dead() == mid1[i2].spec_dead() by {
                        assert(mid2[i2] == mid1[i2]);
                    }
                    assert(chain_realized(mid1, len0 as int, v1@));
                    lemma_chain_realized_stable(mid1, mid2, len0 as int, v1@, len0 as int);
                    assert(chain_realized(mid2, mid1.len() as int, v2@));
                    // settling the leaf keeps every new node's fields
                    assert forall|i2: int| 0 <= i2 < mid2.len() implies (#[trigger] fin[i2]).value
                        == mid2[i2].value by {}
                    assert forall|i2: int| 0 <= i2 < mid2.len() implies (
                    #[trigger] fin[i2]).children == mid2[i2].children by {}
                    assert forall|i2: int|
                        0 <= i2 < mid2.len() && mid2[i2].spec_dead() implies (
                    #[trigger] fin[i2]).spec_dead() by {}
                    assert forall|i2: int|
                        0 <= i2 < mid2.len() && !mid2[i2].spec_dead() && (
                    #[trigger] fin[i2]).spec_dead() implies i2 <= leaf.index as int by {}
                    lemma_settle_preserves_new(mid2, fin, len0 as int, leaf.index as int);
                    lemma_chain_realized_stable(mid2, fin, len0 as int, v1@, len0 as int);
                    lemma_chain_realized_stable(mid2, fin, mid1.len() as int, v2@, len0 as int);
                    // the leaf's two children are the chain heads
                    assert(orig[leaf.index as int].children@.len() == 0);
                    assert(mid1[leaf.index as int].children@ == orig[leaf.index as int].children@.push(
                        NodeId { index: len0 },
                    ));
                    assert(mid2[leaf.index as int].children@ == mid1[leaf.index as int].children@.push(
                        NodeId { index: m1 },
                    ));
                    assert(fin[leaf.index as int].children@ == mid2[leaf.index as int].children@);
                    assert(fin[leaf.index as int].children@.len() == 2);
                    assert(fin[leaf.index as int].children@[0] == (NodeId { index: len0 }));
                    assert(fin[leaf.index as int].children@[1] == (NodeId { index: m1 }));
                    assert(v1@ == seq![a]);
                    assert(v2@ == seq![b]);
                    assert(rv == RuleView::Split(a, b));
                    assert(chain_realized(fin, len0 as int, v1@));
                    assert(chain_realized(fin, m1 as int, v2@));
                    assert(rule_applied(fin, leaf.index as int, rv));
                    // queue bookkeeping across the two attachments
                    lemma_queue_entries_congruence(mid1, mid2, old(self).logic, len0 as int, m1 as int);
                    lemma_queue_entries_congruence(mid2, fin, old(self).logic, len0 as int, m1 as int);
                    lemma_queue_entries_congruence(
                        mid2,
                        fin,
                        old(self).logic,
                        m1 as int,
                        mid2.len() as int,
                    );
                    lemma_queue_entries_concat(
                        fin,
                        old(self).logic,
                        len0 as int,
                        m1 as int,
                        fin.len() as int,
                    );
                    assert(self.uninferred_nodes@ =~= q_in + queue_entries(
                        fin,
                        old(self).logic,
                        len0 as int,
                        fin.len() as int,
                    ));
                    // old nodes die only at or below the leaf
                    assert forall|i2: int|
                        0 <= i2 < orig.len() && !orig[i2].spec_dead() && (
                    #[trigger] fin[i2]).spec_dead() implies fin[i2].children@.len() > 0 && i2
                        <= leaf.index by {
                        if i2 != leaf.index {
                            assert(mid1[i2] == orig[i2]);
                            assert(mid2[i2] == mid1[i2]);
                        }
                    }
                }
            },
            InferenceRule::Chain(xs) => {
                if xs.len() > 0 {
                    self.grow_chain(leaf, xs, &branch);
                    let ghost mid = self.nodes@;
                    self.resolve_leaf(leaf);
                    proof {
                        lemma_extend_same_shape(mid, self.nodes@);
                        lemma_extend_trans(orig, mid, self.nodes@);
                        assert forall|i2: int| 0 <= i2 < self.nodes@.len() implies ((
                        #[trigger] self.nodes@[i2]).parent matches Some(p2) ==> p2.index < i2) by {
                            assert(node_struct_ok(self.nodes@, i2));
                        }
                        lemma_new_leaf_iff_one_chain(
                            orig,
                            mid,
                            self.nodes@,
                            leaf.index as int,
                            sw,
                        );
                        let fin = self.nodes@;
                        assert forall|i2: int| 0 <= i2 < mid.len() implies (
                        #[trigger] fin[i2]).value == mid[i2].value by {}
                        assert forall|i2: int| 0 <= i2 < mid.len() implies (
                        #[trigger] fin[i2]).children == mid[i2].children by {}
                        assert forall|i2: int|
                            0 <= i2 < mid.len() && mid[i2].spec_dead() implies (
                        #[trigger] fin[i2]).spec_dead() by {}
                        assert forall|i2: int|
                            0 <= i2 < mid.len() && !mid[i2].spec_dead() && (
                        #[trigger] fin[i2]).spec_dead() implies i2 <= leaf.index as int by {}
                        lemma_settle_preserves_new(mid, fin, len0 as int, leaf.index as int);
                        assert(chain_realized(mid, len0 as int, xs@));
                        lemma_chain_realized_stable(mid, fin, len0 as int, xs@, len0 as int);
                        assert(orig[leaf.index as int].children@.len() == 0);
                        assert(mid[leaf.index as int].children@ == orig[leaf.index as int].children@.push(
                            NodeId { index: len0 },
                        ));
                        assert(fin[leaf.index as int].children@
                            == mid[leaf.index as int].children@);
                        assert(fin[leaf.index as int].children@.len() == 1);
                        assert(fin[leaf.index as int].children@[0] == (NodeId { index: len0 }));
                        assert(rv == RuleView::Chain(xs@));
                        assert(rule_applied(fin, leaf.index as int, rv));
                        lemma_queue_entries_congruence(
                            mid,
                            fin,
                            old(self).logic,
                            len0 as int,
                            mid.len() as int,
                        );
                        assert(self.uninferred_nodes@ == q_in + queue_entries(
                            fin,
                            old(self).logic,
                            len0 as int,
                            fin.len() as int,
                        ));
                        assert forall|i2: int|
                            0 <= i2 < orig.len() && !orig[i2].spec_dead() && (
                        #[trigger] fin[i2]).spec_dead() implies fin[i2].children@.len() > 0 && i2
                            <= leaf.index by {
                            if i2 != leaf.index {
                                assert(mid[i2] == orig[i2]);
                            }
                        }
                    }
                } else {
                    proof {
                        lemma_extend_refl(orig);
                        assert(self.uninferred_nodes@ =~= q_in + queue_entries(
                            self.nodes@,
                            old(self).logic,
                            len0 as int,
                            len0 as int,
                        ));
                        assert(rv == RuleView::Chain(xs@) && xs@.len() == 0);
                        assert(rule_applied(self.nodes@, leaf.index as int, rv));
                    }
                }
            },
            InferenceRule::SplitAndChain(a1, a2, b1, b2) => {
                let mut v1: Vec<Node> = Vec::new();
                v1.push(a1);
                v1.push(a2);
                let mut v2: Vec<Node> = Vec::new();
                v2.push(b1);
                v2.push(b2);
                proof {
                    assert(v1@ =~= seq![a1, a2]);
                    assert(v2@ =~= seq![b1, b2]);
                    assert forall|i: int| 0 <= i < v1@.len() implies node_worlds_lt(
                        #[trigger] v1@[i],
                        len0 as int + 1,
                    ) by {}
                }
                self.grow_chain(leaf, v1, &branch);
                let m1 = self.nodes.len();
                let ghost mid1 = self.nodes@;
                proof {
                    lemma_branch_stable(orig, mid1, leaf.index as int);
                    assert forall|i: int| 0 <= i < v2@.len() implies node_worlds_lt(
                        #[trigger] v2@[i],
                        mid1.len() as int + 1,
                    ) by {
                        assert(node_worlds_lt(b1, len0 as int + 1));
                        assert(node_worlds_lt(b2, len0 as int + 1));
                        match v2@[i] {
                            Node::Expr { .. } => {},
                            Node::Relation { .. } => {},
                        }
                    }
                }
                self.grow_chain(leaf, v2, &branch);
                let ghost mid2 = self.nodes@;
                self.resolve_leaf(leaf);
                proof {
                    lemma_extend_trans(orig, mid1, mid2);
                    lemma_extend_same_shape(mid2, self.nodes@);
                    lemma_extend_trans(orig, mid2, self.nodes@);
                    assert forall|i2: int| 0 <= i2 < self.nodes@.len() implies ((
                    #[trigger] self.nodes@[i2]).parent matches Some(p2) ==> p2.index < i2) by {
                        assert(node_struct_ok(self.nodes@, i2));
                    }
                    lemma_new_leaf_iff_two_chains(
                        orig,
                        mid1,
                        mid2,
                        self.nodes@,
                        leaf.index as int,
                        sw,
                    );
                    let fin = self.nodes@;
                    // the second attachment left the first chain untouched
                    assert forall|i2: int| len0 as int <= i2 < mid1.len() implies (
                    #[trigger] mid2[i2]).value == mid1[i2].value && mid2[i2].children@
                        == mid1[i2].children@ && mid2[i2].spec_dead() == mid1[i2].spec_dead() by {
                        assert(mid2[i2] == mid1[i2]);
                    }
                    assert(chain_realized(mid1, len0 as int, v1@));
                    lemma_chain_realized_stable(mid1, mid2, len0 as int, v1@, len0 as int);
                    assert(chain_realized(mid2, mid1.len() as int, v2@));
                    // settling the leaf keeps every new node's fields
                    assert forall|i2: int| 0 <= i2 < mid2.len() implies (#[trigger] fin[i2]).value
                        == mid2[i2].value by {}
                    assert forall|i2: int| 0 <= i2 < mid2.len() implies (
                    #[trigger] fin[i2]).children == mid2[i2].children by {}
                    assert forall|i2: int|
                        0 <= i2 < mid2.len() && mid2[i2].spec_dead() implies (
                    #[trigger] fin[i2]).spec_dead() by {}
                    assert forall|i2: int|
                        0 <= i2 < mid2.len() && !mid2[i2].spec_dead() && (
                    #[trigger] fin[i2]).spec_dead() implies i2 <= leaf.index as int by {}
                    lemma_settle_preserves_new(mid2, fin, len0 as int, leaf.index as int);
                    lemma_chain_realized_stable(mid2, fin, len0 as int, v1@, len0 as int);
                    lemma_chain_realized_stable(mid2, fin, mid1.len() as int, v2@, len0 as int);
                    // the leaf's two children are the chain heads
                    assert(orig[leaf.index as int].children@.len() == 0);
                    assert(mid1[leaf.index as int].children@ == orig[leaf.index as int].children@.push(
                        NodeId { index: len0 },
                    ));
                    assert(mid2[leaf.index as int].children@ == mid1[leaf.index as int].children@.push(
                        NodeId { index: m1 },
                    ));
                    assert(fin[leaf.index as int].children@ == mid2[leaf.index as int].children@);
                    assert(fin[leaf.index as int].children@.len() == 2);
                    assert(fin[leaf.index as int].children@[0] == (NodeId { index: len0 }));
                    assert(fin[leaf.index as int].children@[1] == (NodeId { index: m1 }));
                    assert(v1@ == seq![a1, a2]);
                    assert(v2@ == seq![b1, b2]);
                    assert(rv == RuleView::SplitAndChain(a1, a2, b1, b2));
                    assert(chain_realized(fin, len0 as int, v1@));
                    assert(chain_realized(fin, m1 as int, v2@));
                    assert(rule_applied(fin, leaf.index as int, rv));
                    // queue bookkeeping across the two attachments
                    lemma_queue_entries_congruence(mid1, mid2, old(self).logic, len0 as int, m1 as int);
                    lemma_queue_entries_congruence(mid2, fin, old(self).logic, len0 as int, m1 as int);
                    lemma_queue_entries_congruence(
                        mid2,
                        fin,
                        old(self).logic,
                        m1 as int,
                        mid2.len() as int,
                    );
                    lemma_queue_entries_concat(
                        fin,
                        old(self).logic,
                        len0 as int,
                        m1 as int,
                        fin.len() as int,
                    );
                    assert(self.uninferred_nodes@ =~= q_in + queue_entries(
                        fin,
                        old(self).logic,
                        len0 as int,
                        fin.len() as int,
                    ));
                    // old nodes die only at or below the leaf
                    assert forall|i2: int|
                        0 <= i2 < orig.len() && !orig[i2].spec_dead() && (
                    #[trigger] fin[i2]).spec_dead() implies fin[i2].children@.len() > 0 && i2
                        <= leaf.index by {
                        if i2 != leaf.index {
                            assert(mid1[i2] == orig[i2]);
                            assert(mid2[i2] == mid1[i2]);
                        }
                    }
                }
            },
        }
    }

    /// Adds the inference result of a node to the tableau: the node's
    /// decomposition is replayed independently against every live leaf of
    /// the whole tree, since the node may sit on several branches.
    ///
    /// Generally you should use [`Self::infer_once`] instead.
    #[verifier::spinoff_prover]
    pub fn infer_node(&mut self, node: NodeId) -> (r: Option<()>)
        requires
            old(self).wf(),
            node.index < old(self).nodes@.len(),
        ensures
            r is Some,
            node_expanded(
                old(self).nodes@,
                old(self).uninferred_nodes@,
                old(self).logic,
                *final(self),
                node,
            ),
    {
        let ghost orig = self.nodes@;
        let ghost q_in = self.uninferred_nodes@;
        let ghost sw = crate::logic::spec_logic_same_world(self.logic);
        let len0 = self.nodes.len();
        let leaves = self.live_leaves();
        let node_value = self.nodes[node.index].value.clone();
        proof {
            assert(orig.len() == len0 as int);
            lemma_extend_refl(orig);
            lemma_live_leaves_props(orig, orig.len() as int);
            assert(node_worlds_lt(node_value, orig.len() as int)) by {
                match node_value {
                    Node::Expr { .. } => {},
                    Node::Relation { .. } => {},
                }
            }
        }
        proof {
            assert(self.uninferred_nodes@ =~= q_in + queue_entries(
                self.nodes@,
                old(self).logic,
                orig.len() as int,
                orig.len() as int,
            ));
            assert forall|i2: int| 0 <= i2 < orig.len() implies ((#[trigger] orig[i2]).parent
                matches Some(p2) ==> p2.index < i2) by {
                assert(node_struct_ok(orig, i2));
            }
        }
        let mut li: usize = 0;
        while li < leaves.len()
            invariant
                self.wf(),
                nodes_extend(orig, self.nodes@),
                self.logic == old(self).logic,
                self.root == old(self).root,
                li <= leaves@.len(),
                leaves@ == spec_live_leaves_upto(orig, orig.len() as int),
                orig.len() <= self.nodes@.len(),
                orig.len() == len0 as int,
                node_worlds_lt(node_value, orig.len() as int),
                sw == crate::logic::spec_logic_same_world(self.logic),
                forall|j: int|
                    li <= j < leaves@.len() ==> is_live_leaf(
                        self.nodes@,
                        (#[trigger] leaves@[j]).index as int,
                    ),
                forall|j: int|
                    orig.len() <= j < self.nodes@.len() && (
                    #[trigger] self.nodes@[j]).children@.len() == 0
                        ==> (self.nodes@[j].spec_dead()
                        <==> crate::logic::spec_branch_contradiction(
                        spec_branch(self.nodes@, j),
                        sw,
                    )),
                node_value == orig[node.index as int].value,
                parents_below(orig),
                self.uninferred_nodes@ == q_in + queue_entries(
                    self.nodes@,
                    old(self).logic,
                    orig.len() as int,
                    self.nodes@.len() as int,
                ),
                forall|j: int|
                    0 <= j < li ==> rule_applied(
                        self.nodes@,
                        (#[trigger] leaves@[j]).index as int,
                        spec_logic_infer(
                            old(self).logic,
                            node_value,
                            spec_branch(orig, leaves@[j].index as int),
                        ),
                    ),
                forall|j: int, k: int|
                    0 <= j < li && 0 <= k
                        < self.nodes@[leaves@[j].index as int].children@.len() ==> orig.len() <= (
                    #[trigger] self.nodes@[leaves@[j].index as int].children@[k]).index,
                forall|i: int|
                    0 <= i < orig.len() && (#[trigger] orig[i]).children@.len() == 0
                        && orig[i].spec_dead() ==> self.nodes@[i].children@.len() == 0
                        && self.nodes@[i].spec_dead(),
            decreases leaves@.len() - li,
        {
            let leaf = leaves[li];
            let ghost before = self.nodes@;
            proof {
                assert(is_live_leaf(before, leaf.index as int));
                assert(node_worlds_lt(node_value, before.len() as int)) by {
                    match node_value {
                        Node::Expr { .. } => {},
                        Node::Relation { .. } => {},
                    }
                }
            }
            self.expand_leaf(&node_value, leaf);
            proof {
                lemma_extend_trans(orig, before, self.nodes@);
                assert(orig.len() == len0 as int);
                lemma_live_leaves_props(orig, orig.len() as int);
                let fin = self.nodes@;
                assert forall|i2: int| 0 <= i2 < before.len() implies ((
                #[trigger] before[i2]).parent matches Some(p2) ==> p2.index < i2) by {
                    assert(node_struct_ok(before, i2));
                }
                assert forall|j: int|
                    orig.len() <= j < fin.len() && (#[trigger] fin[j]).children@.len()
                        == 0 implies (fin[j].spec_dead()
                    <==> crate::logic::spec_branch_contradiction(
                    spec_branch(fin, j),
                    sw,
                )) by {
                    if j < before.len() {
                        assert(j != leaf.index);
                        assert(fin[j].children@ == before[j].children@);
                        assert(fin[j].spec_dead() == before[j].spec_dead());
                        lemma_leaf_iff_transfer(before, fin, j, sw);
                    }
                }
                assert forall|j: int| li + 1 <= j < leaves@.len() implies is_live_leaf(
                    self.nodes@,
                    (#[trigger] leaves@[j]).index as int,
                ) by {
                    assert(leaves@[li as int].index < leaves@[j].index);
                    assert(is_live_leaf(before, leaves@[j].index as int));
                }
                // the leaf's branch is still the branch it had on entry
                assert(leaf.index < orig.len());
                lemma_branch_stable(orig, before, leaf.index as int);
                // earlier expansions keep all their fields: this one touched
                // only the leaf, nodes below it, and fresh nodes
                assert forall|i2: int| orig.len() <= i2 < before.len() implies (
                #[trigger] fin[i2]).value == before[i2].value && fin[i2].children@
                    == before[i2].children@ && fin[i2].spec_dead() == before[i2].spec_dead() by {
                    assert(i2 != leaf.index);
                    if !before[i2].spec_dead() && fin[i2].spec_dead() {
                        assert(i2 <= leaf.index);
                        assert(false);
                    }
                }
                assert forall|j: int| 0 <= j < li + 1 implies rule_applied(
                    fin,
                    (#[trigger] leaves@[j]).index as int,
                    spec_logic_infer(
                        old(self).logic,
                        node_value,
                        spec_branch(orig, leaves@[j].index as int),
                    ),
                ) by {
                    let l = leaves@[j].index as int;
                    if j < li {
                        assert(leaves@[j].index < leaves@[li as int].index);
                        assert(fin[l].children@ == before[l].children@);
                        lemma_rule_applied_stable(
                            before,
                            fin,
                            l,
                            spec_logic_infer(
                                old(self).logic,
                                node_value,
                                spec_branch(orig, l),
                            ),
                            orig.len() as int,
                        );
                    } else {
                        assert(spec_branch(before, l) == spec_branch(orig, l));
                    }
                }
                // queue bookkeeping composes across the leaves
                assert forall|i2: int| orig.len() <= i2 < before.len() implies (
                #[trigger] fin[i2]).value == before[i2].value by {}
                lemma_queue_entries_congruence(
                    before,
                    fin,
                    old(self).logic,
                    orig.len() as int,
                    before.len() as int,
                );
                lemma_queue_entries_concat(
                    fin,
                    old(self).logic,
                    orig.len() as int,
                    before.len() as int,
                    fin.len() as int,
                );
                assert(self.uninferred_nodes@ =~= q_in + queue_entries(
                    fin,
                    old(self).logic,
                    orig.len() as int,
                    fin.len() as int,
                ));
                // dead leaves stay untouched
                assert forall|i2: int|
                    0 <= i2 < orig.len() && (#[trigger] orig[i2]).children@.len() == 0
                        && orig[i2].spec_dead() implies fin[i2].children@.len() == 0
                    && fin[i2].spec_dead() by {
                    assert(before[i2].children@.len() == 0 && before[i2].spec_dead());
                    assert(i2 != leaf.index);
                    assert(fin[i2].children@ == before[i2].children@);
                }
            }
            li = li + 1;
        }
        proof {
            assert(node_expanded(orig, q_in, old(self).logic, *self, node)) by {
                assert(leaves@ == spec_live_leaves_upto(orig, orig.len() as int));
                assert(node_value == orig[node.index as int].value);
            }
        }
        Some(())
    }

}

/// One step of the proof search: some pending entry of maximal priority is
/// removed from the queue and its node is expanded, as [`node_expanded`]
/// describes, against the entry's tableau.
pub open spec fn expansion_step(pre: PartialTableau, post: PartialTableau) -> bool {
    exists|j: int|
        0 <= j < pre.uninferred_nodes@.len() && (forall|k: int|
            0 <= k < pre.uninferred_nodes@.len() ==> (#[trigger] pre.uninferred_nodes@[k]).priority
                <= pre.uninferred_nodes@[j].priority) && #[trigger] node_expanded(
            pre.nodes@,
            pre.uninferred_nodes@.remove(j),
            pre.logic,
            post,
            pre.uninferred_nodes@[j].node_id,
        )
}

/// A run of the proof search: consecutive tableaux, each obtained from the
/// one before it by a single expansion step.
pub open spec fn is_expansion_trace(trace: Seq<PartialTableau>) -> bool {
    forall|i: int| 0 <= i < trace.len() - 1 ==> expansion_step(#[trigger] trace[i], trace[i + 1])
}

impl PartialTableau {
    /// Pops the highest-priority pending node and replays its decomposition
    /// against every live leaf. Ties are broken arbitrarily; the final
    /// verdict does not depend on the order.
    ///
    /// Returns `Some(())` if an inference was made, `None` if no node was
    /// pending.
    ///
    /// See also [`Self::infer`].
    pub fn infer_once(&mut self) -> (r: Option<()>)
        requires
            old(self).wf(),
        ensures
            final(self).wf(),
            nodes_extend(old(self).nodes@, final(self).nodes@),
            final(self).logic == old(self).logic,
            final(self).root == old(self).root,
            r is Some <==> old(self).uninferred_nodes@.len() > 0,
            r is None ==> *final(self) == *old(self),
            r is Some ==> expansion_step(*old(self), *final(self)),
    {
        if self.uninferred_nodes.len() == 0 {
            proof {
                lemma_extend_refl(self.nodes@);
            }
            return None;
        }
        let mut best_k: usize = 0;
        let mut k: usize = 1;
        while k < self.uninferred_nodes.len()
            invariant
                *self == *old(self),
                best_k < k <= self.uninferred_nodes@.len() || (best_k == 0 && k
                    <= self.uninferred_nodes@.len()),
                best_k < self.uninferred_nodes@.len(),
                forall|m: int|
                    0 <= m < k ==> (#[trigger] self.uninferred_nodes@[m]).priority
                        <= self.uninferred_nodes@[best_k as int].priority,
            decreases self.uninferred_nodes@.len() - k,
        {
            if self.uninferred_nodes[k].priority > self.uninferred_nodes[best_k].priority {
                best_k = k;
            }
            k = k + 1;
        }
        let entry = self.uninferred_nodes.remove(best_k);
        proof {
            assert(entry.node_id.index < self.nodes@.len());
            assert forall|m: int|
                0 <= m < self.uninferred_nodes@.len() implies (
            #[trigger] self.uninferred_nodes@[m]).node_id.index < self.nodes@.len() by {
                if m < best_k {
                    assert(self.uninferred_nodes@[m] == old(self).uninferred_nodes@[m]);
                } else {
                    assert(self.uninferred_nodes@[m] == old(self).uninferred_nodes@[m + 1]);
                }
            }
        }
        self.infer_node(entry.node_id)
    }

    /// Carries out the inference process until no node is pending or
    /// `max_steps` expansions have been made. Returns the completed, frozen
    /// tableau, or the partial tableau unchanged-in-kind when the search was
    /// exhausted: some axiom combinations admit unbounded searches, so a
    /// step budget bounds the run.
    pub fn infer(self, max_steps: usize) -> (r: Result<Tableau, PartialTableau>)
        requires
            self.wf(),
        ensures
            r matches Ok(t) ==> t.wf() && nodes_extend(self.nodes@, t.nodes@) && t.root
                == self.root,
            r matches Ok(t) ==> exists|trace: Seq<PartialTableau>|
                #[trigger] is_expansion_trace(trace) && trace.len() >= 1 && trace[0] == self
                    && trace.last().uninferred_nodes@.len() == 0 && t.nodes == trace.last().nodes
                    && t.root == trace.last().root,
            r matches Err(p) ==> p.wf() && nodes_extend(self.nodes@, p.nodes@) && p.logic
                == self.logic && p.root == self.root && p.uninferred_nodes@.len() > 0,
            r matches Err(p) ==> exists|trace: Seq<PartialTableau>|
                #[trigger] is_expansion_trace(trace) && trace.len() >= 1 && trace[0] == self
                    && trace.last() == p,
    {
        let ghost orig = self.nodes@;
        let mut t = self;
        let ghost mut trace: Seq<PartialTableau> = seq![self];
        let mut steps: usize = 0;
        proof {
            lemma_extend_refl(orig);
        }
        while steps < max_steps
            invariant
                t.wf(),
                orig == self.nodes@,
                nodes_extend(orig, t.nodes@),
                t.logic == self.logic,
                t.root == self.root,
                steps <= max_steps,
                is_expansion_trace(trace),
                trace.len() >= 1,
                trace[0] == self,
                trace.last() == t,
            decreases max_steps - steps,
        {
            let ghost before = t.nodes@;
            let ghost prev_t = t;
            let stepped = t.infer_once();
            proof {
                lemma_extend_trans(orig, before, t.nodes@);
                if stepped is Some {
                    let ghost prev_trace = trace;
                    trace = trace.push(t);
                    assert forall|i: int| 0 <= i < trace.len() - 1 implies expansion_step(
                        #[trigger] trace[i],
                        trace[i + 1],
                    ) by {
                        if i < prev_trace.len() - 1 {
                            assert(trace[i] == prev_trace[i]);
                            assert(trace[i + 1] == prev_trace[i + 1]);
                        } else {
                            assert(trace[i] == prev_t);
                            assert(trace[i + 1] == t);
                        }
                    }
                }
            }
            if stepped.is_none() {
                proof {
                    assert(t.wf());
                    assert(t.uninferred_nodes@.len() == 0);
                    assert(is_expansion_trace(trace));
                }
                let PartialTableau { logic: _dropped_logic, nodes, root, uninferred_nodes: _dropped_queue } = t;
                return Ok(Tableau { nodes, root });
            }
            steps = steps + 1;
        }
        if t.uninferred_nodes.len() == 0 {
            proof {
                assert(is_expansion_trace(trace));
            }
            let PartialTableau { logic: _dropped_logic, nodes, root, uninferred_nodes: _dropped_queue } = t;
            Ok(Tableau { nodes, root })
        } else {
            proof {
                assert(is_expansion_trace(trace));
            }
            Err(t)
        }
    }
}

/// Whether the selected rule set seeds reflexive self-loops at start-up.
pub open spec fn spec_seeds_reflexive(l: Logic) -> bool {
    match l {
        Logic::NormalModal(nm) => nm.reflexive,
        _ => false,
    }
}

/// What a freshly built tableau looks like: the premises and the negated
/// conclusion as one linear chain of live nodes in the initial world, the
/// reflexivity axiom's self-loop seeded below the chain where the rule set
/// asks for it, and every node queued once, in order, with the priority the
/// rule set gives its value.
pub open spec fn spec_fresh_tableau(
    r: PartialTableau,
    logic: Logic,
    premises: Seq<Expr>,
    conclusion: Expr,
) -> bool {
    &&& r.wf()
    &&& r.logic == logic
    &&& r.nodes@.len() >= premises.len() + 1
    &&& forall|i: int|
        0 <= i < premises.len() ==> (#[trigger] r.nodes@[i]).value == (Node::Expr {
            expr: premises[i],
            world: World(0usize),
        })
    &&& r.nodes@[premises.len() as int].value == (Node::Expr {
        expr: Expr::Not(Box::new(conclusion)),
        world: World(0usize),
    })
    &&& forall|i: int|
        0 < i <= premises.len() ==> (#[trigger] r.nodes@[i]).parent == Some(
            NodeId { index: (i - 1) as usize },
        )
    &&& r.nodes@[0].parent is None
    &&& forall|i: int| 0 <= i < r.nodes@.len() ==> !(#[trigger] r.nodes@[i]).spec_dead()
    &&& spec_seeds_reflexive(logic) ==> r.nodes@.len() == premises.len() + 2
        && r.nodes@.last().value == (Node::Relation { from: World(0usize), to: World(0usize) })
        && r.nodes@.last().parent == Some(NodeId { index: premises.len() as usize })
    &&& !spec_seeds_reflexive(logic) ==> r.nodes@.len() == premises.len() + 1
    &&& r.uninferred_nodes@.len() == r.nodes@.len()
    &&& forall|i: int|
        0 <= i < r.nodes@.len() ==> (#[trigger] r.uninferred_nodes@[i]) == (NodeIdPriority {
            node_id: NodeId { index: i as usize },
            priority: spec_logic_priority(logic, r.nodes@[i].value),
        })
}

impl PartialTableau {
    /// Constructs a new [`PartialTableau`] testing whether the premises
    /// entail the conclusion: the premises and the negated conclusion become
    /// one linear chain of live nodes, all queued for expansion, and a rule
    /// set with the reflexivity axiom seeds the initial world's self-loop
    /// below the chain (the only distinct world on the initial branch is
    /// world zero).
    #[verifier::spinoff_prover]
    pub fn new(logic: Logic, premises: Vec<Expr>, conclusion: Expr) -> (r: PartialTableau)
        requires
            premises@.len() < usize::MAX,
        ensures
            spec_fresh_tableau(r, logic, premises@, conclusion),
    {
        let n_premises = premises.len();
        let total = n_premises + 1;
        let ghost prem = premises@;
        let mut rest = premises;
        let mut nodes: Vec<TableauNode<Node>> = Vec::new();
        let mut queue: Vec<NodeIdPriority> = Vec::new();
        let mut i: usize = 0;
        while i < n_premises
            invariant
                i <= n_premises,
                n_premises == prem.len(),
                n_premises < usize::MAX,
                rest@ == prem.skip(i as int),
                nodes@.len() == i,
                queue@.len() == i,
                forall|j: int|
                    0 <= j < i ==> (#[trigger] nodes@[j]).value == (Node::Expr {
                        expr: prem[j],
                        world: World(0usize),
                    }),
                forall|j: int|
                    0 <= j < i ==> (#[trigger] nodes@[j]).children@.len() == 0
                        && nodes@[j].live_children == 0 && !nodes@[j].spec_dead(),
                forall|j: int|
                    0 < j < i ==> (#[trigger] nodes@[j]).parent == Some(
                        NodeId { index: (j - 1) as usize },
                    ),
                i > 0 ==> nodes@[0].parent is None,
                forall|j: int|
                    0 <= j < i ==> (#[trigger] queue@[j]) == (NodeIdPriority {
                        node_id: NodeId { index: j as usize },
                        priority: spec_logic_priority(logic, nodes@[j].value),
                    }),
            decreases n_premises - i,
        {
            let expr = rest.remove(0);
            let value = logic.make_premise_node(expr);
            let priority = logic.priority(&value);
            let parent = if i == 0 {
                Option::None
            } else {
                Some(NodeId { index: i - 1 })
            };
            nodes.push(
                TableauNode {
                    value,
                    parent,
                    children: Vec::new(),
                    live_children: 0,
                    death_reason: None,
                },
            );
            queue.push(NodeIdPriority { node_id: NodeId { index: i }, priority });
            i = i + 1;
        }
        let cvalue = logic.make_conclusion_node(conclusion);
        let cpriority = logic.priority(&cvalue);
        let cparent = if n_premises == 0 {
            Option::None
        } else {
            Some(NodeId { index: n_premises - 1 })
        };
        nodes.push(
            TableauNode {
                value: cvalue,
                parent: cparent,
                children: Vec::new(),
                live_children: 0,
                death_reason: None,
            },
        );
        queue.push(NodeIdPriority { node_id: NodeId { index: n_premises }, priority: cpriority });
        let ghost chain = nodes@;
        let mut j: usize = 0;
        while j + 1 < total
            invariant
                j < total,
                total == n_premises + 1,
                nodes@.len() == total,
                chain.len() == total,
                queue@.len() == total,
                forall|k: int|
                    0 <= k < total ==> (#[trigger] queue@[k]) == (NodeIdPriority {
                        node_id: NodeId { index: k as usize },
                        priority: spec_logic_priority(logic, nodes@[k].value),
                    }),
                forall|k: int|
                    0 <= k < total ==> (#[trigger] nodes@[k]).value == chain[k].value
                        && nodes@[k].parent == chain[k].parent && !nodes@[k].spec_dead(),
                forall|k: int|
                    0 <= k < j ==> (#[trigger] nodes@[k]).children@ =~= seq![
                        NodeId { index: (k + 1) as usize },
                    ] && nodes@[k].live_children == 1,
                forall|k: int|
                    j <= k < total ==> (#[trigger] nodes@[k]).children@.len() == 0
                        && nodes@[k].live_children == 0,
            decreases total - j,
        {
            nodes[j].children.push(NodeId { index: j + 1 });
            nodes[j].live_children = 1;
            j = j + 1;
        }
        let t = PartialTableau {
            logic,
            nodes,
            root: NodeId { index: 0 },
            uninferred_nodes: queue,
        };
        proof {
            let ns = t.nodes@;
            assert(forall|k: int|
                0 <= k < total - 1 ==> (#[trigger] ns[k]).children@ =~= seq![
                    NodeId { index: (k + 1) as usize },
                ]);
            assert forall|k: int| 0 <= k < total implies node_struct_ok(ns, k) by {
                if k < total - 1 {
                    assert(ns[k].children@ =~= seq![NodeId { index: (k + 1) as usize }]);
                    assert(ns[k].children@[0] == (NodeId { index: (k + 1) as usize }));
                }
            }
            assert forall|k: int| 0 <= k < total implies node_counts_ok(ns, k) by {
                if k < total - 1 {
                    let ch = ns[k].children@;
                    assert(ch =~= seq![NodeId { index: (k + 1) as usize }]);
                    assert(ch.drop_last() =~= Seq::<NodeId>::empty());
                    assert(count_live(ns, ch) == count_live(ns, ch.drop_last()) + 1);
                }
            }
            assert forall|k: int| 0 <= k < total implies node_linked(ns, k) by {
                if 0 < k {
                    assert(ns[k - 1].children@[0] == (NodeId { index: k as usize }));
                    assert(ns[k - 1].children@.contains(NodeId { index: k as usize }));
                }
            }
            assert forall|k: int| 0 <= k < total implies node_worlds_lt(
                (#[trigger] ns[k]).value,
                ns.len() as int,
            ) by {
                if k < n_premises {
                    assert(ns[k].value == (Node::Expr { expr: prem[k], world: World(0usize) }));
                } else {
                    assert(ns[k].value == (Node::Expr {
                        expr: Expr::Not(Box::new(conclusion)),
                        world: World(0usize),
                    }));
                }
            }
            assert(t.wf());
        }
        let reflexive = match &t.logic {
            Logic::NormalModal(nm) => nm.reflexive,
            _ => false,
        };
        if reflexive {
            let mut t2 = t;
            t2.add_child(
                NodeId { index: total - 1 },
                Node::Relation { from: World(0), to: World(0) },
            );
            proof {
                assert(t2.nodes@.last() == t2.nodes@[total as int]);
            }
            t2
        } else {
            t
        }
    }
}

impl Tableau {
    /// Same as [`PartialTableau::new`].
    pub fn new(logic: Logic, premises: Vec<Expr>, conclusion: Expr) -> (r: PartialTableau)
        requires
            premises@.len() < usize::MAX,
        ensures
            spec_fresh_tableau(r, logic, premises@, conclusion),
    {
        PartialTableau::new(logic, premises, conclusion)
    }
}

impl Logic {
    /// Constructs a new [`PartialTableau`] with the given premises and
    /// conclusion, running under this rule set.
    ///
    /// See also [`PartialTableau::new`].
    pub fn tableau(self, premises: Vec<Expr>, conclusion: Expr) -> (r: PartialTableau)
        requires
            premises@.len() < usize::MAX,
        ensures
            spec_fresh_tableau(r, self, premises@, conclusion),
    {
        PartialTableau::new(self, premises, conclusion)
    }
}

impl Tableau {
    /// The frozen tableau's invariant.
    pub open spec fn wf(self) -> bool {
        &&& nodes_wf(self.nodes@)
        &&& worlds_ok(self.nodes@)
        &&& self.root == (NodeId { index: 0usize })
    }

    /// The node a handle refers to.
    pub fn get(&self, node_id: NodeId) -> (r: &TableauNode<Node>)
        requires
            node_id.index < self.nodes@.len(),
        ensures
            *r == self.nodes@[node_id.index as int],
    {
        &self.nodes[node_id.index]
    }

    /// Whether the original statement used to create this tableau holds:
    /// the root is dead exactly when every branch of the finished tree has
    /// closed, which means the premises together with the negated conclusion
    /// are jointly unsatisfiable.
    pub fn holds(&self) -> (r: bool)
        requires
            self.wf(),
        ensures
            r == self.nodes@[0].spec_dead(),
            r <==> (forall|j: int|
                0 <= j < self.nodes@.len() && (#[trigger] self.nodes@[j]).children@.len() == 0
                    ==> self.nodes@[j].spec_dead()),
    {
        let total = self.nodes.len();
        proof {
            assert(self.nodes@.len() == total as int);
            lemma_root_dead_iff_all_leaves_dead(self.nodes@);
        }
        self.get(self.root).is_dead()
    }
}

/// The first entry of `ch` at or after `from` that refers to a live node.
pub open spec fn find_live_child<V>(nodes: Seq<TableauNode<V>>, ch: Seq<NodeId>, from: int) -> Option<
    NodeId,
>
    decreases ch.len() - from,
{
    if from < 0 || from >= ch.len() {
        None
    } else if ch[from].index < nodes.len() && !nodes[ch[from].index as int].spec_dead() {
        Some(ch[from])
    } else {
        find_live_child(nodes, ch, from + 1)
    }
}

/// One surviving path from node `i` downward: the node's value, then the
/// path of its first live child, as long as one exists.
pub open spec fn spec_live_path(nodes: Seq<TableauNode<Node>>, i: int) -> Seq<Node>
    decreases nodes.len() - i,
{
    if !(0 <= i < nodes.len()) {
        Seq::empty()
    } else {
        seq![nodes[i].value] + (match find_live_child(nodes, nodes[i].children@, 0) {
            Some(c) => if i < c.index < nodes.len() {
                spec_live_path(nodes, c.index as int)
            } else {
                Seq::empty()
            },
            None => Seq::empty(),
        })
    }
}

/// A surviving branch of a finished tableau, read as a candidate model that
/// satisfies the premises and falsifies the conclusion.
#[derive(Debug)]
pub struct Countermodel<N> {
    pub nodes: Vec<N>,
}

impl<N> Countermodel<N> {
    /// The values along the surviving path, the root's first.
    pub fn nodes(&self) -> (r: &Vec<N>)
        ensures
            r@ == self.nodes@,
    {
        &self.nodes
    }
}

impl Tableau {
    /// When the tree did not close, one surviving path from the root,
    /// following the first live child at every step; `None` when the
    /// statement holds and no branch survives.
    pub fn countermodel(&self) -> (r: Option<Countermodel<Node>>)
        requires
            self.wf(),
        ensures
            r is Some <==> !self.nodes@[0].spec_dead(),
            r matches Some(cm) ==> cm.nodes@ == spec_live_path(self.nodes@, 0),
    {
        if self.get(self.root).is_dead() {
            return None;
        }
        let mut out: Vec<Node> = Vec::new();
        let mut cur: usize = 0;
        loop
            invariant_except_break
                self.wf(),
                cur < self.nodes@.len(),
                !self.nodes@[cur as int].spec_dead(),
                spec_live_path(self.nodes@, 0) == out@ + spec_live_path(self.nodes@, cur as int),
            ensures
                out@ == spec_live_path(self.nodes@, 0),
            decreases self.nodes@.len() - cur,
        {
            proof {
                assert(node_struct_ok(self.nodes@, cur as int));
            }
            out.push(self.nodes[cur].value.clone());
            let ch_len = self.nodes[cur].children.len();
            let mut k: usize = 0;
            let mut found: Option<NodeId> = None;
            while k < ch_len
                invariant
                    self.wf(),
                    cur < self.nodes@.len(),
                    ch_len == self.nodes@[cur as int].children@.len(),
                    k <= ch_len,
                    found is None ==> find_live_child(
                        self.nodes@,
                        self.nodes@[cur as int].children@,
                        0,
                    ) == find_live_child(self.nodes@, self.nodes@[cur as int].children@, k as int),
                    found matches Some(c) ==> find_live_child(
                        self.nodes@,
                        self.nodes@[cur as int].children@,
                        0,
                    ) == Some(c) && c.index < self.nodes@.len() && !self.nodes@[c.index as int].spec_dead()
                        && cur < c.index,
                decreases ch_len - k,
            {
                proof {
                    assert(node_struct_ok(self.nodes@, cur as int));
                }
                if found.is_none() {
                    let cid = self.nodes[cur].children[k];
                    if !self.nodes[cid.index].is_dead() {
                        found = Some(cid);
                    }
                }
                k = k + 1;
            }
            match found {
                Some(c) => {
                    proof {
                        assert(out@ + spec_live_path(self.nodes@, c.index as int) =~= out@.drop_last()
                            + spec_live_path(self.nodes@, cur as int));
                    }
                    cur = c.index;
                },
                None => {
                    proof {
                        assert(spec_live_path(self.nodes@, cur as int) == seq![
                            self.nodes@[cur as int].value,
                        ]);
                        assert(out@ =~= out@.drop_last() + spec_live_path(
                            self.nodes@,
                            cur as int,
                        ));
                    }
                    break ;
                },
            }
        }
        Some(Countermodel { nodes: out })
    }
}

/// A duplicate-free list of dead, in-range children counts zero live ones.
pub proof fn lemma_count_live_all_dead<V>(nodes: Seq<TableauNode<V>>, ch: Seq<NodeId>)
    requires
        forall|k: int|
            0 <= k < ch.len() ==> (#[trigger] ch[k]).index < nodes.len()
                && nodes[ch[k].index as int].spec_dead(),
    ensures
        count_live(nodes, ch) == 0,
    decreases ch.len(),
{
    if ch.len() > 0 {
        assert(forall|k: int| 0 <= k < ch.len() - 1 ==> ch.drop_last()[k] == ch[k]);
        lemma_count_live_all_dead(nodes, ch.drop_last());
    }
}

/// Liveness propagation is exact: in a well-formed tableau, an inner node is
/// dead precisely when every one of its children is dead.
pub proof fn lemma_propagation_exact<V>(nodes: Seq<TableauNode<V>>, i: int)
    requires
        nodes_wf(nodes),
        0 <= i < nodes.len(),
        nodes[i].children@.len() > 0,
    ensures
        nodes[i].spec_dead() <==> (forall|k: int|
            0 <= k < nodes[i].children@.len() ==> nodes[(#[trigger] nodes[i].children@[k]).index as int].spec_dead()),
{
    assert(node_counts_ok(nodes, i));
    assert(node_struct_ok(nodes, i));
    if nodes[i].spec_dead() {
        assert forall|k: int|
            0 <= k < nodes[i].children@.len() implies nodes[(
        #[trigger] nodes[i].children@[k]).index as int].spec_dead() by {
            lemma_dead_children_dead(nodes, i, k);
        }
    } else {
        if forall|k: int|
            0 <= k < nodes[i].children@.len() ==> nodes[(#[trigger] nodes[i].children@[k]).index as int].spec_dead() {
            lemma_count_live_all_dead(nodes, nodes[i].children@);
            assert(nodes[i].live_children == 0);
            assert(false);
        }
    }
}

/// A node of a well-formed tableau below a dead root is dead.
proof fn lemma_below_dead_root<V>(nodes: Seq<TableauNode<V>>, i: int)
    requires
        nodes_wf(nodes),
        nodes.len() <= usize::MAX as int,
        nodes[0].spec_dead(),
        0 <= i < nodes.len(),
    ensures
        nodes[i].spec_dead(),
    decreases i,
{
    if i > 0 {
        assert(node_struct_ok(nodes, i));
        assert(node_linked(nodes, i));
        let p = nodes[i].parent->0;
        lemma_below_dead_root(nodes, p.index as int);
        let ch = nodes[p.index as int].children@;
        assert(ch.contains(NodeId { index: i as usize }));
        let k = choose|k: int| 0 <= k < ch.len() && ch[k] == (NodeId { index: i as usize });
        lemma_dead_children_dead(nodes, p.index as int, k);
    }
}

/// A node of a well-formed tableau whose leaves are all dead is dead.
proof fn lemma_above_dead_leaves<V>(nodes: Seq<TableauNode<V>>, i: int)
    requires
        nodes_wf(nodes),
        0 <= i < nodes.len(),
        forall|j: int|
            0 <= j < nodes.len() && (#[trigger] nodes[j]).children@.len() == 0 ==> nodes[j].spec_dead(),
    ensures
        nodes[i].spec_dead(),
    decreases nodes.len() - i,
{
    assert(node_struct_ok(nodes, i));
    if nodes[i].children@.len() == 0 {
        assert(nodes[i].spec_dead());
    } else {
        assert forall|k: int|
            0 <= k < nodes[i].children@.len() implies nodes[(
        #[trigger] nodes[i].children@[k]).index as int].spec_dead() by {
            lemma_above_dead_leaves(nodes, nodes[i].children@[k].index as int);
        }
        lemma_propagation_exact(nodes, i);
    }
}

/// The termination verdict is exact: the root of a well-formed tableau is
/// dead precisely when every branch has closed, that is, when every leaf of
/// the tree is dead.
pub proof fn lemma_root_dead_iff_all_leaves_dead<V>(nodes: Seq<TableauNode<V>>)
    requires
        nodes_wf(nodes),
        nodes.len() <= usize::MAX as int,
    ensures
        nodes[0].spec_dead() <==> (forall|j: int|
            0 <= j < nodes.len() && (#[trigger] nodes[j]).children@.len() == 0 ==> nodes[j].spec_dead()),
{
    if nodes[0].spec_dead() {
        assert forall|j: int|
            0 <= j < nodes.len() && (#[trigger] nodes[j]).children@.len() == 0 implies nodes[j].spec_dead() by {
            lemma_below_dead_root(nodes, j);
        }
    } else {
        if forall|j: int|
            0 <= j < nodes.len() && (#[trigger] nodes[j]).children@.len() == 0 ==> nodes[j].spec_dead() {
            lemma_above_dead_leaves(nodes, 0);
            assert(false);
        }
    }
}

/// The height of the subtree under node `i`: zero for a leaf, one more than
/// the tallest child's subtree otherwise.
pub open spec fn spec_depth<V>(nodes: Seq<TableauNode<V>>, i: int) -> nat
    decreases nodes.len() - i, nodes[i].children@.len() + 1,
{
    if 0 <= i < nodes.len() {
        spec_depth_children(nodes, i, 0)
    } else {
        0
    }
}

/// The height of node `i` counting only its children at positions `k` and
/// later.
pub open spec fn spec_depth_children<V>(nodes: Seq<TableauNode<V>>, i: int, k: int) -> nat
    decreases nodes.len() - i, nodes[i].children@.len() - k,
{
    if !(0 <= i < nodes.len()) || k < 0 || k >= nodes[i].children@.len() {
        0
    } else {
        let c = nodes[i].children@[k].index as int;
        let rest = spec_depth_children(nodes, i, k + 1);
        let dc: nat = if i < c < nodes.len() {
            spec_depth(nodes, c) + 1
        } else {
            0
        };
        if dc > rest {
            dc
        } else {
            rest
        }
    }
}

/// A subtree's height is bounded by the number of nodes above its root.
pub proof fn lemma_depth_le<V>(nodes: Seq<TableauNode<V>>, i: int)
    requires
        nodes_wf(nodes),
        0 <= i < nodes.len(),
    ensures
        spec_depth(nodes, i) <= nodes.len() - i - 1,
    decreases nodes.len() - i, nodes[i].children@.len() + 1,
{
    lemma_depth_children_le(nodes, i, 0);
}

/// The bound of [`lemma_depth_le`], for the children at positions `k` on.
pub proof fn lemma_depth_children_le<V>(nodes: Seq<TableauNode<V>>, i: int, k: int)
    requires
        nodes_wf(nodes),
        0 <= i < nodes.len(),
    ensures
        spec_depth_children(nodes, i, k) <= nodes.len() - i - 1,
    decreases nodes.len() - i, nodes[i].children@.len() - k,
{
    if 0 <= k < nodes[i].children@.len() {
        assert(node_struct_ok(nodes, i));
        let c = nodes[i].children@[k].index as int;
        assert(i < c < nodes.len());
        lemma_depth_le(nodes, c);
        lemma_depth_children_le(nodes, i, k + 1);
    }
}

impl PartialTableau {
    /// The height of the subtree under the given node.
    pub fn depth_of(&self, node_id: NodeId) -> (r: usize)
        requires
            self.wf(),
            node_id.index < self.nodes@.len(),
        ensures
            r as nat == spec_depth(self.nodes@, node_id.index as int),
        decreases self.nodes@.len() - node_id.index,
    {
        proof {
            assert(node_struct_ok(self.nodes@, node_id.index as int));
        }
        let i = node_id.index;
        let total = self.nodes.len();
        let nch = self.nodes[i].children.len();
        let mut best: usize = 0;
        let mut k: usize = nch;
        while k > 0
            invariant
                self.wf(),
                i == node_id.index,
                i < self.nodes@.len(),
                total == self.nodes@.len(),
                nch == self.nodes@[i as int].children@.len(),
                k <= nch,
                best as nat == spec_depth_children(self.nodes@, i as int, k as int),
                best <= self.nodes@.len() - i - 1,
            decreases k,
        {
            proof {
                assert(node_struct_ok(self.nodes@, i as int));
            }
            k = k - 1;
            let c = self.nodes[i].children[k];
            proof {
                lemma_depth_le(self.nodes@, c.index as int);
            }
            let dc = self.depth_of(c) + 1;
            if dc > best {
                best = dc;
            }
        }
        best
    }

    /// The height of the whole tree.
    pub fn depth(&self) -> (r: usize)
        requires
            self.wf(),
        ensures
            r as nat == spec_depth(self.nodes@, 0),
    {
        self.depth_of(self.root)
    }
}

/// How parsing a whole statement can fail: the expression parser rejected a
/// formula, or the statement is missing its inference symbol or conclusion.
#[derive(Debug, Clone)]
pub enum TableauParseError<E> {
    ExpressionError(E),
    MissingInferenceSymbol,
    MissingConclusion,
}

} // verus!
