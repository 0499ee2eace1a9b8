//! Reachability below a node, and the breadth-first subtree search that every
//! scan of the legalizer and of the canonicalization passes shares.

use vstd::prelude::*;
use crate::ir::{node_children, node_wf, Module, NodeId};

verus! {

/// `x` is `root` or lies below it, following child edges.
pub open spec fn in_subtree(m: Module, root: NodeId, x: NodeId) -> bool
    decreases root.0,
{
    root == x || (root.0 < m.nodes@.len() && exists|k: int|
        0 <= k < node_children(m.at(root)).len() && (#[trigger] node_children(m.at(root))[k]).0
            < root.0 && in_subtree(m, node_children(m.at(root))[k], x))
}

/// A child of a node of the subtree is in the subtree.
pub proof fn lemma_child_in_subtree(m: Module, root: NodeId, y: NodeId, k: int)
    requires
        m.wf(),
        root.0 < m.nodes@.len(),
        y.0 < m.nodes@.len(),
        in_subtree(m, root, y),
        0 <= k < node_children(m.at(y)).len(),
    ensures
        in_subtree(m, root, node_children(m.at(y))[k]),
    decreases root.0,
{
    let c = node_children(m.at(y))[k];
    assert(node_wf(m.nodes@[y.0 as int], y.0 as int, m.symbols@.len()));
    if root == y {
        assert(c.0 < root.0);
        assert(in_subtree(m, c, c));
    } else {
        let j = choose|j: int|
            0 <= j < node_children(m.at(root)).len() && (#[trigger] node_children(m.at(root))[j]).0
                < root.0 && in_subtree(m, node_children(m.at(root))[j], y);
        let cj = node_children(m.at(root))[j];
        lemma_child_in_subtree(m, cj, y, k);
    }
}

/// A set of nodes that holds `root` and the children of each of its nodes
/// holds the whole subtree of `root`.
pub proof fn lemma_closed_holds_subtree(m: Module, root: NodeId, q: Seq<NodeId>, x: NodeId)
    requires
        m.wf(),
        q.contains(root),
        forall|j: int, k: int|
            0 <= j < q.len() && 0 <= k < node_children(m.at(q[j])).len() ==> q.contains(
                #[trigger] node_children(m.at(#[trigger] q[j]))[k],
            ),
        in_subtree(m, root, x),
    ensures
        q.contains(x),
    decreases root.0,
{
    if root != x {
        let k = choose|k: int|
            0 <= k < node_children(m.at(root)).len() && (#[trigger] node_children(m.at(root))[k]).0
                < root.0 && in_subtree(m, node_children(m.at(root))[k], x);
        let j = choose|j: int| 0 <= j < q.len() && q[j] == root;
        assert(q.contains(node_children(m.at(q[j]))[k]));
        lemma_closed_holds_subtree(m, node_children(m.at(root))[k], q, x);
    }
}

/// Everything below a node is no younger than it.
pub proof fn lemma_subtree_below(m: Module, root: NodeId, x: NodeId)
    requires
        m.wf(),
        in_subtree(m, root, x),
    ensures
        x.0 <= root.0,
    decreases root.0,
{
    if root != x {
        let k = choose|k: int|
            0 <= k < node_children(m.at(root)).len() && (#[trigger] node_children(m.at(root))[k]).0
                < root.0 && in_subtree(m, node_children(m.at(root))[k], x);
        lemma_subtree_below(m, node_children(m.at(root))[k], x);
    }
}

/// Growing an arena does not change the subtree of an old node.
pub proof fn lemma_in_subtree_stable(m1: Module, m2: Module, root: NodeId, x: NodeId)
    requires
        m1.wf(),
        m2.extends(&m1),
        root.0 < m1.nodes@.len(),
    ensures
        in_subtree(m2, root, x) == in_subtree(m1, root, x),
    decreases root.0,
{
    assert(m2.nodes@[root.0 as int] == m1.nodes@[root.0 as int]);
    let ch = node_children(m1.at(root));
    if root != x {
        if in_subtree(m1, root, x) {
            let k = choose|k: int|
                0 <= k < ch.len() && (#[trigger] ch[k]).0 < root.0 && in_subtree(m1, ch[k], x);
            lemma_in_subtree_stable(m1, m2, ch[k], x);
        }
        if in_subtree(m2, root, x) {
            let k = choose|k: int|
                0 <= k < ch.len() && (#[trigger] ch[k]).0 < root.0 && in_subtree(m2, ch[k], x);
            lemma_in_subtree_stable(m1, m2, ch[k], x);
        }
    }
}

/// Number of node visits in an unshared walk of the subtree of `id`.
pub open spec fn tree_size(m: Module, id: NodeId) -> nat
    decreases id.0, 1nat, 0nat,
{
    if id.0 >= m.nodes@.len() {
        1
    } else {
        1 + sizes_below(m, node_children(m.at(id)), id.0 as nat)
    }
}

pub open spec fn sizes_below(m: Module, ids: Seq<NodeId>, bound: nat) -> nat
    decreases bound, 0nat, ids.len(),
{
    if ids.len() == 0 {
        0
    } else {
        (if ids[0].0 < bound {
            tree_size(m, ids[0])
        } else {
            1
        }) + sizes_below(m, ids.drop_first(), bound)
    }
}

/// Total walk size of a work queue.
pub open spec fn queue_size(m: Module, q: Seq<NodeId>) -> nat
    decreases q.len(),
{
    if q.len() == 0 {
        0
    } else {
        tree_size(m, q[0]) + queue_size(m, q.drop_first())
    }
}

pub proof fn lemma_queue_size_append(m: Module, a: Seq<NodeId>, b: Seq<NodeId>)
    ensures
        queue_size(m, a + b) == queue_size(m, a) + queue_size(m, b),
    decreases a.len(),
{
    if a.len() > 0 {
        assert((a + b).drop_first() =~= a.drop_first() + b);
        lemma_queue_size_append(m, a.drop_first(), b);
    } else {
        assert(a + b =~= b);
    }
}

pub proof fn lemma_sizes_below_queue(m: Module, ids: Seq<NodeId>, bound: nat)
    requires
        forall|k: int| 0 <= k < ids.len() ==> (#[trigger] ids[k]).0 < bound,
    ensures
        sizes_below(m, ids, bound) == queue_size(m, ids),
    decreases ids.len(),
{
    if ids.len() > 0 {
        lemma_sizes_below_queue(m, ids.drop_first(), bound);
    }
}

/// Visiting the head of a queue and appending its children shrinks the
/// pending walk by one.
pub proof fn lemma_visit_shrinks(m: Module, q: Seq<NodeId>, qi: int)
    requires
        m.wf(),
        0 <= qi < q.len(),
        q[qi].0 < m.nodes@.len(),
    ensures
        queue_size(m, (q + node_children(m.at(q[qi]))).subrange(qi + 1, (q.len() + node_children(
            m.at(q[qi]),
        ).len()) as int)) + 1 == queue_size(m, q.subrange(qi, q.len() as int)),
{
    let id = q[qi];
    let ch = node_children(m.at(id));
    assert(node_wf(m.nodes@[id.0 as int], id.0 as int, m.symbols@.len()));
    lemma_sizes_below_queue(m, ch, id.0 as nat);
    let rest = q.subrange(qi + 1, q.len() as int);
    assert((q + ch).subrange(qi + 1, (q.len() + ch.len()) as int) =~= rest + ch);
    lemma_queue_size_append(m, rest, ch);
    assert(q.subrange(qi, q.len() as int).drop_first() =~= rest);
}

/// Append `ids` to `queue`.
pub fn append_ids(queue: &mut Vec<NodeId>, ids: &Vec<NodeId>)
    ensures
        final(queue)@ == old(queue)@ + ids@,
{
    let ghost q0 = queue@;
    let mut k: usize = 0;
    while k < ids.len()
        invariant
            k <= ids@.len(),
            queue@ == q0 + ids@.subrange(0, k as int),
        decreases ids@.len() - k,
    {
        queue.push(ids[k]);
        k += 1;
        assert(queue@ =~= q0 + ids@.subrange(0, k as int));
    }
    assert(ids@.subrange(0, ids@.len() as int) =~= ids@);
}

/// The first node of the subtree of `root`, in breadth-first order (the root
/// first, then children left to right), that `pred` accepts.
pub fn bfs_find<P: Fn(&Module, NodeId) -> bool>(
    m: &Module,
    root: NodeId,
    pred: &P,
    Ghost(sp): Ghost<spec_fn(NodeId) -> bool>,
) -> (r: Option<NodeId>)
    requires
        m.wf(),
        root.0 < m.nodes@.len(),
        forall|id: NodeId| id.0 < m.nodes@.len() ==> call_requires(*pred, (m, id)),
        forall|id: NodeId, b: bool|
            id.0 < m.nodes@.len() && call_ensures(*pred, (m, id), b) ==> b == sp(id),
    ensures
        match r {
            Some(x) => x.0 < m.nodes@.len() && in_subtree(*m, root, x) && sp(x),
            None => forall|x: NodeId| in_subtree(*m, root, x) ==> !sp(x),
        },
{
    let mut queue: Vec<NodeId> = Vec::new();
    queue.push(root);
    let mut qi: usize = 0;
    while qi < queue.len()
        invariant
            m.wf(),
            root.0 < m.nodes@.len(),
            forall|id: NodeId| id.0 < m.nodes@.len() ==> call_requires(*pred, (m, id)),
            forall|id: NodeId, b: bool|
                id.0 < m.nodes@.len() && call_ensures(*pred, (m, id), b) ==> b == sp(id),
            qi <= queue@.len(),
            queue@.len() >= 1,
            queue@[0] == root,
            forall|j: int|
                0 <= j < queue@.len() ==> (#[trigger] queue@[j]).0 < m.nodes@.len() && in_subtree(
                    *m,
                    root,
                    queue@[j],
                ),
            forall|j: int| 0 <= j < qi ==> !sp(#[trigger] queue@[j]),
            forall|j: int, k: int|
                0 <= j < qi && 0 <= k < node_children(m.at(queue@[j])).len() ==> queue@.contains(
                    #[trigger] node_children(m.at(#[trigger] queue@[j]))[k],
                ),
        decreases queue_size(*m, queue@.subrange(qi as int, queue@.len() as int)),
    {
        let id = queue[qi];
        if pred(m, id) {
            return Some(id);
        }
        let children = m.children(id);
        let ghost q0 = queue@;
        append_ids(&mut queue, &children);
        proof {
            assert forall|j: int|
                0 <= j < queue@.len() implies (#[trigger] queue@[j]).0 < m.nodes@.len()
                    && in_subtree(*m, root, queue@[j]) by {
                if j >= q0.len() {
                    lemma_child_in_subtree(*m, root, id, j - q0.len());
                    assert(node_wf(m.nodes@[id.0 as int], id.0 as int, m.symbols@.len()));
                }
            }
        }
        proof {
            assert(queue@ =~= q0 + children@);
            lemma_visit_shrinks(*m, q0, qi as int);
            assert forall|j: int, kk: int|
                0 <= j < qi + 1 && 0 <= kk < node_children(m.at(queue@[j])).len() implies queue@.contains(
                #[trigger] node_children(m.at(#[trigger] queue@[j]))[kk],
            ) by {
                if j < qi {
                    assert(queue@[j] == q0[j]);
                    let c = node_children(m.at(q0[j]))[kk];
                    assert(q0.contains(c));
                    let p = choose|p: int| 0 <= p < q0.len() && q0[p] == c;
                    assert(queue@[p] == c);
                } else {
                    assert(queue@[q0.len() + kk] == children@[kk]);
                }
            }
        }
        qi += 1;
    }
    proof {
        assert(queue@.contains(root)) by {
            assert(queue@[0] == root);
        }
        assert forall|x: NodeId| in_subtree(*m, root, x) implies !sp(x) by {
            lemma_closed_holds_subtree(*m, root, queue@, x);
        }
    }
    None
}


/// Every node of the subtree of `root`, each at least once, root first.
pub fn subtree_nodes(m: &Module, root: NodeId) -> (r: Vec<NodeId>)
    requires
        m.wf(),
        root.0 < m.nodes@.len(),
    ensures
        forall|k: int|
            0 <= k < r@.len() ==> (#[trigger] r@[k]).0 < m.nodes@.len() && in_subtree(*m, root, r@[k]),
        forall|x: NodeId| #[trigger] in_subtree(*m, root, x) ==> r@.contains(x),
{
    let mut queue: Vec<NodeId> = Vec::new();
    queue.push(root);
    let mut qi: usize = 0;
    while qi < queue.len()
        invariant
            m.wf(),
            root.0 < m.nodes@.len(),
            qi <= queue@.len(),
            queue@.len() >= 1,
            queue@[0] == root,
            forall|j: int|
                0 <= j < queue@.len() ==> (#[trigger] queue@[j]).0 < m.nodes@.len() && in_subtree(
                    *m,
                    root,
                    queue@[j],
                ),
            forall|j: int, k: int|
                0 <= j < qi && 0 <= k < node_children(m.at(queue@[j])).len() ==> queue@.contains(
                    #[trigger] node_children(m.at(#[trigger] queue@[j]))[k],
                ),
        decreases queue_size(*m, queue@.subrange(qi as int, queue@.len() as int)),
    {
        let id = queue[qi];
        let children = m.children(id);
        let ghost q0 = queue@;
        append_ids(&mut queue, &children);
        proof {
            assert forall|j: int|
                0 <= j < queue@.len() implies (#[trigger] queue@[j]).0 < m.nodes@.len()
                    && in_subtree(*m, root, queue@[j]) by {
                if j >= q0.len() {
                    lemma_child_in_subtree(*m, root, id, j - q0.len());
                    assert(node_wf(m.nodes@[id.0 as int], id.0 as int, m.symbols@.len()));
                }
            }
            assert(queue@ =~= q0 + children@);
            lemma_visit_shrinks(*m, q0, qi as int);
            assert forall|j: int, kk: int|
                0 <= j < qi + 1 && 0 <= kk < node_children(m.at(queue@[j])).len() implies queue@.contains(
                #[trigger] node_children(m.at(#[trigger] queue@[j]))[kk],
            ) by {
                if j < qi {
                    assert(queue@[j] == q0[j]);
                    let c = node_children(m.at(q0[j]))[kk];
                    assert(q0.contains(c));
                    let p = choose|p: int| 0 <= p < q0.len() && q0[p] == c;
                    assert(queue@[p] == c);
                } else {
                    assert(queue@[q0.len() + kk] == children@[kk]);
                }
            }
        }
        qi += 1;
    }
    proof {
        assert(queue@.contains(root)) by {
            assert(queue@[0] == root);
        }
        assert forall|x: NodeId| #[trigger] in_subtree(*m, root, x) implies queue@.contains(x) by {
            lemma_closed_holds_subtree(*m, root, queue@, x);
        }
    }
    queue
}

} // verus!
