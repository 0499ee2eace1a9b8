//! Bottom-up leaf-substituting rebuild of a subtree, the one engine behind
//! every rewrite that replaces nodes by id or by name.

use vstd::prelude::*;
use crate::ir::{
    call_children, copy_inputs, lemma_node_wf_grow, node_children, node_wf, Call, CallHead,
    Module, NamedArg, Node, NodeId,
};
use crate::reach::in_subtree;
use crate::term::{lemma_extends_trans, lemma_rewrite_stable, lemma_term_stable, rewrite, term, Term};

verus! {

/// The leaf map `f` decides, for every node the walk visits, whether it is
/// replaced wholesale; it agrees with the spec map `g` on every old node
/// below `bound`, at every later state of the arena.
pub open spec fn leaf_map_ok<F: Fn(&Module, NodeId) -> Option<NodeId>>(
    f: F,
    m0: Module,
    bound: nat,
    g: spec_fn(NodeId) -> Option<NodeId>,
) -> bool {
    &&& bound <= m0.nodes@.len()
    &&& forall|mm: Module, id: NodeId|
        mm.wf() && mm.extends(&m0) && id.0 < bound ==> call_requires(f, (&mm, id))
    &&& forall|mm: Module, id: NodeId, r: Option<NodeId>|
        mm.extends(&m0) && id.0 < bound && call_ensures(f, (&mm, id), r) ==> r == g(id)
    &&& forall|x: NodeId| #[trigger] g(x) is Some ==> g(x).unwrap().0 < bound
}

/// `g` maps no node of the subtree at `root`.
pub open spec fn maps_none_below(m: Module, root: NodeId, g: spec_fn(NodeId) -> Option<NodeId>) -> bool {
    forall|x: NodeId| #[trigger] in_subtree(m, root, x) ==> g(x) is None
}

/// Rebuild the subtree at `root`: a node `f` maps to `Some(r)` is replaced by
/// `r` (its children are not visited); otherwise its children are mapped and
/// a call whose children changed is re-allocated with the same head symbol,
/// named labels and reification inputs. Unchanged nodes are reused.
pub fn map_tree<F: Fn(&Module, NodeId) -> Option<NodeId>>(
    m: &mut Module,
    root: NodeId,
    f: &F,
    Ghost(bound): Ghost<nat>,
    Ghost(g): Ghost<spec_fn(NodeId) -> Option<NodeId>>,
) -> (r: NodeId)
    requires
        old(m).wf(),
        root.0 < bound,
        leaf_map_ok(*f, *old(m), bound, g),
    ensures
        final(m).wf(),
        final(m).extends(old(m)),
        final(m).bindings@ == old(m).bindings@,
        r.0 < final(m).nodes@.len(),
        term(*final(m), r) == rewrite(*old(m), root, g),
        g(root) is None && r.0 < old(m).nodes@.len() ==> r == root,
        g(root) is Some ==> r == g(root).unwrap() && *final(m) == *old(m),
        maps_none_below(*old(m), root, g) ==> r == root && *final(m) == *old(m),
    decreases root.0,
{
    let ghost m0 = *m;
    let rep = f(m, root);
    if let Some(x) = rep {
        assert(x == g(root).unwrap());
        assert(in_subtree(*m, root, root));
        return x;
    }
    let children = m.children(root);
    let ghost ch = children@;
    let mut new_children: Vec<NodeId> = Vec::new();
    let mut changed = false;
    let mut k: usize = 0;
    while k < children.len()
        invariant
            m0.wf(),
            root.0 < bound,
            leaf_map_ok(*f, m0, bound, g),
            g(root) is None,
            m.wf(),
            m.extends(&m0),
            m.bindings@ == m0.bindings@,
            ch == node_children(m0.at(root)),
            children@ == ch,
            k <= ch.len(),
            new_children@.len() == k,
            forall|j: int| 0 <= j < k ==> (#[trigger] new_children@[j]).0 < m.nodes@.len(),
            forall|j: int|
                0 <= j < k ==> term(*m, #[trigger] new_children@[j]) == rewrite(m0, ch[j], g),
            changed == (exists|j: int| 0 <= j < k && new_children@[j] != ch[j]),
            maps_none_below(m0, root, g) ==> *m == m0 && forall|j: int| 0 <= j < k ==> new_children@[j] == ch[j],
        decreases ch.len() - k,
    {
        let c = children[k];
        assert(node_wf(m0.nodes@[root.0 as int], root.0 as int, m0.symbols@.len()));
        assert(c.0 < root.0);
        let ghost mk = *m;
        let ghost mk0 = *m;
        proof {
            assert(leaf_map_ok(*f, mk, bound, g)) by {
                assert forall|mm: Module, id: NodeId|
                    mm.wf() && mm.extends(&mk) && id.0 < bound implies call_requires(
                    *f,
                    (&mm, id),
                ) by {
                    lemma_extends_trans(m0, mk, mm);
                }
                assert forall|mm: Module, id: NodeId, r: Option<NodeId>|
                    mm.extends(&mk) && id.0 < bound && call_ensures(*f, (&mm, id), r) implies r
                    == g(id) by {
                    lemma_extends_trans(m0, mk, mm);
                }
            }
        }
        proof {
            if maps_none_below(m0, root, g) {
                assert forall|x: NodeId| #[trigger] in_subtree(mk, c, x) implies g(x) is None by {
                    assert(node_children(m0.at(root))[k as int] == c);
                    assert(in_subtree(m0, root, x));
                }
            }
        }
        let nc = map_tree(m, c, f, Ghost(bound), Ghost(g));
        proof {
            lemma_rewrite_stable(m0, mk0, c, g);
            lemma_extends_trans(m0, mk0, *m);
            assert forall|j: int| 0 <= j < k implies term(*m, #[trigger] new_children@[j])
                == rewrite(m0, ch[j], g) by {
                lemma_term_stable(mk0, *m, new_children@[j]);
            }
        }
        new_children.push(nc);
        if nc.0 != c.0 {
            changed = true;
        }
        k += 1;
        proof {
            if rewrite(m0, c, g) == rewrite(m0, c, g) {
            }
        }
    }
    if !changed {
        proof {
            assert(new_children@ =~= ch);
            lemma_term_stable(m0, *m, root);
            lemma_root_unchanged(m0, *m, root, g);
        }
        return root;
    }
    let ghost m1 = *m;
    let r = rebuild_call(m, root, &new_children, Ghost(m0), Ghost(g));
    proof {
        lemma_extends_trans(m0, m1, *m);
    }
    r
}

/// When no child of `root` changes, the rewrite of `root` is what it denotes.
proof fn lemma_root_unchanged(m0: Module, m: Module, root: NodeId, g: spec_fn(NodeId) -> Option<NodeId>)
    requires
        m0.wf(),
        m.extends(&m0),
        root.0 < m0.nodes@.len(),
        g(root) is None,
        forall|x: NodeId| #[trigger] g(x) is Some ==> g(x).unwrap().0 < m0.nodes@.len(),
        forall|j: int|
            0 <= j < node_children(m0.at(root)).len() ==> term(
                m,
                #[trigger] node_children(m0.at(root))[j],
            ) == rewrite(m0, node_children(m0.at(root))[j], g),
    ensures
        term(m, root) == rewrite(m0, root, g),
{
    let ch = node_children(m0.at(root));
    assert(node_wf(m0.nodes@[root.0 as int], root.0 as int, m0.symbols@.len()));
    lemma_term_stable(m0, m, root);
    match m0.nodes@[root.0 as int] {
        Node::Call(c) => {
            assert forall|j: int| 0 <= j < ch.len() implies term(m0, ch[j]) == rewrite(m0, ch[j], g) by {
                lemma_term_stable(m0, m, ch[j]);
            }
            if let Term::Call { kids: k1, .. } = term(m0, root) {
                if let Term::Call { kids: k2, .. } = rewrite(m0, root, g) {
                    assert(k1 =~= k2);
                }
            }
        },
        _ => {},
    }
}

/// Re-allocate the call at `root` over `new_children` (same partition into
/// applied value, positional and named slots).
fn rebuild_call(
    m: &mut Module,
    root: NodeId,
    new_children: &Vec<NodeId>,
    Ghost(m0): Ghost<Module>,
    Ghost(g): Ghost<spec_fn(NodeId) -> Option<NodeId>>,
) -> (r: NodeId)
    requires
        m0.wf(),
        old(m).wf(),
        old(m).extends(&m0),
        root.0 < m0.nodes@.len(),
        g(root) is None,
        new_children@.len() == node_children(m0.at(root)).len(),
        forall|j: int| 0 <= j < new_children@.len() ==> (#[trigger] new_children@[j]).0 < old(
            m,
        ).nodes@.len(),
        forall|j: int|
            0 <= j < new_children@.len() ==> term(*old(m), #[trigger] new_children@[j]) == rewrite(
                m0,
                node_children(m0.at(root))[j],
                g,
            ),
        m0.at(root) is Call,
    ensures
        final(m).wf(),
        final(m).extends(old(m)),
        final(m).bindings@ == old(m).bindings@,
        r.0 < final(m).nodes@.len(),
        r.0 == old(m).nodes@.len(),
        term(*final(m), r) == rewrite(m0, root, g),
{
    let ghost m1 = *m;
    let ghost ch = node_children(m0.at(root));
    assert(m.nodes@[root.0 as int] == m0.nodes@[root.0 as int]);
    let node = m.node(root);
    let Node::Call(orig) = node else {
        assert(false);
        return root;
    };
    let total = new_children.len();
    let pos_count = orig.args.len();
    let named_count = orig.named.len();
    let (new_head, offset) = match orig.head {
        CallHead::User(_) => (CallHead::User(new_children[0]), 1usize),
        CallHead::Builtin(s) => (CallHead::Builtin(s), 0usize),
    };
    let mut new_args: Vec<NodeId> = Vec::new();
    let mut i: usize = 0;
    while i < pos_count
        invariant
            i <= pos_count,
            pos_count == orig.args@.len(),
            offset + pos_count + named_count == new_children@.len(),
            total == new_children@.len(),
            new_args@ == new_children@.subrange(offset as int, offset + i),
        decreases pos_count - i,
    {
        new_args.push(new_children[offset + i]);
        i += 1;
        assert(new_args@ =~= new_children@.subrange(offset as int, offset + i));
    }
    let mut new_named: Vec<NamedArg> = Vec::new();
    let mut j: usize = 0;
    while j < named_count
        invariant
            j <= named_count,
            named_count == orig.named@.len(),
            offset + pos_count + named_count == new_children@.len(),
            total == new_children@.len(),
            new_named@.len() == j,
            forall|q: int|
                0 <= q < j ==> (#[trigger] new_named@[q]).kind == orig.named@[q].kind
                    && new_named@[q].name == orig.named@[q].name && new_named@[q].value
                    == new_children@[offset + pos_count + q],
        decreases named_count - j,
    {
        let na = orig.named[j];
        new_named.push(NamedArg { kind: na.kind, name: na.name, value: new_children[offset + pos_count + j] });
        j += 1;
    }
    let inputs = copy_inputs(&orig.inputs);
    let call = Call { head: new_head, args: new_args, named: new_named, inputs };
    let ghost nch = call_children(call);
    proof {
        assert(nch =~= new_children@) by {
            assert(nch.len() == new_children@.len());
            assert forall|q: int| 0 <= q < nch.len() implies nch[q] == new_children@[q] by {
                if offset == 1 && q == 0 {
                } else if q < offset + pos_count {
                } else {
                    let t = q - offset - pos_count;
                    assert(new_named@[t].value == new_children@[offset + pos_count + t]);
                }
            }
        }
        assert(node_wf(m0.nodes@[root.0 as int], root.0 as int, m0.symbols@.len()));
        lemma_node_wf_grow(m0.nodes@[root.0 as int], root.0 as int, m0.symbols@.len(), m.symbols@.len());
        assert(node_wf(Node::Call(call), m.nodes@.len() as int, m.symbols@.len())) by {
            assert forall|q: int| 0 <= q < node_children(Node::Call(call)).len() implies (
            #[trigger] node_children(Node::Call(call))[q]).0 < m.nodes@.len() by {
                assert(node_children(Node::Call(call))[q] == new_children@[q]);
            }
            assert(inputs_view_eq(call.inputs, orig.inputs));
            assert forall|q: int| 0 <= q < call.named@.len() implies (#[trigger] call.named@[q]).name.0
                < m.symbols@.len() by {
                assert(orig.named@[q].name.0 < m.symbols@.len());
            }
        }
    }
    let r = m.add_node(Node::Call(call));
    proof {
        assert forall|q: int| 0 <= q < nch.len() implies term(*m, #[trigger] nch[q]) == rewrite(m0, ch[q], g) by {
            lemma_term_stable(m1, *m, nch[q]);
            assert(nch[q] == new_children@[q]);
        }
        if let Term::Call { kids: k1, named: n1, .. } = term(*m, r) {
            if let Term::Call { kids: k2, named: n2, .. } = rewrite(m0, root, g) {
                assert(k1 =~= k2);
                assert(n1 =~= n2);
            }
        }
    }
    r
}

/// Two input slots that copy each other carry the same interned symbols.
pub open spec fn inputs_view_eq(a: Option<crate::ir::Inputs>, b: Option<crate::ir::Inputs>) -> bool {
    crate::term::inputs_view(a) == crate::term::inputs_view(b)
}

} // verus!
