//! The tree a node denotes: the arena unfolded from a node id, so that two
//! ids in two arenas can be compared by what they mean rather than where they
//! are stored.

use vstd::prelude::*;
use crate::ir::{call_children, CallHead, Inputs, Module, NamedArg, NamedKind, Node, NodeId, Ref, Scalar, Symbol, Call};

verus! {

/// An unfolded FlatPIR expression.
pub enum Term {
    Lit(Scalar),
    Const(Symbol),
    Ref(Ref),
    /// A call: `builtin` is the head of a built-in call (`None` for a user
    /// call, whose applied value is `kids[0]`); `kids` are the children in walk
    /// order, of which `nargs` positional arguments follow the applied value and
    /// the named values come last, labelled by `named`.
    Call {
        builtin: Option<Symbol>,
        kids: Seq<Term>,
        nargs: nat,
        named: Seq<(NamedKind, Symbol)>,
        inputs: Option<Option<Seq<(Symbol, Ref)>>>,
    },
    Hole,
}

/// Reification inputs as a value: `None` when absent, `Some(None)` for
/// automatic inputs, `Some(Some(entries))` for an explicit boundary.
pub open spec fn inputs_view(i: Option<Inputs>) -> Option<Option<Seq<(Symbol, Ref)>>> {
    match i {
        None => None,
        Some(Inputs::Auto) => Some(None),
        Some(Inputs::Spec(v)) => Some(Some(v@)),
    }
}

pub open spec fn head_view(h: CallHead) -> Option<Symbol> {
    match h {
        CallHead::Builtin(s) => Some(s),
        CallHead::User(_) => None,
    }
}

pub open spec fn named_labels(c: Call) -> Seq<(NamedKind, Symbol)> {
    c.named@.map_values(|na: NamedArg| (na.kind, na.name))
}

/// The term denoted by node `id` of `m`.
pub open spec fn term(m: Module, id: NodeId) -> Term
    decreases id.0, 1nat,
{
    if id.0 >= m.nodes@.len() {
        Term::Hole
    } else {
        match m.nodes@[id.0 as int] {
            Node::Lit(s) => Term::Lit(s),
            Node::Const(s) => Term::Const(s),
            Node::Ref(r) => Term::Ref(r),
            Node::Hole => Term::Hole,
            Node::Call(c) => Term::Call {
                builtin: head_view(c.head),
                kids: Seq::new(
                    call_children(c).len(),
                    |k: int|
                        if call_children(c)[k].0 < id.0 {
                            term(m, call_children(c)[k])
                        } else {
                            Term::Hole
                        },
                ),
                nargs: c.args@.len(),
                named: named_labels(c),
                inputs: inputs_view(c.inputs),
            },
        }
    }
}

/// The term obtained from node `id` of `m` by standing in `term(m, g(x))`
/// for every visited node `x` with `g(x)` defined (its children are then not
/// visited), and rebuilding every other call from its rewritten children.
pub open spec fn rewrite(m: Module, id: NodeId, g: spec_fn(NodeId) -> Option<NodeId>) -> Term
    decreases id.0, 1nat,
{
    if id.0 >= m.nodes@.len() {
        Term::Hole
    } else if g(id) is Some {
        term(m, g(id).unwrap())
    } else {
        match m.nodes@[id.0 as int] {
            Node::Call(c) => Term::Call {
                builtin: head_view(c.head),
                kids: Seq::new(
                    call_children(c).len(),
                    |k: int|
                        if call_children(c)[k].0 < id.0 {
                            rewrite(m, call_children(c)[k], g)
                        } else {
                            Term::Hole
                        },
                ),
                nargs: c.args@.len(),
                named: named_labels(c),
                inputs: inputs_view(c.inputs),
            },
            _ => term(m, id),
        }
    }
}

/// Growing an arena does not change what its old nodes denote.
pub proof fn lemma_term_stable(m1: Module, m2: Module, id: NodeId)
    requires
        m1.wf(),
        m2.extends(&m1),
        id.0 < m1.nodes@.len(),
    ensures
        term(m2, id) == term(m1, id),
    decreases id.0,
{
    match m1.nodes@[id.0 as int] {
        Node::Call(c) => {
            assert(m2.nodes@[id.0 as int] == m1.nodes@[id.0 as int]);
            let ch = call_children(c);
            assert forall|k: int| 0 <= k < ch.len() && ch[k].0 < id.0 implies term(m2, ch[k])
                == term(m1, ch[k]) by {
                lemma_term_stable(m1, m2, ch[k]);
            }
            if let Term::Call { kids: k1, .. } = term(m1, id) {
                if let Term::Call { kids: k2, .. } = term(m2, id) {
                    assert(k1 =~= k2);
                }
            }
        },
        _ => {
            assert(m2.nodes@[id.0 as int] == m1.nodes@[id.0 as int]);
        },
    }
}

/// Growing an arena does not change a rewrite of its old nodes, when the
/// stand-ins are old nodes too.
pub proof fn lemma_rewrite_stable(
    m1: Module,
    m2: Module,
    id: NodeId,
    g: spec_fn(NodeId) -> Option<NodeId>,
)
    requires
        m1.wf(),
        m2.extends(&m1),
        id.0 < m1.nodes@.len(),
        forall|x: NodeId| #[trigger] g(x) is Some ==> g(x).unwrap().0 < m1.nodes@.len(),
    ensures
        rewrite(m2, id, g) == rewrite(m1, id, g),
    decreases id.0,
{
    if g(id) is Some {
        lemma_term_stable(m1, m2, g(id).unwrap());
    } else {
        assert(m2.nodes@[id.0 as int] == m1.nodes@[id.0 as int]);
        match m1.nodes@[id.0 as int] {
            Node::Call(c) => {
                let ch = call_children(c);
                assert forall|k: int| 0 <= k < ch.len() && ch[k].0 < id.0 implies rewrite(
                    m2,
                    ch[k],
                    g,
                ) == rewrite(m1, ch[k], g) by {
                    lemma_rewrite_stable(m1, m2, ch[k], g);
                }
                if let Term::Call { kids: k1, .. } = rewrite(m1, id, g) {
                    if let Term::Call { kids: k2, .. } = rewrite(m2, id, g) {
                        assert(k1 =~= k2);
                    }
                }
            },
            _ => {
                lemma_term_stable(m1, m2, id);
            },
        }
    }
}

/// `extends` is transitive.
pub proof fn lemma_extends_trans(a: Module, b: Module, c: Module)
    requires
        b.extends(&a),
        c.extends(&b),
    ensures
        c.extends(&a),
{
}

/// `extends` is reflexive.
pub proof fn lemma_extends_refl(a: Module)
    ensures
        a.extends(&a),
{
}

} // verus!
