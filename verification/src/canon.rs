//! Canonicalization of a determinized module: trivial-alias resolution,
//! dead synthetic bindings, structural projections, bare built-in callees
//! and root-based dead-code elimination, each refuse-free and
//! meaning-preserving; and the reserved `inputs` declaration they all
//! leave alone.

pub mod dce;
pub mod flatten;
pub mod fold;
pub mod inline;

use vstd::prelude::*;
use crate::ir::{node_children, node_wf, str_eq, BindingId, CallHead, Module, Node, NodeId, Ref, RefNs, Symbol};
use crate::shape::{is_builtin_named, self_ref_name};

verus! {

/// A reserved binding's right-hand side as its element nodes: the
/// arguments of a `tuple(...)` call, else the value itself.
pub open spec fn tuple_elems(m: Module, rhs: NodeId) -> Seq<NodeId> {
    if is_builtin_named(m, rhs, "tuple"@) {
        match m.at(rhs) {
            Node::Call(c) => c.args@,
            _ => seq![rhs],
        }
    } else {
        seq![rhs]
    }
}

/// The element nodes of a reserved binding's right-hand side (see
/// [`tuple_elems`]).
pub fn abi_tuple_elems(m: &Module, rhs: NodeId) -> (r: Vec<NodeId>)
    requires
        m.wf(),
        rhs.0 < m.nodes@.len(),
    ensures
        r@ == tuple_elems(*m, rhs),
        forall|k: int| 0 <= k < r@.len() ==> (#[trigger] r@[k]).0 < m.nodes@.len(),
{
    match crate::shape::expect_builtin_call(m, rhs, "tuple") {
        Some(c) => {
            proof {
                assert(node_wf(m.nodes@[rhs.0 as int], rhs.0 as int, m.symbols@.len()));
                assert forall|k: int| 0 <= k < c.args@.len() implies (#[trigger] c.args@[k]).0 < m.nodes@.len() by {
                    assert(node_children(m.at(rhs))[k] == c.args@[k]);
                }
            }
            crate::ir::copy_ids(&c.args)
        },
        None => {
            let mut v: Vec<NodeId> = Vec::new();
            v.push(rhs);
            proof {
                assert(v@ =~= seq![rhs]);
            }
            v
        },
    }
}

/// Binding `b` is the reserved `inputs` declaration.
pub open spec fn is_inputs_binding(m: Module, b: BindingId) -> bool {
    m.live(b) && m.name_of(m.bind(b).name) == "inputs"@
}

/// Whether `bid` is the reserved `inputs` binding, which every pass leaves
/// untouched: its elements name the bindings promoted to arguments.
pub fn is_reserved_abi_binding(m: &Module, bid: BindingId) -> (r: bool)
    requires
        m.wf(),
        m.live(bid),
    ensures
        r == is_inputs_binding(*m, bid),
{
    proof {
        assert(m.binding_wf(m.bind(bid)));
    }
    str_eq(m.resolve(m.binding(bid).name), "inputs")
}

/// Binding name `s` is promoted to an argument: an element of the reserved
/// `inputs` declaration is `(%ref self s)`.
pub open spec fn promoted(m: Module, s: Symbol) -> bool {
    exists|b: BindingId, k: int|
        #[trigger] is_inputs_binding(m, b) && 0 <= k < tuple_elems(m, m.bind(b).rhs).len()
            && #[trigger] self_ref_name(m, tuple_elems(m, m.bind(b).rhs)[k]) == Some(s)
}

/// Two live bindings with the same name text are the same binding.
pub proof fn lemma_name_text_unique(m: Module, b1: BindingId, b2: BindingId)
    requires
        m.wf(),
        m.live(b1),
        m.live(b2),
        m.name_of(m.bind(b1).name) == m.name_of(m.bind(b2).name),
    ensures
        b1 == b2,
{
    assert(m.binding_wf(m.bind(b1)));
    assert(m.binding_wf(m.bind(b2)));
    if b1 != b2 {
        assert(m.bind(b1).name != m.bind(b2).name);
        let i = m.bind(b1).name.0 as int;
        let j = m.bind(b2).name.0 as int;
        assert(m.symbols@[i]@ != m.symbols@[j]@);
    }
}

/// The binding names the reserved `inputs` declaration lists (see
/// [`promoted`]), as a list in which each occurs at least once.
pub fn promoted_input_names(m: &Module) -> (r: Vec<Symbol>)
    requires
        m.wf(),
    ensures
        forall|s: Symbol| r@.contains(s) <==> promoted(*m, s),
{
    let mut i: usize = 0;
    while i < m.bindings.len()
        invariant
            m.wf(),
            i <= m.bindings@.len(),
            forall|b: BindingId| b.0 < i ==> !#[trigger] is_inputs_binding(*m, b),
        decreases m.bindings@.len() - i,
    {
        if m.bindings[i].is_some() {
            let bid = BindingId(i);
            proof {
                assert(m.live(bid));
            }
            if is_reserved_abi_binding(m, bid) {
                proof {
                    assert(m.binding_wf(m.bind(bid)));
                }
                let elems = abi_tuple_elems(m, m.binding(bid).rhs);
                let mut out: Vec<Symbol> = Vec::new();
                let mut k: usize = 0;
                while k < elems.len()
                    invariant
                        m.wf(),
                        is_inputs_binding(*m, bid),
                        elems@ == tuple_elems(*m, m.bind(bid).rhs),
                        forall|j: int| 0 <= j < elems@.len() ==> (#[trigger] elems@[j]).0 < m.nodes@.len(),
                        k <= elems@.len(),
                        forall|s: Symbol|
                            out@.contains(s) <==> exists|j: int| 0 <= j < k && #[trigger] self_ref_name(*m, elems@[j]) == Some(s),
                    decreases elems@.len() - k,
                {
                    let ghost o0 = out@;
                    if let Node::Ref(Ref { ns: RefNs::SelfMod, name }) = m.node(elems[k]) {
                        out.push(*name);
                    }
                    proof {
                        assert forall|s: Symbol| out@.contains(s) <==> exists|j: int|
                            0 <= j < k + 1 && #[trigger] self_ref_name(*m, elems@[j]) == Some(s) by {
                            if out@.contains(s) {
                                let q = choose|q: int| 0 <= q < out@.len() && out@[q] == s;
                                if q < o0.len() {
                                    assert(o0.contains(s));
                                } else {
                                    assert(self_ref_name(*m, elems@[k as int]) == Some(s));
                                }
                            }
                            if exists|j: int| 0 <= j < k + 1 && #[trigger] self_ref_name(*m, elems@[j]) == Some(s) {
                                let j = choose|j: int| 0 <= j < k + 1 && #[trigger] self_ref_name(*m, elems@[j]) == Some(s);
                                if j < k {
                                    assert(o0.contains(s));
                                    let q = choose|q: int| 0 <= q < o0.len() && o0[q] == s;
                                    assert(out@[q] == s);
                                } else {
                                    assert(out@[out@.len() - 1] == s);
                                }
                            }
                        }
                    }
                    k += 1;
                }
                proof {
                    assert forall|s: Symbol| out@.contains(s) <==> promoted(*m, s) by {
                        if promoted(*m, s) {
                            let (b, j) = choose|b: BindingId, j: int|
                                #[trigger] is_inputs_binding(*m, b) && 0 <= j < tuple_elems(*m, m.bind(b).rhs).len()
                                    && #[trigger] self_ref_name(*m, tuple_elems(*m, m.bind(b).rhs)[j]) == Some(s);
                            lemma_name_text_unique(*m, b, bid);
                            assert(self_ref_name(*m, elems@[j]) == Some(s));
                        }
                        if out@.contains(s) {
                            let j = choose|j: int| 0 <= j < elems@.len() && #[trigger] self_ref_name(*m, elems@[j]) == Some(s);
                            assert(is_inputs_binding(*m, bid));
                        }
                    }
                }
                return out;
            }
        }
        i += 1;
    }
    proof {
        assert forall|s: Symbol| !promoted(*m, s) by {
            if promoted(*m, s) {
                let (b, j) = choose|b: BindingId, j: int|
                    #[trigger] is_inputs_binding(*m, b) && 0 <= j < tuple_elems(*m, m.bind(b).rhs).len()
                        && #[trigger] self_ref_name(*m, tuple_elems(*m, m.bind(b).rhs)[j]) == Some(s);
                assert(b.0 < m.bindings@.len());
            }
        }
    }
    Vec::new()
}

} // verus!
