//! Trivial-alias resolution and dead synthetic-binding elimination.

use vstd::prelude::*;
use crate::driver::{binding_is_referenced, referenced, zero_lit};
use crate::ir::{node_wf, Binding, BindingId, Module, Node, NodeId, Ref, RefNs, Scalar, Symbol};
use crate::term::{rewrite, term};
use crate::tree::{leaf_map_ok, map_tree};
use crate::canon::{is_inputs_binding, is_reserved_abi_binding, promoted};

verus! {

/// The right-hand side of the binding named `name` when it is trivial: a
/// literal, a bare atom or a reference.
pub open spec fn trivial_rhs(m: Module, name: Symbol) -> Option<NodeId> {
    if m.has_binding_named(name) {
        let b = choose|b: BindingId| m.live(b) && #[trigger] m.bind(b).name == name;
        match m.at(m.bind(b).rhs) {
            Node::Lit(_) | Node::Const(_) | Node::Ref(_) => Some(m.bind(b).rhs),
            _ => None,
        }
    } else {
        None
    }
}

/// What a `(%ref self name)` is resolved to: the trivial right-hand side of
/// its binding, unless `name` is promoted to an argument by the reserved
/// `inputs` declaration (its value is then supplied by the caller).
pub open spec fn alias_target(m: Module, name: Symbol) -> Option<NodeId> {
    if promoted(m, name) {
        None
    } else {
        trivial_rhs(m, name)
    }
}

/// Inside the binding named `self_name`: a `(%ref self x)` to another
/// binding whose right-hand side is trivial stands for that right-hand side,
/// unless `x` is promoted to an argument.
pub open spec fn alias_map(m: Module, self_name: Symbol) -> spec_fn(NodeId) -> Option<NodeId> {
    |x: NodeId|
        if x.0 < m.nodes@.len() {
            match m.at(x) {
                Node::Ref(r) => if r.ns == RefNs::SelfMod && r.name != self_name {
                    alias_target(m, r.name)
                } else {
                    None
                },
                _ => None,
            }
        } else {
            None
        }
}

/// The alias target of each symbol (see [`alias_target`]), by symbol.
fn alias_table(m: &Module) -> (t: Vec<Option<NodeId>>)
    requires
        m.wf(),
    ensures
        t@.len() == m.symbols@.len(),
        forall|s: Symbol| s.0 < m.symbols@.len() ==> #[trigger] t@[s.0 as int] == alias_target(*m, s),
{
    let mut t = trivial_table(m);
    let prom = crate::canon::promoted_input_names(m);
    let mut k: usize = 0;
    while k < prom.len()
        invariant
            m.wf(),
            t@.len() == m.symbols@.len(),
            forall|s: Symbol| prom@.contains(s) <==> promoted(*m, s),
            k <= prom@.len(),
            forall|s: Symbol|
                s.0 < m.symbols@.len() ==> #[trigger] t@[s.0 as int] == if promoted(*m, s) && exists|q: int|
                    0 <= q < k && prom@[q] == s {
                    None
                } else {
                    trivial_rhs(*m, s)
                },
        decreases prom@.len() - k,
    {
        let p = prom[k];
        if p.0 < t.len() {
            t.set(p.0, None);
        }
        proof {
            assert(prom@.contains(p));
            assert forall|s: Symbol|
                s.0 < m.symbols@.len() implies #[trigger] t@[s.0 as int] == if promoted(*m, s) && exists|q: int|
                    0 <= q < k + 1 && prom@[q] == s {
                    None
                } else {
                    trivial_rhs(*m, s)
                } by {
                if s == p {
                    assert(prom@[k as int] == s);
                } else {
                    assert(s.0 != p.0);
                    if exists|q: int| 0 <= q < k + 1 && prom@[q] == s {
                        let q = choose|q: int| 0 <= q < k + 1 && prom@[q] == s;
                        assert(q != k);
                    }
                }
            }
        }
        k += 1;
    }
    proof {
        assert forall|s: Symbol| s.0 < m.symbols@.len() implies #[trigger] t@[s.0 as int] == alias_target(*m, s) by {
            if promoted(*m, s) {
                assert(prom@.contains(s));
                let q = choose|q: int| 0 <= q < prom@.len() && prom@[q] == s;
            }
        }
    }
    t
}

/// The trivial right-hand side of each symbol's binding, by symbol.
fn trivial_table(m: &Module) -> (t: Vec<Option<NodeId>>)
    requires
        m.wf(),
    ensures
        t@.len() == m.symbols@.len(),
        forall|s: Symbol| s.0 < m.symbols@.len() ==> #[trigger] t@[s.0 as int] == trivial_rhs(*m, s),
{
    let mut t: Vec<Option<NodeId>> = Vec::new();
    let mut i: usize = 0;
    while i < m.symbols.len()
        invariant
            i <= m.symbols@.len(),
            t@.len() == i,
            forall|k: int| 0 <= k < i ==> #[trigger] t@[k] is None,
        decreases m.symbols@.len() - i,
    {
        t.push(None);
        i += 1;
    }
    let mut s: usize = 0;
    while s < m.bindings.len()
        invariant
            m.wf(),
            s <= m.bindings@.len(),
            t@.len() == m.symbols@.len(),
            forall|y: Symbol|
                y.0 < m.symbols@.len() ==> #[trigger] t@[y.0 as int] == if exists|b: BindingId|
                    b.0 < s && m.live(b) && #[trigger] m.bind(b).name == y {
                    trivial_rhs(*m, y)
                } else {
                    None
                },
        decreases m.bindings@.len() - s,
    {
        if let Some(b) = &m.bindings[s] {
            let bid = BindingId(s);
            proof {
                assert(m.live(bid));
                assert(m.binding_wf(m.bind(bid)));
            }
            let trivial = match m.node(b.rhs) {
                Node::Lit(_) | Node::Const(_) | Node::Ref(_) => true,
                _ => false,
            };
            if trivial {
                t.set(b.name.0, Some(b.rhs));
            }
            proof {
                assert forall|y: Symbol|
                    y.0 < m.symbols@.len() implies #[trigger] t@[y.0 as int] == if exists|c: BindingId|
                        c.0 < s + 1 && m.live(c) && #[trigger] m.bind(c).name == y {
                        trivial_rhs(*m, y)
                    } else {
                        None
                    } by {
                    if y == b.name {
                        let c = choose|c: BindingId| m.live(c) && #[trigger] m.bind(c).name == y;
                        if c != bid {
                            assert(m.bind(c).name != m.bind(bid).name);
                        }
                    } else {
                        assert(y.0 != b.name.0);
                        if exists|c: BindingId| c.0 < s + 1 && m.live(c) && #[trigger] m.bind(c).name == y {
                            let c = choose|c: BindingId| c.0 < s + 1 && m.live(c) && #[trigger] m.bind(c).name == y;
                            assert(c != bid);
                        }
                    }
                }
            }
        } else {
            proof {
                assert forall|y: Symbol|
                    y.0 < m.symbols@.len() implies #[trigger] t@[y.0 as int] == if exists|c: BindingId|
                        c.0 < s + 1 && m.live(c) && #[trigger] m.bind(c).name == y {
                        trivial_rhs(*m, y)
                    } else {
                        None
                    } by {
                    if exists|c: BindingId| c.0 < s + 1 && m.live(c) && #[trigger] m.bind(c).name == y {
                        let c = choose|c: BindingId| c.0 < s + 1 && m.live(c) && #[trigger] m.bind(c).name == y;
                        assert(c.0 != s);
                    }
                }
            }
        }
        s += 1;
    }
    proof {
        assert forall|y: Symbol| y.0 < m.symbols@.len() implies #[trigger] t@[y.0 as int] == trivial_rhs(*m, y) by {
            if m.has_binding_named(y) {
                let c = choose|c: BindingId| m.live(c) && #[trigger] m.bind(c).name == y;
                assert(c.0 < m.bindings@.len());
            }
        }
    }
    t
}

/// The pass leaves every binding's name and flags and the reserved `inputs`
/// binding whole, and each other right-hand side denotes the old one
/// rewritten by `g` (chosen per binding by its name).
pub open spec fn rhs_rewritten(m0: Module, m: Module, g: spec_fn(Symbol) -> spec_fn(NodeId) -> Option<NodeId>) -> bool {
    &&& m.bindings@.len() == m0.bindings@.len()
    &&& forall|b: BindingId| #[trigger] m.live(b) == m0.live(b)
    &&& forall|b: BindingId|
        #[trigger] m.live(b) ==> m.bind(b) == (Binding { rhs: m.bind(b).rhs, ..m0.bind(b) })
    &&& forall|b: BindingId| #[trigger] m.live(b) && is_inputs_binding(m0, b) ==> m.bind(b) == m0.bind(b)
    &&& forall|b: BindingId|
        #[trigger] m.live(b) && !is_inputs_binding(m0, b) ==> term(m, m.bind(b).rhs) == rewrite(
            m0,
            m0.bind(b).rhs,
            g(m0.bind(b).name),
        )
}

pub open spec fn alias_maps(m0: Module) -> spec_fn(Symbol) -> spec_fn(NodeId) -> Option<NodeId> {
    |s: Symbol| alias_map(m0, s)
}

/// Some live binding's right-hand side node changed.
pub open spec fn some_rhs_changed(m0: Module, m: Module) -> bool {
    exists|b: BindingId| #[trigger] m.live(b) && m.bind(b).rhs != m0.bind(b).rhs
}

/// Replace each `(%ref self x)` whose binding `x` is trivial (a literal, an
/// atom or a reference) by that value, except a binding's reference to
/// itself and a reference to a binding promoted to an argument; the reserved
/// `inputs` binding is left whole. Returns whether any right-hand side
/// changed.
pub fn resolve_alias_refs(m: &mut Module) -> (changed: bool)
    requires
        old(m).wf(),
    ensures
        final(m).wf(),
        final(m).extends(old(m)),
        rhs_rewritten(*old(m), *final(m), alias_maps(*old(m))),
        changed == some_rhs_changed(*old(m), *final(m)),
{
    let ghost m0 = *m;
    let table = alias_table(m);
    let ghost bound = m.nodes@.len();
    let mut changed = false;
    let mut s: usize = 0;
    while s < m.bindings.len()
        invariant
            m0.wf(),
            m.wf(),
            m.extends(&m0),
            bound == m0.nodes@.len(),
            table@.len() == m0.symbols@.len(),
            forall|y: Symbol| y.0 < m0.symbols@.len() ==> #[trigger] table@[y.0 as int] == alias_target(m0, y),
            s <= m.bindings@.len(),
            m.bindings@.len() == m0.bindings@.len(),
            forall|b: BindingId| #[trigger] m.live(b) == m0.live(b),
            forall|b: BindingId|
                #[trigger] m.live(b) ==> m.bind(b) == (Binding { rhs: m.bind(b).rhs, ..m0.bind(b) }),
            forall|b: BindingId| #[trigger] m.live(b) && b.0 >= s ==> m.bind(b) == m0.bind(b),
            forall|b: BindingId| #[trigger] m.live(b) && b.0 < s && is_inputs_binding(m0, b) ==> m.bind(b) == m0.bind(b),
            forall|b: BindingId|
                #[trigger] m.live(b) && b.0 < s && !is_inputs_binding(m0, b) ==> term(*m, m.bind(b).rhs) == rewrite(
                    m0,
                    m0.bind(b).rhs,
                    alias_map(m0, m0.bind(b).name),
                ),
            changed == exists|b: BindingId| #[trigger] m.live(b) && b.0 < s && m.bind(b).rhs != m0.bind(b).rhs,
        decreases m.bindings@.len() - s,
    {
        let ghost ms = *m;
        let reserved = m.bindings[s].is_some() && is_reserved_abi_binding(m, BindingId(s));
        proof {
            if m.bindings@[s as int] is Some {
                assert(ms.live(BindingId(s)));
                assert(m0.binding_wf(m0.bind(BindingId(s))));
                assert(m.name_of(m.bind(BindingId(s)).name) == m0.name_of(m0.bind(BindingId(s)).name));
            }
        }
        if m.bindings[s].is_some() && !reserved {
            let bid = BindingId(s);
            proof {
                assert(m.live(bid));
                assert(m0.live(bid));
                assert(m0.binding_wf(m0.bind(bid)));
                assert(!is_inputs_binding(m0, bid));
            }
            let root = m.binding(bid).rhs;
            let self_name = m.binding(bid).name;
            let tref = &table;
            let gm0: Ghost<Module> = Ghost(m0);
            let gb: Ghost<nat> = Ghost(bound);
            let f = |mm: &Module, id: NodeId| -> (r: Option<NodeId>)
                requires
                    mm.wf(),
                    mm.extends(&gm0@),
                    id.0 < gb@,
                    gb@ == gm0@.nodes@.len(),
                    gm0@.wf(),
                    tref@.len() == gm0@.symbols@.len(),
                    forall|y: Symbol| y.0 < gm0@.symbols@.len() ==> #[trigger] tref@[y.0 as int] == alias_target(gm0@, y),
                ensures
                    r == alias_map(gm0@, self_name)(id),
                {
                    proof {
                        assert(mm.nodes@[id.0 as int] == gm0@.nodes@[id.0 as int]);
                        assert(node_wf(gm0@.nodes@[id.0 as int], id.0 as int, gm0@.symbols@.len()));
                    }
                    match mm.node(id) {
                        Node::Ref(Ref { ns: RefNs::SelfMod, name }) => {
                            if *name != self_name {
                                tref[name.0]
                            } else {
                                None
                            }
                        },
                        _ => None,
                    }
                };
            proof {
                assert forall|x: NodeId| #[trigger] alias_map(m0, self_name)(x) is Some implies alias_map(m0, self_name)(x).unwrap().0 < bound by {
                    let r = crate::shape::self_ref_name(m0, x).unwrap();
                    let c = choose|c: BindingId| m0.live(c) && #[trigger] m0.bind(c).name == r;
                    assert(m0.binding_wf(m0.bind(c)));
                }
                assert(leaf_map_ok(f, ms, bound, alias_map(m0, self_name))) by {
                    assert forall|mm: Module, id: NodeId, r: Option<NodeId>|
                        mm.extends(&ms) && id.0 < bound && call_ensures(f, (&mm, id), r) implies r == alias_map(m0, self_name)(id) by {
                        crate::term::lemma_extends_trans(m0, ms, mm);
                    }
                    assert forall|mm: Module, id: NodeId|
                        mm.wf() && mm.extends(&ms) && id.0 < bound implies call_requires(f, (&mm, id)) by {
                        crate::term::lemma_extends_trans(m0, ms, mm);
                    }
                }
            }
            let new = map_tree(m, root, &f, Ghost(bound), Ghost(alias_map(m0, self_name)));
            let ghost mt = *m;
            if new.0 != root.0 {
                m.set_binding_rhs(bid, new);
                changed = true;
            }
            proof {
                crate::term::lemma_rewrite_stable(m0, ms, root, alias_map(m0, self_name));
                crate::term::lemma_term_stable(mt, *m, new);
                assert forall|b: BindingId| #[trigger] m.live(b) == m0.live(b) by {
                    assert(m.live(b) == mt.live(b));
                    assert(mt.live(b) == ms.live(b));
                    assert(ms.live(b) == m0.live(b));
                }
                assert forall|b: BindingId| #[trigger] m.live(b) && b != bid implies m.bind(b) == ms.bind(b) by {
                    assert(mt.live(b));
                    if new.0 != root.0 {
                        assert(m.bindings@[b.0 as int] == mt.bindings@[b.0 as int]);
                    }
                }
                assert(m.bind(bid).rhs == new);
                assert forall|b: BindingId| #[trigger] m.live(b) && b.0 >= s + 1 implies m.bind(b) == m0.bind(b) by {
                    assert(b != bid);
                    assert(mt.live(b) == ms.live(b));
                    assert(ms.live(b));
                }
                assert forall|b: BindingId|
                    #[trigger] m.live(b) && b.0 < s + 1 && !is_inputs_binding(m0, b) implies term(*m, m.bind(b).rhs) == rewrite(
                        m0,
                        m0.bind(b).rhs,
                        alias_map(m0, m0.bind(b).name),
                    ) by {
                    if b != bid {
                        assert(ms.live(b));
                        assert(ms.binding_wf(ms.bind(b)));
                        crate::term::lemma_term_stable(ms, *m, ms.bind(b).rhs);
                    }
                }
                assert forall|b: BindingId| #[trigger] m.live(b) && b.0 < s + 1 && is_inputs_binding(m0, b) implies m.bind(b) == m0.bind(b) by {
                    assert(b != bid);
                    assert(ms.live(b));
                }
                assert forall|b: BindingId| #[trigger] m.live(b) implies m.bind(b) == (Binding { rhs: m.bind(b).rhs, ..m0.bind(b) }) by {
                    assert(ms.live(b));
                }
                crate::term::lemma_extends_trans(m0, ms, mt);
                crate::term::lemma_extends_trans(m0, mt, *m);
                if changed && !(exists|b: BindingId| #[trigger] ms.live(b) && b.0 < s && ms.bind(b).rhs != m0.bind(b).rhs) {
                    assert(m.live(bid) && bid.0 < s + 1 && m.bind(bid).rhs != m0.bind(bid).rhs);
                }
                if exists|b: BindingId| #[trigger] m.live(b) && b.0 < s + 1 && m.bind(b).rhs != m0.bind(b).rhs {
                    let b = choose|b: BindingId| #[trigger] m.live(b) && b.0 < s + 1 && m.bind(b).rhs != m0.bind(b).rhs;
                    if b != bid {
                        assert(ms.live(b));
                    }
                }
                if exists|b: BindingId| #[trigger] ms.live(b) && b.0 < s && ms.bind(b).rhs != m0.bind(b).rhs {
                    let b = choose|b: BindingId| #[trigger] ms.live(b) && b.0 < s && ms.bind(b).rhs != m0.bind(b).rhs;
                    assert(m.live(b));
                }
            }
        } else {
            proof {
                if exists|b: BindingId| #[trigger] m.live(b) && b.0 < s + 1 && m.bind(b).rhs != m0.bind(b).rhs {
                    let b = choose|b: BindingId| #[trigger] m.live(b) && b.0 < s + 1 && m.bind(b).rhs != m0.bind(b).rhs;
                    assert(b.0 != s);
                }
                assert forall|b: BindingId| #[trigger] m.live(b) && b.0 < s + 1 && is_inputs_binding(m0, b) implies m.bind(b) == m0.bind(b) by {
                    if b.0 == s {
                        assert(b == BindingId(s));
                    }
                }
                assert forall|b: BindingId|
                    #[trigger] m.live(b) && b.0 < s + 1 && !is_inputs_binding(m0, b) implies term(*m, m.bind(b).rhs) == rewrite(
                        m0,
                        m0.bind(b).rhs,
                        alias_map(m0, m0.bind(b).name),
                    ) by {
                    if b.0 == s {
                        assert(b == BindingId(s));
                    }
                }
            }
        }
        s += 1;
    }
    proof {
        assert forall|b: BindingId| #[trigger] m.live(b) && is_inputs_binding(m0, b) implies m.bind(b) == m0.bind(b) by {
            assert(b.0 < m.bindings@.len());
        }
        assert forall|b: BindingId| #[trigger] m.live(b) && !is_inputs_binding(m0, b) implies term(*m, m.bind(b).rhs) == rewrite(
            m0,
            m0.bind(b).rhs,
            alias_maps(m0)(m0.bind(b).name),
        ) by {
            assert(b.0 < m.bindings@.len());
        }
        if some_rhs_changed(m0, *m) {
            let b = choose|b: BindingId| #[trigger] m.live(b) && m.bind(b).rhs != m0.bind(b).rhs;
            assert(b.0 < s);
        }
    }
    changed
}


/// Node `id` is the sweep's zero literal, `Lit(Real(0.0))` of either sign.
pub open spec fn zeroed_sentinel(m: Module, id: NodeId) -> bool {
    id.0 < m.nodes@.len() && match m.at(id) {
        Node::Lit(Scalar::Real(z)) => z == 0u64 || z == 0x8000_0000_0000_0000u64,
        _ => false,
    }
}

/// Whether `rhs` is already the sweep's zero literal.
pub fn is_zeroed_sentinel(m: &Module, rhs: NodeId) -> (r: bool)
    requires
        rhs.0 < m.nodes@.len(),
    ensures
        r == zeroed_sentinel(*m, rhs),
{
    match m.node(rhs) {
        Node::Lit(Scalar::Real(z)) => *z == 0u64 || *z == 0x8000_0000_0000_0000u64,
        _ => false,
    }
}

/// A binding the synthetic sweep may zero now: not the reserved `inputs`
/// declaration, engine-generated, not public, not already zeroed, and
/// referred to by no other binding.
pub open spec fn sweepable(m: Module, b: BindingId) -> bool {
    &&& m.live(b)
    &&& !is_inputs_binding(m, b)
    &&& !m.bind(b).public
    &&& m.bind(b).synthetic
    &&& !zeroed_sentinel(m, m.bind(b).rhs)
    &&& !referenced(m, b)
}

fn collect_sweepable(m: &Module) -> (dead: Vec<BindingId>)
    requires
        m.wf(),
    ensures
        forall|k: int| 0 <= k < dead@.len() ==> sweepable(*m, #[trigger] dead@[k]),
        forall|b: BindingId| #[trigger] sweepable(*m, b) ==> dead@.contains(b),
{
    let ids = m.binding_ids();
    let mut dead: Vec<BindingId> = Vec::new();
    let mut i: usize = 0;
    while i < ids.len()
        invariant
            m.wf(),
            i <= ids@.len(),
            forall|k: int| 0 <= k < ids@.len() ==> m.live(#[trigger] ids@[k]),
            forall|b: BindingId| #[trigger] m.live(b) ==> ids@.contains(b),
            forall|k: int| 0 <= k < dead@.len() ==> sweepable(*m, #[trigger] dead@[k]),
            forall|k: int| 0 <= k < i && sweepable(*m, #[trigger] ids@[k]) ==> dead@.contains(ids@[k]),
        decreases ids@.len() - i,
    {
        let bid = ids[i];
        let b = m.binding(bid);
        let ghost before = dead@;
        proof {
            assert(m.binding_wf(m.bind(bid)));
        }
        if !is_reserved_abi_binding(m, bid) && !b.public && b.synthetic && !is_zeroed_sentinel(m, b.rhs)
            && !binding_is_referenced(m, bid, b.name) {
            dead.push(bid);
            proof {
                assert(dead@[dead@.len() - 1] == bid);
            }
        }
        proof {
            assert forall|k: int| 0 <= k < i + 1 && sweepable(*m, #[trigger] ids@[k]) implies dead@.contains(ids@[k]) by {
                if k < i {
                    assert(sweepable(*m, ids@[k]));
                    assert(before.contains(ids@[k]));
                    let j = choose|j: int| 0 <= j < before.len() && before[j] == ids@[k];
                    assert(dead@[j] == before[j]);
                } else {
                    assert(dead@[dead@.len() - 1] == bid);
                }
            }
        }
        i += 1;
    }
    proof {
        assert forall|b: BindingId| #[trigger] sweepable(*m, b) implies dead@.contains(b) by {
            assert(ids@.contains(b));
            let k = choose|k: int| 0 <= k < ids@.len() && ids@[k] == b;
            assert(sweepable(*m, ids@[k]));
        }
    }
    dead
}

/// The synthetic-sweep state: every binding keeps its name and flags; the
/// slots in `z` were swept (synthetic, not public, not zeroed before, now
/// holding `0.0` and unreferenced); the others are untouched.
pub open spec fn synth_inv(m0: Module, m: Module, z: Set<int>) -> bool {
    &&& m.wf()
    &&& m.extends(&m0)
    &&& m.bindings@.len() == m0.bindings@.len()
    &&& forall|b: BindingId| #[trigger] m.live(b) == m0.live(b)
    &&& forall|b: BindingId| #[trigger] m.live(b) ==> m.bind(b) == (Binding { rhs: m.bind(b).rhs, ..m0.bind(b) })
    &&& z.finite()
    &&& z.subset_of(vstd::set_lib::set_int_range(0, m0.bindings@.len() as int))
    &&& forall|b: BindingId| #[trigger] m.live(b) && !z.contains(b.0 as int) ==> m.bind(b).rhs == m0.bind(b).rhs
    &&& forall|b: BindingId| #[trigger] m.live(b) && z.contains(b.0 as int) ==> {
        &&& !is_inputs_binding(m0, b)
        &&& !m0.bind(b).public
        &&& m0.bind(b).synthetic
        &&& !zeroed_sentinel(m0, m0.bind(b).rhs)
        &&& zero_lit(m, m.bind(b).rhs)
        &&& m.bind(b).rhs.0 >= m0.nodes@.len()
        &&& !referenced(m, b)
    }
    &&& forall|i: int| #[trigger] z.contains(i) ==> m.live(BindingId(i as usize))
}

/// Zero every engine-generated (`synthetic`), non-public binding other than
/// the reserved `inputs` declaration that no other binding refers to and
/// that is not zeroed already, repeating until a pass zeroes nothing.
/// Returns whether any binding was zeroed.
pub fn sweep_dead_bindings(m: &mut Module) -> (changed: bool)
    requires
        old(m).wf(),
    ensures
        final(m).wf(),
        final(m).extends(old(m)),
        final(m).bindings@.len() == old(m).bindings@.len(),
        forall|b: BindingId| #[trigger] final(m).live(b) == old(m).live(b),
        forall|b: BindingId|
            #[trigger] final(m).live(b) ==> final(m).bind(b) == (Binding { rhs: final(m).bind(b).rhs, ..old(m).bind(b) }),
        forall|b: BindingId|
            #[trigger] final(m).live(b) ==> final(m).bind(b).rhs == old(m).bind(b).rhs || (!is_inputs_binding(*old(m), b) && !old(m).bind(b).public
                && old(m).bind(b).synthetic && !zeroed_sentinel(*old(m), old(m).bind(b).rhs) && zero_lit(
                *final(m),
                final(m).bind(b).rhs,
            ) && !referenced(*final(m), b)),
        forall|b: BindingId| !#[trigger] sweepable(*final(m), b),
        changed == some_rhs_changed(*old(m), *final(m)),
{
    let ghost m0 = *m;
    let ghost mut z: Set<int> = Set::empty();
    let mut changed = false;
    let nb = m.bindings.len();
    proof {
        assert(z.subset_of(vstd::set_lib::set_int_range(0, m0.bindings@.len() as int)));
    }
    loop
        invariant
            m0 == *old(m),
            nb == m0.bindings@.len(),
            m0.wf(),
            synth_inv(m0, *m, z),
            changed == (z.len() > 0),
        decreases m0.bindings@.len() - z.len(),
    {
        let dead = collect_sweepable(m);
        if dead.len() == 0 {
            proof {
                assert forall|b: BindingId| !#[trigger] sweepable(*m, b) by {
                    if sweepable(*m, b) {
                        assert(dead@.contains(b));
                    }
                }
                if z.len() > 0 {
                    vstd::set::axiom_set_choose_len(z);
                    let i = z.choose();
                    assert(z.contains(i));
                    assert(vstd::set_lib::set_int_range(0, m0.bindings@.len() as int).contains(i));
                    let b = BindingId(i as usize);
                    assert(b.0 as int == i);
                    assert(m.live(b));
                    assert(m0.binding_wf(m0.bind(b)));
                    assert(m.bind(b).rhs != m0.bind(b).rhs);
                }
                if some_rhs_changed(m0, *m) {
                    let b = choose|b: BindingId| #[trigger] m.live(b) && m.bind(b).rhs != m0.bind(b).rhs;
                    assert(z.contains(b.0 as int));
                    vstd::set::axiom_set_contains_len(z, b.0 as int);
                }
            }
            return changed;
        }
        let ghost mr = *m;
        let ghost zr = z;
        proof {
            let b0 = dead@[0];
            assert(sweepable(mr, b0));
            if z.contains(b0.0 as int) {
                assert(zero_lit(mr, mr.bind(b0).rhs));
                assert(zeroed_sentinel(mr, mr.bind(b0).rhs));
            }
        }
        let mut k: usize = 0;
        while k < dead.len()
            invariant
                m0.wf(),
                mr.wf(),
                synth_inv(m0, mr, zr),
                synth_inv(m0, *m, z),
                m.extends(&mr),
                forall|j: int| 0 <= j < dead@.len() ==> sweepable(mr, #[trigger] dead@[j]),
                k <= dead@.len(),
                k > 0 ==> z.contains(dead@[0].0 as int),
                zr.subset_of(z),
                forall|b: BindingId| #[trigger] m.live(b) && !referenced(mr, b) ==> !referenced(*m, b),
                forall|b: BindingId| #[trigger] m.live(b) && !z.contains(b.0 as int) ==> m.bind(b) == mr.bind(b),
            decreases dead@.len() - k,
        {
            let bid = dead[k];
            let ghost mk = *m;
            proof {
                assert(sweepable(mr, bid));
                assert(mr.live(bid));
                assert(m0.live(bid));
                assert(mk.live(bid));
            }
            let zero = m.add_node(Node::Lit(Scalar::Real(0)));
            let ghost mz = *m;
            proof {
                assert(mz.live(bid));
            }
            m.set_binding_rhs(bid, zero);
            proof {
                assert forall|x: BindingId| #[trigger] m.live(x) && x != bid implies m.bind(x) == mk.bind(x) by {
                    assert(m.bindings@[x.0 as int] == mz.bindings@[x.0 as int]);
                }
                assert forall|b: BindingId| #[trigger] m.live(b) && !referenced(mr, b) implies !referenced(*m, b) by {
                    assert(mk.live(b));
                    assert(!referenced(mk, b));
                    crate::driver::lemma_zero_keeps_unreferenced(mk, *m, bid, b);
                }
                let z2 = z.insert(bid.0 as int);
                assert(z2.subset_of(vstd::set_lib::set_int_range(0, m0.bindings@.len() as int)));
                assert forall|b: BindingId| #[trigger] m.live(b) && z2.contains(b.0 as int) implies {
                    &&& !is_inputs_binding(m0, b)
                    &&& !m0.bind(b).public
                    &&& m0.bind(b).synthetic
                    &&& !zeroed_sentinel(m0, m0.bind(b).rhs)
                    &&& zero_lit(*m, m.bind(b).rhs)
                    &&& m.bind(b).rhs.0 >= m0.nodes@.len()
                    &&& !referenced(*m, b)
                } by {
                    assert(mk.live(b));
                    if b == bid {
                        if !zr.contains(b.0 as int) {
                            if z.contains(b.0 as int) {
                                assert(!referenced(mk, b));
                                crate::driver::lemma_zero_keeps_unreferenced(mk, *m, bid, b);
                            } else {
                                assert(mk.bind(b) == mr.bind(b));
                                assert(mr.bind(b).rhs == m0.bind(b).rhs);
                                assert(mr.bind(b).rhs.0 < m0.nodes@.len());
                                assert(mr.nodes@[mr.bind(b).rhs.0 as int] == m0.nodes@[mr.bind(b).rhs.0 as int]);
                            }
                        }
                        assert(!referenced(mr, b));
                    } else {
                        assert(m.bind(b) == mk.bind(b));
                        assert(mk.bind(b).rhs.0 < mk.nodes@.len());
                        assert(m.nodes@[mk.bind(b).rhs.0 as int] == mk.nodes@[mk.bind(b).rhs.0 as int]);
                        assert(!referenced(mk, b));
                        crate::driver::lemma_zero_keeps_unreferenced(mk, *m, bid, b);
                    }
                }
                assert forall|b: BindingId| #[trigger] m.live(b) && !z2.contains(b.0 as int) implies m.bind(b).rhs == m0.bind(b).rhs by {
                    assert(mk.live(b));
                    assert(m.bind(b) == mk.bind(b));
                }
                assert forall|b: BindingId| #[trigger] m.live(b) implies m.bind(b) == (Binding { rhs: m.bind(b).rhs, ..m0.bind(b) }) by {
                    assert(mk.live(b));
                }
                assert forall|b: BindingId| #[trigger] m.live(b) && !z2.contains(b.0 as int) implies m.bind(b) == mr.bind(b) by {
                    assert(mk.live(b));
                }
                assert forall|b: BindingId| #[trigger] m.live(b) == m0.live(b) by {
                    assert(m.live(b) == mk.live(b));
                }
                assert forall|i: int| #[trigger] z2.contains(i) implies m.live(BindingId(i as usize)) by {
                    if i != bid.0 as int {
                        assert(mk.live(BindingId(i as usize)));
                    }
                }
                crate::term::lemma_extends_trans(m0, mk, *m);
                crate::term::lemma_extends_trans(mr, mk, *m);
                z = z2;
            }
            k += 1;
        }
        proof {
            vstd::set_lib::lemma_int_range(0, m0.bindings@.len() as int);
            vstd::set_lib::lemma_len_subset(z, vstd::set_lib::set_int_range(0, m0.bindings@.len() as int));
            let b0 = dead@[0];
            assert(!zr.contains(b0.0 as int)) by {
                assert(sweepable(mr, b0));
                if zr.contains(b0.0 as int) {
                    assert(zero_lit(mr, mr.bind(b0).rhs));
                }
            }
            vstd::set_lib::lemma_len_subset(zr.insert(b0.0 as int), z);
            vstd::set::axiom_set_insert_len(zr, b0.0 as int);
        }
        changed = true;
    }
}

} // verus!
