//! Statically-known structural projections: `get(record(…), "k")` and
//! `get0(vector(…), i)` over literal constructors resolve to the element.

use vstd::prelude::*;
use crate::canon::fold::{rhs_rewritten, some_rhs_changed};
use crate::canon::{is_inputs_binding, is_reserved_abi_binding};
use crate::ir::{node_children, node_wf, Binding, BindingId, Call, CallHead, Module, NamedArg, NamedKind, Node, NodeId, Scalar};
use crate::shape::is_builtin_named;
use crate::term::{rewrite, term};
use crate::tree::{leaf_map_ok, map_tree};

verus! {

/// The call at `id` when it is a built-in call named `name`.
pub open spec fn builtin_call_named(m: Module, id: NodeId, name: Seq<char>) -> Option<Call> {
    if is_builtin_named(m, id, name) {
        match m.at(id) {
            Node::Call(c) => Some(c),
            _ => None,
        }
    } else {
        None
    }
}

/// The value of the first `%field` entry named `field`, from entry `k` on.
pub open spec fn find_field_from(m: Module, named: Seq<NamedArg>, field: Seq<char>, k: nat) -> Option<NodeId>
    decreases named.len() - k,
{
    if k >= named.len() {
        None
    } else if named[k as int].kind == NamedKind::Field && m.name_of(named[k as int].name) == field {
        Some(named[k as int].value)
    } else {
        find_field_from(m, named, field, k + 1)
    }
}

/// What a projection node resolves to: `get(record(…), "k")` to the first
/// `%field k` value of the record, `get0(vector(…), i)` to element `i` for
/// an in-range integer literal `i`; anything else to nothing.
pub open spec fn project_spec(m: Module, id: NodeId) -> Option<NodeId> {
    if id.0 >= m.nodes@.len() {
        None
    } else {
        match m.at(id) {
            Node::Call(c) => match c.head {
                CallHead::Builtin(sym) => if m.name_of(sym) == "get"@ && c.args@.len() == 2 {
                    match m.at(c.args@[1]) {
                        Node::Lit(Scalar::Str(f)) => match builtin_call_named(m, c.args@[0], "record"@) {
                            Some(rec) => find_field_from(m, rec.named@, f@, 0),
                            None => None,
                        },
                        _ => None,
                    }
                } else if m.name_of(sym) == "get0"@ && c.args@.len() == 2 {
                    match m.at(c.args@[1]) {
                        Node::Lit(Scalar::Int(i)) => match builtin_call_named(m, c.args@[0], "vector"@) {
                            Some(v) => if 0 <= i < v.args@.len() {
                                Some(v.args@[i as int])
                            } else {
                                None
                            },
                            None => None,
                        },
                        _ => None,
                    }
                } else {
                    None
                },
                CallHead::User(_) => None,
            },
            _ => None,
        }
    }
}

pub open spec fn project_map(m: Module) -> spec_fn(NodeId) -> Option<NodeId> {
    |x: NodeId| project_spec(m, x)
}

/// If `id` is a built-in call named `name`, that call.
pub fn expect_builtin<'a>(m: &'a Module, id: NodeId, name: &str) -> (r: Option<&'a Call>)
    requires
        m.wf(),
        id.0 < m.nodes@.len(),
    ensures
        match r {
            Some(c) => builtin_call_named(*m, id, name@) == Some(*c),
            None => builtin_call_named(*m, id, name@) is None,
        },
{
    crate::shape::expect_builtin_call(m, id, name)
}

pub proof fn lemma_find_field_stable(m1: Module, m2: Module, named: Seq<NamedArg>, field: Seq<char>, k: nat)
    requires
        m2.extends(&m1),
        forall|j: int| 0 <= j < named.len() ==> (#[trigger] named[j]).name.0 < m1.symbols@.len(),
    ensures
        find_field_from(m2, named, field, k) == find_field_from(m1, named, field, k),
    decreases named.len() - k,
{
    if k < named.len() {
        assert(m2.symbols@[named[k as int].name.0 as int]@ == m1.symbols@[named[k as int].name.0 as int]@);
        lemma_find_field_stable(m1, m2, named, field, k + 1);
    }
}

pub proof fn lemma_find_field_below(m: Module, named: Seq<NamedArg>, field: Seq<char>, k: nat, bound: int)
    requires
        forall|j: int| 0 <= j < named.len() ==> (#[trigger] named[j]).value.0 < bound,
    ensures
        find_field_from(m, named, field, k) matches Some(x) ==> x.0 < bound,
    decreases named.len() - k,
{
    if k < named.len() {
        lemma_find_field_below(m, named, field, k + 1, bound);
    }
}

/// A projection resolves to an older node, the same in every grown arena.
pub proof fn lemma_project_stable(m1: Module, m2: Module, id: NodeId)
    requires
        m1.wf(),
        m2.extends(&m1),
        id.0 < m1.nodes@.len(),
    ensures
        project_spec(m2, id) == project_spec(m1, id),
        project_spec(m1, id) matches Some(x) ==> x.0 < id.0,
{
    assert(m2.nodes@[id.0 as int] == m1.nodes@[id.0 as int]);
    assert(node_wf(m1.nodes@[id.0 as int], id.0 as int, m1.symbols@.len()));
    if let Node::Call(c) = m1.at(id) {
        if let CallHead::Builtin(sym) = c.head {
            assert(m2.symbols@[sym.0 as int]@ == m1.symbols@[sym.0 as int]@);
            if c.args@.len() == 2 {
                let a0 = c.args@[0];
                let a1 = c.args@[1];
                assert(node_children(m1.at(id))[0] == a0);
                assert(node_children(m1.at(id))[1] == a1);
                assert(m2.nodes@[a0.0 as int] == m1.nodes@[a0.0 as int]);
                assert(m2.nodes@[a1.0 as int] == m1.nodes@[a1.0 as int]);
                assert(node_wf(m1.nodes@[a0.0 as int], a0.0 as int, m1.symbols@.len()));
                if let Node::Call(r) = m1.at(a0) {
                    if let CallHead::Builtin(s2) = r.head {
                        assert(m2.symbols@[s2.0 as int]@ == m1.symbols@[s2.0 as int]@);
                    }
                    lemma_find_field_stable(m1, m2, r.named@, seq![], 0);
                    if let Node::Lit(Scalar::Str(f)) = m1.at(a1) {
                        lemma_find_field_stable(m1, m2, r.named@, f@, 0);
                        assert forall|j: int| 0 <= j < r.named@.len() implies (#[trigger] r.named@[j]).value.0 < id.0 by {
                            assert(node_children(m1.at(a0))[r.args@.len() + j + (if r.head is User { 1int } else { 0int })] == r.named@[j].value);
                        }
                        lemma_find_field_below(m1, r.named@, f@, 0, id.0 as int);
                    }
                    if let Node::Lit(Scalar::Int(i)) = m1.at(a1) {
                        if 0 <= i < r.args@.len() {
                            assert(node_children(m1.at(a0))[i + (if r.head is User { 1int } else { 0int })] == r.args@[i as int]);
                        }
                    }
                }
            }
        }
    }
}


/// Resolve a statically-known projection at `id` (see [`project_spec`]).
pub fn project(m: &Module, id: NodeId) -> (r: Option<NodeId>)
    requires
        m.wf(),
        id.0 < m.nodes@.len(),
    ensures
        r == project_spec(*m, id),
{
    proof {
        assert(node_wf(m.nodes@[id.0 as int], id.0 as int, m.symbols@.len()));
    }
    let c = match m.node(id) {
        Node::Call(c) => c,
        _ => return None,
    };
    let sym = match c.head {
        CallHead::Builtin(s) => s,
        CallHead::User(_) => return None,
    };
    let name = m.resolve(sym);
    if c.args.len() != 2 {
        return None;
    }
    let container = c.args[0];
    let key = c.args[1];
    proof {
        assert(node_children(m.at(id))[0] == container);
        assert(node_children(m.at(id))[1] == key);
    }
    if crate::ir::str_eq(name, "get") {
        let field = match m.node(key) {
            Node::Lit(Scalar::Str(f)) => f,
            _ => return None,
        };
        let rec = match expect_builtin(m, container, "record") {
            Some(r) => r,
            None => return None,
        };
        proof {
            assert(node_wf(m.nodes@[container.0 as int], container.0 as int, m.symbols@.len()));
            assert(project_spec(*m, id) == find_field_from(*m, rec.named@, field@, 0));
        }
        let mut k: usize = 0;
        while k < rec.named.len()
            invariant
                m.wf(),
                project_spec(*m, id) == find_field_from(*m, rec.named@, field@, 0),
                container.0 < m.nodes@.len(),
                m.at(container) == Node::Call(*rec),
                crate::ir::node_symbols_ok(m.at(container), m.symbols@.len()),
                k <= rec.named@.len(),
                find_field_from(*m, rec.named@, field@, 0) == find_field_from(*m, rec.named@, field@, k as nat),
            decreases rec.named@.len() - k,
        {
            let na = rec.named[k];
            proof {
                assert(na == rec.named@[k as int]);
                assert(node_children(m.at(container))[rec.args@.len() + k + (if rec.head is User { 1int } else { 0int })] == na.value);
            }
            if na.kind == NamedKind::Field && crate::ir::str_eq(m.resolve(na.name), field.as_str()) {
                proof {
                    assert(m.name_of(na.name) == field@);
                    assert(find_field_from(*m, rec.named@, field@, k as nat) == Some(na.value));
                }
                return Some(na.value);
            }
            k += 1;
        }
        None
    } else if crate::ir::str_eq(name, "get0") {
        let i = match m.node(key) {
            Node::Lit(Scalar::Int(i)) => *i,
            _ => return None,
        };
        let vec = match expect_builtin(m, container, "vector") {
            Some(v) => v,
            None => return None,
        };
        if i < 0 {
            return None;
        }
        let iu: u64 = i as u64;
        if iu >= vec.args.len() as u64 {
            return None;
        }
        Some(vec.args[iu as usize])
    } else {
        None
    }
}

/// Resolve every statically-known projection in every binding (see
/// [`project_spec`]). Returns whether any right-hand side changed.
pub fn flatten_structural(m: &mut Module) -> (changed: bool)
    requires
        old(m).wf(),
    ensures
        final(m).wf(),
        final(m).extends(old(m)),
        rhs_rewritten(*old(m), *final(m), |s: crate::ir::Symbol| project_map(*old(m))),
        changed == some_rhs_changed(*old(m), *final(m)),
{
    let ghost m0 = *m;
    let ghost bound = m.nodes@.len();
    let ghost fam = |s: crate::ir::Symbol| project_map(m0);
    let mut changed = false;
    let mut s: usize = 0;
    while s < m.bindings.len()
        invariant
            m0.wf(),
            m.wf(),
            m.extends(&m0),
            bound == m0.nodes@.len(),
            fam == (|s: crate::ir::Symbol| project_map(m0)),
            s <= m.bindings@.len(),
            m.bindings@.len() == m0.bindings@.len(),
            forall|b: BindingId| #[trigger] m.live(b) == m0.live(b),
            forall|b: BindingId|
                #[trigger] m.live(b) ==> m.bind(b) == (Binding { rhs: m.bind(b).rhs, ..m0.bind(b) }),
            forall|b: BindingId| #[trigger] m.live(b) && b.0 >= s ==> m.bind(b) == m0.bind(b),
            forall|b: BindingId| #[trigger] m.live(b) && b.0 < s && is_inputs_binding(m0, b) ==> m.bind(b) == m0.bind(b),
            forall|b: BindingId|
                #[trigger] m.live(b) && b.0 < s && !is_inputs_binding(m0, b) ==> term(*m, m.bind(b).rhs) == rewrite(
                    m0,
                    m0.bind(b).rhs,
                    project_map(m0),
                ),
            changed == exists|b: BindingId| #[trigger] m.live(b) && b.0 < s && m.bind(b).rhs != m0.bind(b).rhs,
        decreases m.bindings@.len() - s,
    {
        let ghost ms = *m;
        let reserved = m.bindings[s].is_some() && is_reserved_abi_binding(m, BindingId(s));
        proof {
            if m.bindings@[s as int] is Some {
                assert(ms.live(BindingId(s)));
                assert(m0.binding_wf(m0.bind(BindingId(s))));
                assert(m.name_of(m.bind(BindingId(s)).name) == m0.name_of(m0.bind(BindingId(s)).name));
            }
        }
        if m.bindings[s].is_some() && !reserved {
            let bid = BindingId(s);
            proof {
                assert(m.live(bid));
                assert(m0.live(bid));
                assert(m0.binding_wf(m0.bind(bid)));
                assert(!is_inputs_binding(m0, bid));
            }
            let root = m.binding(bid).rhs;
            let gm0: Ghost<Module> = Ghost(m0);
            let gb: Ghost<nat> = Ghost(bound);
            let f = |mm: &Module, id: NodeId| -> (r: Option<NodeId>)
                requires
                    mm.wf(),
                    mm.extends(&gm0@),
                    gm0@.wf(),
                    id.0 < gb@,
                    gb@ == gm0@.nodes@.len(),
                ensures
                    r == project_map(gm0@)(id),
                {
                    proof {
                        lemma_project_stable(gm0@, *mm, id);
                    }
                    project(mm, id)
                };
            proof {
                assert forall|x: NodeId| #[trigger] project_map(m0)(x) is Some implies project_map(m0)(x).unwrap().0 < bound by {
                    lemma_project_stable(m0, m0, x);
                }
                assert(leaf_map_ok(f, ms, bound, project_map(m0))) by {
                    assert forall|mm: Module, id: NodeId, r: Option<NodeId>|
                        mm.extends(&ms) && id.0 < bound && call_ensures(f, (&mm, id), r) implies r == project_map(m0)(id) by {
                        crate::term::lemma_extends_trans(m0, ms, mm);
                    }
                    assert forall|mm: Module, id: NodeId|
                        mm.wf() && mm.extends(&ms) && id.0 < bound implies call_requires(f, (&mm, id)) by {
                        crate::term::lemma_extends_trans(m0, ms, mm);
                    }
                }
            }
            let new = map_tree(m, root, &f, Ghost(bound), Ghost(project_map(m0)));
            let ghost mt = *m;
            if new.0 != root.0 {
                m.set_binding_rhs(bid, new);
                changed = true;
            }
            proof {
                crate::term::lemma_rewrite_stable(m0, ms, root, project_map(m0));
                crate::term::lemma_term_stable(mt, *m, new);
                assert forall|b: BindingId| #[trigger] m.live(b) == m0.live(b) by {
                    assert(m.live(b) == mt.live(b));
                    assert(mt.live(b) == ms.live(b));
                    assert(ms.live(b) == m0.live(b));
                }
                assert forall|b: BindingId| #[trigger] m.live(b) && b != bid implies m.bind(b) == ms.bind(b) by {
                    assert(mt.live(b));
                    if new.0 != root.0 {
                        assert(m.bindings@[b.0 as int] == mt.bindings@[b.0 as int]);
                    }
                }
                assert(m.bind(bid).rhs == new);
                assert forall|b: BindingId| #[trigger] m.live(b) && b.0 >= s + 1 implies m.bind(b) == m0.bind(b) by {
                    assert(b != bid);
                    assert(mt.live(b) == ms.live(b));
                    assert(ms.live(b));
                }
                assert forall|b: BindingId|
                    #[trigger] m.live(b) && b.0 < s + 1 && !is_inputs_binding(m0, b) implies term(*m, m.bind(b).rhs) == rewrite(
                        m0,
                        m0.bind(b).rhs,
                        project_map(m0),
                    ) by {
                    if b != bid {
                        assert(ms.live(b));
                        assert(ms.binding_wf(ms.bind(b)));
                        crate::term::lemma_term_stable(ms, *m, ms.bind(b).rhs);
                    }
                }
                assert forall|b: BindingId| #[trigger] m.live(b) && b.0 < s + 1 && is_inputs_binding(m0, b) implies m.bind(b) == m0.bind(b) by {
                    assert(b != bid);
                    assert(ms.live(b));
                }
                assert forall|b: BindingId| #[trigger] m.live(b) implies m.bind(b) == (Binding { rhs: m.bind(b).rhs, ..m0.bind(b) }) by {
                    assert(ms.live(b));
                }
                crate::term::lemma_extends_trans(m0, ms, mt);
                crate::term::lemma_extends_trans(m0, mt, *m);
                if changed && !(exists|b: BindingId| #[trigger] ms.live(b) && b.0 < s && ms.bind(b).rhs != m0.bind(b).rhs) {
                    assert(m.live(bid) && bid.0 < s + 1 && m.bind(bid).rhs != m0.bind(bid).rhs);
                }
                if exists|b: BindingId| #[trigger] m.live(b) && b.0 < s + 1 && m.bind(b).rhs != m0.bind(b).rhs {
                    let b = choose|b: BindingId| #[trigger] m.live(b) && b.0 < s + 1 && m.bind(b).rhs != m0.bind(b).rhs;
                    if b != bid {
                        assert(ms.live(b));
                    }
                }
                if exists|b: BindingId| #[trigger] ms.live(b) && b.0 < s && ms.bind(b).rhs != m0.bind(b).rhs {
                    let b = choose|b: BindingId| #[trigger] ms.live(b) && b.0 < s && ms.bind(b).rhs != m0.bind(b).rhs;
                    assert(m.live(b));
                }
            }
        } else {
            proof {
                if exists|b: BindingId| #[trigger] m.live(b) && b.0 < s + 1 && m.bind(b).rhs != m0.bind(b).rhs {
                    let b = choose|b: BindingId| #[trigger] m.live(b) && b.0 < s + 1 && m.bind(b).rhs != m0.bind(b).rhs;
                    assert(b.0 != s);
                }
                assert forall|b: BindingId| #[trigger] m.live(b) && b.0 < s + 1 && is_inputs_binding(m0, b) implies m.bind(b) == m0.bind(b) by {
                    if b.0 == s {
                        assert(b == BindingId(s));
                    }
                }
                assert forall|b: BindingId|
                    #[trigger] m.live(b) && b.0 < s + 1 && !is_inputs_binding(m0, b) implies term(*m, m.bind(b).rhs) == rewrite(
                        m0,
                        m0.bind(b).rhs,
                        project_map(m0),
                    ) by {
                    if b.0 == s {
                        assert(b == BindingId(s));
                    }
                }
            }
        }
        s += 1;
    }
    proof {
        assert forall|b: BindingId| #[trigger] m.live(b) && is_inputs_binding(m0, b) implies m.bind(b) == m0.bind(b) by {
            assert(b.0 < m.bindings@.len());
        }
        assert forall|b: BindingId| #[trigger] m.live(b) && !is_inputs_binding(m0, b) implies term(*m, m.bind(b).rhs) == rewrite(
            m0,
            m0.bind(b).rhs,
            fam(m0.bind(b).name),
        ) by {
            assert(b.0 < m.bindings@.len());
        }
        if some_rhs_changed(m0, *m) {
            let b = choose|b: BindingId| #[trigger] m.live(b) && m.bind(b).rhs != m0.bind(b).rhs;
            assert(b.0 < s);
        }
    }
    changed
}

} // verus!
