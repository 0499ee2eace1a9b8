//! The FlatPDL conformance check over an inferred module: no measure- or
//! likelihood-typed node, a kernel-typed node only inside a `builtin_*`
//! call, no stochastic phase, no failed type, no dangling self reference,
//! no free name, no residual user call and no mis-arity `builtin_*`
//! primitive.

use vstd::prelude::*;
use vstd::string::*;
use crate::ir::{node_children, node_wf, BindingId, CallHead, Inputs, Module, Node, NodeId, Phase, RefNs, Symbol, Type};
use crate::reach::{in_subtree, subtree_nodes};
use crate::refuse::{NonConformKind, NonConformance};
use crate::text::{decimal, decimal_string};

verus! {

/// What the inference crate reports about names and calls, as tables: per
/// symbol, whether it names a built-in of the `base` namespace and whether
/// it names a distribution constructor usable as a kernel tag; per node,
/// the node in the kernel-tag slot of that call, if it has one.
pub struct NameTables {
    pub base: Vec<bool>,
    pub kernel_tag: Vec<bool>,
    pub tag_node: Vec<Option<NodeId>>,
}

impl NameTables {
    /// The tables cover the module's symbols and nodes, and a tag slot is a
    /// node of the arena.
    pub open spec fn covers(&self, m: Module) -> bool {
        &&& self.base@.len() == m.symbols@.len()
        &&& self.kernel_tag@.len() == m.symbols@.len()
        &&& self.tag_node@.len() == m.nodes@.len()
        &&& forall|i: int|
            0 <= i < self.tag_node@.len() ==> (#[trigger] self.tag_node@[i] matches Some(t) ==> t.0
                < m.nodes@.len())
    }
}

/// Required argument count of a `builtin_*` primitive and whether it is a
/// minimum: three for the five fixed-arity primitives, at least three for
/// `builtin_sample`; no entry for any other name.
pub open spec fn primitive_arity(name: Seq<char>) -> Option<(nat, bool)> {
    if name == "builtin_logdensityof"@ || name == "builtin_touniform"@ || name == "builtin_fromuniform"@
        || name == "builtin_tonormal"@ || name == "builtin_fromnormal"@ {
        Some((3, false))
    } else if name == "builtin_sample"@ {
        Some((3, true))
    } else {
        None
    }
}

/// The arity table of the six `builtin_*` primitives (see [`primitive_arity`]).
pub fn builtin_primitive_arity(name: &str) -> (r: Option<(usize, bool)>)
    ensures
        match r {
            Some((n, v)) => primitive_arity(name@) == Some((n as nat, v)),
            None => primitive_arity(name@) is None,
        },
{
    if crate::ir::str_eq(name, "builtin_logdensityof") || crate::ir::str_eq(name, "builtin_touniform")
        || crate::ir::str_eq(name, "builtin_fromuniform") || crate::ir::str_eq(name, "builtin_tonormal")
        || crate::ir::str_eq(name, "builtin_fromnormal") {
        Some((3, false))
    } else if crate::ir::str_eq(name, "builtin_sample") {
        Some((3, true))
    } else {
        None
    }
}

// ---------------------------------------------------------------------------
// Kernel-tag slots
// ---------------------------------------------------------------------------

/// Node `id` sits in the kernel-tag slot of some call reachable from a live
/// binding.
pub open spec fn is_tag_slot(m: Module, t: NameTables, id: NodeId) -> bool {
    exists|b: BindingId, x: NodeId|
        #[trigger] m.live(b) && #[trigger] in_subtree(m, m.bind(b).rhs, x) && x.0 < m.nodes@.len()
            && m.at(x) is Call && t.tag_node@[x.0 as int] == Some(id)
}

/// The kernel-tag slots of the calls reachable from the bindings, as a mark
/// per node.
pub fn kernel_tag_slots(m: &Module, t: &NameTables) -> (tags: Vec<bool>)
    requires
        m.wf(),
        t.covers(*m),
    ensures
        tags@.len() == m.nodes@.len(),
        forall|id: NodeId| id.0 < m.nodes@.len() ==> #[trigger] tags@[id.0 as int] == is_tag_slot(*m, *t, id),
{
    let mut tags: Vec<bool> = Vec::new();
    let mut i: usize = 0;
    while i < m.nodes.len()
        invariant
            i <= m.nodes@.len(),
            tags@.len() == i,
            forall|k: int| 0 <= k < i ==> !#[trigger] tags@[k],
        decreases m.nodes@.len() - i,
    {
        tags.push(false);
        i += 1;
    }
    let mut s: usize = 0;
    while s < m.bindings.len()
        invariant
            m.wf(),
            t.covers(*m),
            s <= m.bindings@.len(),
            tags@.len() == m.nodes@.len(),
            forall|id: NodeId|
                id.0 < m.nodes@.len() ==> #[trigger] tags@[id.0 as int] == exists|b: BindingId, x: NodeId|
                    b.0 < s && #[trigger] m.live(b) && #[trigger] in_subtree(*m, m.bind(b).rhs, x) && x.0
                        < m.nodes@.len() && m.at(x) is Call && t.tag_node@[x.0 as int] == Some(id),
        decreases m.bindings@.len() - s,
    {
        let ghost before = tags@;
        if m.bindings[s].is_some() {
            let bid = BindingId(s);
            proof {
                assert(m.live(bid));
                assert(m.binding_wf(m.bind(bid)));
            }
            let rhs = m.binding(bid).rhs;
            let nodes = subtree_nodes(m, rhs);
            let mut k: usize = 0;
            while k < nodes.len()
                invariant
                    m.wf(),
                    t.covers(*m),
                    m.live(bid),
                    rhs == m.bind(bid).rhs,
                    k <= nodes@.len(),
                    tags@.len() == m.nodes@.len(),
                    forall|j: int|
                        0 <= j < nodes@.len() ==> (#[trigger] nodes@[j]).0 < m.nodes@.len() && in_subtree(
                            *m,
                            rhs,
                            nodes@[j],
                        ),
                    forall|id: NodeId|
                        id.0 < m.nodes@.len() ==> #[trigger] tags@[id.0 as int] == (before[id.0 as int] || exists|j: int|
                            0 <= j < k && m.at(#[trigger] nodes@[j]) is Call && t.tag_node@[nodes@[j].0 as int] == Some(id)),
                decreases nodes@.len() - k,
            {
                let x = nodes[k];
                let ghost tk = tags@;
                if let Node::Call(_) = m.node(x) {
                    if let Some(tg) = t.tag_node[x.0] {
                        tags.set(tg.0, true);
                    }
                }
                proof {
                    assert forall|id: NodeId| id.0 < m.nodes@.len() implies #[trigger] tags@[id.0 as int] == (before[id.0 as int] || exists|j: int|
                        0 <= j < k + 1 && m.at(#[trigger] nodes@[j]) is Call && t.tag_node@[nodes@[j].0 as int] == Some(id)) by {
                        let hit = m.at(x) is Call && t.tag_node@[x.0 as int] == Some(id);
                        if m.at(x) is Call && t.tag_node@[x.0 as int] is Some {
                            let tg = t.tag_node@[x.0 as int].unwrap();
                            if tg.0 != id.0 {
                                assert(tg != id);
                            }
                        }
                        assert(tags@[id.0 as int] == (tk[id.0 as int] || hit));
                        if hit {
                            assert(nodes@[k as int] == x);
                        }
                    }
                }
                k += 1;
            }
            proof {
                assert forall|id: NodeId|
                    id.0 < m.nodes@.len() implies #[trigger] tags@[id.0 as int] == exists|b: BindingId, x: NodeId|
                        b.0 < s + 1 && #[trigger] m.live(b) && #[trigger] in_subtree(*m, m.bind(b).rhs, x) && x.0
                            < m.nodes@.len() && m.at(x) is Call && t.tag_node@[x.0 as int] == Some(id) by {
                    if exists|j: int|
                        0 <= j < nodes@.len() && m.at(#[trigger] nodes@[j]) is Call && t.tag_node@[nodes@[j].0 as int] == Some(id) {
                        let j = choose|j: int|
                            0 <= j < nodes@.len() && m.at(#[trigger] nodes@[j]) is Call && t.tag_node@[nodes@[j].0 as int] == Some(id);
                        assert(in_subtree(*m, m.bind(bid).rhs, nodes@[j]));
                    }
                    if exists|b: BindingId, x: NodeId|
                        b.0 < s + 1 && #[trigger] m.live(b) && #[trigger] in_subtree(*m, m.bind(b).rhs, x) && x.0
                            < m.nodes@.len() && m.at(x) is Call && t.tag_node@[x.0 as int] == Some(id) {
                        let (b, x) = choose|b: BindingId, x: NodeId|
                            b.0 < s + 1 && #[trigger] m.live(b) && #[trigger] in_subtree(*m, m.bind(b).rhs, x) && x.0
                                < m.nodes@.len() && m.at(x) is Call && t.tag_node@[x.0 as int] == Some(id);
                        if b.0 == s {
                            assert(b == bid);
                            assert(nodes@.contains(x));
                            let j = choose|j: int| 0 <= j < nodes@.len() && nodes@[j] == x;
                            assert(m.at(nodes@[j]) is Call);
                        }
                    }
                }
            }
        } else {
            proof {
                assert forall|id: NodeId|
                    id.0 < m.nodes@.len() implies #[trigger] tags@[id.0 as int] == exists|b: BindingId, x: NodeId|
                        b.0 < s + 1 && #[trigger] m.live(b) && #[trigger] in_subtree(*m, m.bind(b).rhs, x) && x.0
                            < m.nodes@.len() && m.at(x) is Call && t.tag_node@[x.0 as int] == Some(id) by {
                    if exists|b: BindingId, x: NodeId|
                        b.0 < s + 1 && #[trigger] m.live(b) && #[trigger] in_subtree(*m, m.bind(b).rhs, x) && x.0
                            < m.nodes@.len() && m.at(x) is Call && t.tag_node@[x.0 as int] == Some(id) {
                        let (b, x) = choose|b: BindingId, x: NodeId|
                            b.0 < s + 1 && #[trigger] m.live(b) && #[trigger] in_subtree(*m, m.bind(b).rhs, x) && x.0
                                < m.nodes@.len() && m.at(x) is Call && t.tag_node@[x.0 as int] == Some(id);
                        assert(b.0 != s);
                    }
                }
            }
        }
        s += 1;
    }
    proof {
        assert forall|id: NodeId| id.0 < m.nodes@.len() implies #[trigger] tags@[id.0 as int] == is_tag_slot(*m, *t, id) by {
            if is_tag_slot(*m, *t, id) {
                let (b, x) = choose|b: BindingId, x: NodeId|
                    #[trigger] m.live(b) && #[trigger] in_subtree(*m, m.bind(b).rhs, x) && x.0 < m.nodes@.len()
                        && m.at(x) is Call && t.tag_node@[x.0 as int] == Some(id);
                assert(b.0 < m.bindings@.len());
            }
        }
    }
    tags
}


// ---------------------------------------------------------------------------
// Violations
// ---------------------------------------------------------------------------

/// A violation as plain values: node, kind and reason text.
pub type Violation = (NodeId, NonConformKind, Seq<char>);

pub open spec fn nc_view(v: NonConformance) -> Violation {
    (v.node, v.kind, v.reason@)
}

pub open spec fn viol_view(v: Seq<NonConformance>) -> Seq<Violation> {
    v.map_values(|x: NonConformance| nc_view(x))
}

/// The enclosing call is a `builtin_*` primitive.
pub open spec fn in_builtin(parent: Option<Seq<char>>) -> bool {
    match parent {
        Some(h) => h.len() >= 8 && h.subrange(0, 8) == "builtin_"@,
        None => false,
    }
}

pub open spec fn phase_violations(m: Module, id: NodeId) -> Seq<Violation> {
    if m.phases@[id.0 as int] == Some(Phase::Stochastic) {
        seq![(id, NonConformKind::StochasticPhase, "stochastic-phase node (a `draw` survives)"@)]
    } else {
        seq![]
    }
}

pub open spec fn type_violations(m: Module, id: NodeId, parent: Option<Seq<char>>) -> Seq<Violation> {
    match m.types@[id.0 as int] {
        Some(Type::Measure { .. }) => seq![(id, NonConformKind::MeasureTyped, "measure-typed node"@)],
        Some(Type::Likelihood) => seq![(id, NonConformKind::LikelihoodTyped, "likelihood-typed node"@)],
        Some(Type::Kernel) => if in_builtin(parent) {
            seq![]
        } else {
            seq![(id, NonConformKind::KernelNotBuiltinArg, "kernel outside a builtin_* argument"@)]
        },
        Some(Type::Failed(reason)) => seq![(id, NonConformKind::Failed, reason@)],
        _ => seq![],
    }
}

pub open spec fn dangling_text(m: Module, name: Symbol) -> Seq<char> {
    "dangling (%ref self "@ + m.name_of(name) + ") — no binding of that name in the module"@
}

pub open spec fn dangling_violations(m: Module, id: NodeId) -> Seq<Violation> {
    match m.at(id) {
        Node::Ref(r) => if r.ns == RefNs::SelfMod && !m.has_binding_named(r.name) {
            seq![(id, NonConformKind::DanglingSelfRef, dangling_text(m, r.name))]
        } else {
            seq![]
        },
        _ => seq![],
    }
}

/// The name a node spells in the `base` namespace, with what kind of
/// spelling it is: a bare atom, or a built-in call head.
pub open spec fn spelled_name(m: Module, id: NodeId) -> Option<(Symbol, Seq<char>)> {
    match m.at(id) {
        Node::Const(s) => Some((s, "free variable"@)),
        Node::Call(c) => match c.head {
            CallHead::Builtin(op) => Some((op, "free call head"@)),
            CallHead::User(_) => None,
        },
        _ => None,
    }
}

pub open spec fn free_text(m: Module, what: Seq<char>, s: Symbol) -> Seq<char> {
    what + " `"@ + m.name_of(s) + "` — names no built-in and no binding"@
}

pub open spec fn free_violations(m: Module, t: NameTables, id: NodeId) -> Seq<Violation> {
    match spelled_name(m, id) {
        Some((s, what)) => if !(is_tag_slot(m, t, id) && t.kernel_tag@[s.0 as int]) && !t.base@[s.0 as int] {
            seq![(id, NonConformKind::FreeBareName, free_text(m, what, s))]
        } else {
            seq![]
        },
        None => seq![],
    }
}

pub open spec fn user_text() -> Seq<char> {
    "residual user call — FlatPDL admits deterministic ops and the six builtin_* primitives only"@
}

pub open spec fn arity_text(name: Seq<char>, want: nat, variadic: bool, got: nat) -> Seq<char> {
    name + " takes "@ + (if variadic {
        "at least "@
    } else {
        ""@
    }) + decimal(want) + " arguments, got "@ + decimal(got)
}

pub open spec fn input_text(m: Module, input: Symbol, name: Symbol) -> Seq<char> {
    "dangling reification input `"@ + m.name_of(input) + "` = (%ref self "@ + m.name_of(name)
        + ") — no binding of that name in the module"@
}

/// The dangling reification-input violations of the first `n` entries.
pub open spec fn input_violations(m: Module, id: NodeId, e: Seq<(Symbol, crate::ir::Ref)>, n: nat) -> Seq<Violation>
    decreases n,
{
    if n == 0 || n > e.len() {
        seq![]
    } else {
        let (nm, r) = e[n - 1];
        input_violations(m, id, e, (n - 1) as nat) + if r.ns == RefNs::SelfMod && !m.has_binding_named(r.name) {
            seq![(id, NonConformKind::DanglingSelfRef, input_text(m, nm, r.name))]
        } else {
            seq![]
        }
    }
}

pub open spec fn call_violations(m: Module, id: NodeId) -> Seq<Violation> {
    match m.at(id) {
        Node::Call(c) => {
            let user = if c.head is User {
                seq![(id, NonConformKind::ResidualUserCall, user_text())]
            } else {
                seq![]
            };
            let arity = match c.head {
                CallHead::Builtin(op) => match primitive_arity(m.name_of(op)) {
                    Some((want, variadic)) => {
                        let got = c.args@.len() + c.named@.len();
                        if got < want || (!variadic && got > want) {
                            seq![(id, NonConformKind::BuiltinArity, arity_text(m.name_of(op), want, variadic, got))]
                        } else {
                            seq![]
                        }
                    },
                    None => seq![],
                },
                CallHead::User(_) => seq![],
            };
            let inputs = match c.inputs {
                Some(Inputs::Spec(e)) => input_violations(m, id, e@, e@.len()),
                _ => seq![],
            };
            user + arity + inputs
        },
        _ => seq![],
    }
}

/// The violations node `id` itself commits, under a parent call named
/// `parent`, in the order they are reported.
pub open spec fn own_violations(m: Module, t: NameTables, id: NodeId, parent: Option<Seq<char>>) -> Seq<Violation> {
    phase_violations(m, id) + type_violations(m, id, parent) + dangling_violations(m, id) + free_violations(
        m,
        t,
        id,
    ) + call_violations(m, id)
}

/// The built-in head name of `id`, passed to its children as their parent.
pub open spec fn this_builtin(m: Module, id: NodeId) -> Option<Seq<char>> {
    match crate::shape::builtin_of(m, id) {
        Some(s) => Some(m.name_of(s)),
        None => None,
    }
}

/// Every violation in the subtree at `id`, pre-order: the node's own, then
/// each child's subtree in walk order.
pub open spec fn violations(m: Module, t: NameTables, id: NodeId, parent: Option<Seq<char>>) -> Seq<Violation>
    decreases id.0, 1nat, 0nat,
{
    if id.0 >= m.nodes@.len() {
        seq![]
    } else {
        own_violations(m, t, id, parent) + kids_violations(m, t, id, node_children(m.at(id)).len())
    }
}

/// The violations in the subtrees of the first `n` children of `id`.
pub open spec fn kids_violations(m: Module, t: NameTables, id: NodeId, n: nat) -> Seq<Violation>
    decreases id.0, 0nat, n,
{
    if n == 0 || id.0 >= m.nodes@.len() {
        seq![]
    } else {
        let ch = node_children(m.at(id));
        kids_violations(m, t, id, (n - 1) as nat) + if n <= ch.len() && ch[n - 1].0 < id.0 {
            violations(m, t, ch[n - 1], this_builtin(m, id))
        } else {
            seq![]
        }
    }
}

/// Every violation of the module: each live binding's right-hand side in
/// slot order, the first `n` slots.
pub open spec fn module_violations(m: Module, t: NameTables, n: nat) -> Seq<Violation>
    decreases n,
{
    if n == 0 || n > m.bindings@.len() {
        seq![]
    } else {
        module_violations(m, t, (n - 1) as nat) + match m.bindings@[n - 1] {
            Some(b) => violations(m, t, b.rhs, None),
            None => seq![],
        }
    }
}

/// Every violation of the module.
pub open spec fn all_violations(m: Module, t: NameTables) -> Seq<Violation> {
    module_violations(m, t, m.bindings@.len())
}

pub open spec fn opt_view(o: Option<&str>) -> Option<Seq<char>> {
    match o {
        Some(s) => Some(s@),
        None => None,
    }
}

fn push_violation(bad: &mut Vec<NonConformance>, node: NodeId, kind: NonConformKind, reason: String)
    ensures
        viol_view(final(bad)@) == viol_view(old(bad)@).push((node, kind, reason@)),
{
    bad.push(NonConformance { node, kind, reason });
    proof {
        assert(viol_view(bad@) =~= viol_view(old(bad)@).push((node, kind, reason@)));
    }
}

/// Whether `h` starts with `builtin_`.
fn starts_builtin(h: &str) -> (r: bool)
    ensures
        r == (h@.len() >= 8 && h@.subrange(0, 8) == "builtin_"@),
{
    let n = h.unicode_len();
    if n < 8 {
        false
    } else {
        crate::ir::str_eq(h.substring_char(0, 8), "builtin_")
    }
}


/// The per-node tag marks [`kernel_tag_slots`] computes.
pub open spec fn tags_ok(m: Module, t: NameTables, tags: Seq<bool>) -> bool {
    &&& tags.len() == m.nodes@.len()
    &&& forall|id: NodeId| id.0 < m.nodes@.len() ==> #[trigger] tags[id.0 as int] == is_tag_slot(m, t, id)
}

fn push_phase(m: &Module, id: NodeId, bad: &mut Vec<NonConformance>)
    requires
        m.wf(),
        id.0 < m.nodes@.len(),
    ensures
        viol_view(final(bad)@) == viol_view(old(bad)@) + phase_violations(*m, id),
{
    if m.phase_of(id) == Some(Phase::Stochastic) {
        proof {
            reveal_strlit("stochastic-phase node (a `draw` survives)");
        }
        push_violation(bad, id, NonConformKind::StochasticPhase, String::from_str("stochastic-phase node (a `draw` survives)"));
        proof {
            assert(viol_view(bad@) =~= viol_view(old(bad)@) + phase_violations(*m, id));
        }
    } else {
        proof {
            assert(viol_view(bad@) =~= viol_view(old(bad)@) + phase_violations(*m, id));
        }
    }
}

fn push_type(m: &Module, id: NodeId, parent: Option<&str>, bad: &mut Vec<NonConformance>)
    requires
        m.wf(),
        id.0 < m.nodes@.len(),
    ensures
        viol_view(final(bad)@) == viol_view(old(bad)@) + type_violations(*m, id, opt_view(parent)),
{
    let ghost v0 = viol_view(bad@);
    match m.type_of(id) {
        Some(Type::Measure { .. }) => {
            proof {
                reveal_strlit("measure-typed node");
            }
            push_violation(bad, id, NonConformKind::MeasureTyped, String::from_str("measure-typed node"));
        },
        Some(Type::Likelihood) => {
            proof {
                reveal_strlit("likelihood-typed node");
            }
            push_violation(bad, id, NonConformKind::LikelihoodTyped, String::from_str("likelihood-typed node"));
        },
        Some(Type::Kernel) => {
            let inside = match parent {
                Some(h) => starts_builtin(h),
                None => false,
            };
            if !inside {
                proof {
                    reveal_strlit("kernel outside a builtin_* argument");
                }
                push_violation(bad, id, NonConformKind::KernelNotBuiltinArg, String::from_str("kernel outside a builtin_* argument"));
            }
        },
        Some(Type::Failed(reason)) => {
            push_violation(bad, id, NonConformKind::Failed, reason.clone());
        },
        _ => {},
    }
    proof {
        assert(viol_view(bad@) =~= v0 + type_violations(*m, id, opt_view(parent)));
    }
}

fn push_dangling(m: &Module, id: NodeId, bad: &mut Vec<NonConformance>)
    requires
        m.wf(),
        id.0 < m.nodes@.len(),
    ensures
        viol_view(final(bad)@) == viol_view(old(bad)@) + dangling_violations(*m, id),
{
    let ghost v0 = viol_view(bad@);
    proof {
        assert(node_wf(m.nodes@[id.0 as int], id.0 as int, m.symbols@.len()));
    }
    if let Node::Ref(r) = m.node(id) {
        if r.ns == RefNs::SelfMod && m.binding_by_name(r.name).is_none() {
            let mut reason = String::from_str("dangling (%ref self ");
            reason.append(m.resolve(r.name));
            reason.append(") — no binding of that name in the module");
            proof {
                reveal_strlit("dangling (%ref self ");
                reveal_strlit(") — no binding of that name in the module");
            }
            push_violation(bad, id, NonConformKind::DanglingSelfRef, reason);
        }
    }
    proof {
        assert(viol_view(bad@) =~= v0 + dangling_violations(*m, id));
    }
}

fn push_free(m: &Module, t: &NameTables, id: NodeId, tags: &Vec<bool>, bad: &mut Vec<NonConformance>)
    requires
        m.wf(),
        t.covers(*m),
        tags_ok(*m, *t, tags@),
        id.0 < m.nodes@.len(),
    ensures
        viol_view(final(bad)@) == viol_view(old(bad)@) + free_violations(*m, *t, id),
{
    let ghost v0 = viol_view(bad@);
    proof {
        assert(node_wf(m.nodes@[id.0 as int], id.0 as int, m.symbols@.len()));
        reveal_strlit("free variable");
        reveal_strlit("free call head");
    }
    let named: Option<(crate::ir::Symbol, &str)> = match m.node(id) {
        Node::Const(sym) => Some((*sym, "free variable")),
        Node::Call(c) => match c.head {
            CallHead::Builtin(op) => Some((op, "free call head")),
            CallHead::User(_) => None,
        },
        _ => None,
    };
    if let Some((sym, what)) = named {
        let is_tag = tags[id.0] && t.kernel_tag[sym.0];
        if !is_tag && !t.base[sym.0] {
            let mut reason = String::from_str(what);
            reason.append(" `");
            reason.append(m.resolve(sym));
            reason.append("` — names no built-in and no binding");
            proof {
                reveal_strlit(" `");
                reveal_strlit("` — names no built-in and no binding");
            }
            push_violation(bad, id, NonConformKind::FreeBareName, reason);
        }
    }
    proof {
        assert(viol_view(bad@) =~= v0 + free_violations(*m, *t, id));
    }
}

fn push_call(m: &Module, id: NodeId, bad: &mut Vec<NonConformance>)
    requires
        m.wf(),
        id.0 < m.nodes@.len(),
    ensures
        viol_view(final(bad)@) == viol_view(old(bad)@) + call_violations(*m, id),
{
    let ghost v0 = viol_view(bad@);
    proof {
        assert(node_wf(m.nodes@[id.0 as int], id.0 as int, m.symbols@.len()));
    }
    if let Node::Call(c) = m.node(id) {
        if let CallHead::User(_) = c.head {
            proof {
                reveal_strlit("residual user call — FlatPDL admits deterministic ops and the six builtin_* primitives only");
            }
            push_violation(
                bad,
                id,
                NonConformKind::ResidualUserCall,
                String::from_str("residual user call — FlatPDL admits deterministic ops and the six builtin_* primitives only"),
            );
        }
        let ghost v1 = viol_view(bad@);
        if let CallHead::Builtin(op) = c.head {
            let name = m.resolve(op);
            if let Some((want, variadic)) = builtin_primitive_arity(name) {
                let got: u128 = c.args.len() as u128 + c.named.len() as u128;
                let want_w: u128 = want as u128;
                if got < want_w || (!variadic && got > want_w) {
                    let mut reason = String::from_str(name);
                    reason.append(" takes ");
                    if variadic {
                        reason.append("at least ");
                    } else {
                        reason.append("");
                    }
                    let w = decimal_string(want_w);
                    reason.append(w.as_str());
                    reason.append(" arguments, got ");
                    let g = decimal_string(got);
                    reason.append(g.as_str());
                    proof {
                        reveal_strlit(" takes ");
                        reveal_strlit("at least ");
                        reveal_strlit("");
                        reveal_strlit(" arguments, got ");
                    }
                    push_violation(bad, id, NonConformKind::BuiltinArity, reason);
                }
            }
        }
        let ghost v2 = viol_view(bad@);
        if let Some(Inputs::Spec(entries)) = &c.inputs {
            proof {
                assert(crate::ir::node_symbols_ok(m.at(id), m.symbols@.len()));
                assert(crate::ir::inputs_ok(c.inputs, m.symbols@.len()));
                assert(forall|j: int| 0 <= j < entries@.len() ==> (#[trigger] entries@[j]).0.0 < m.symbols@.len() && crate::ir::ref_ok(entries@[j].1, m.symbols@.len()));
            }
            let mut k: usize = 0;
            while k < entries.len()
                invariant
                    m.wf(),
                    k <= entries@.len(),
                    viol_view(bad@) == v2 + input_violations(*m, id, entries@, k as nat),
                    forall|j: int| 0 <= j < entries@.len() ==> (#[trigger] entries@[j]).0.0 < m.symbols@.len() && crate::ir::ref_ok(entries@[j].1, m.symbols@.len()),
                decreases entries@.len() - k,
            {
                let (input, r) = entries[k];
                proof {
                    assert(entries@[k as int].0.0 < m.symbols@.len() && crate::ir::ref_ok(entries@[k as int].1, m.symbols@.len()));
                }
                if r.ns == RefNs::SelfMod && m.binding_by_name(r.name).is_none() {
                    let mut reason = String::from_str("dangling reification input `");
                    reason.append(m.resolve(input));
                    reason.append("` = (%ref self ");
                    reason.append(m.resolve(r.name));
                    reason.append(") — no binding of that name in the module");
                    proof {
                        reveal_strlit("dangling reification input `");
                        reveal_strlit("` = (%ref self ");
                        reveal_strlit(") — no binding of that name in the module");
                    }
                    push_violation(bad, id, NonConformKind::DanglingSelfRef, reason);
                }
                k += 1;
                proof {
                    assert(viol_view(bad@) =~= v2 + input_violations(*m, id, entries@, k as nat));
                }
            }
        }
        proof {
            assert(viol_view(bad@) =~= v0 + call_violations(*m, id));
        }
    } else {
        proof {
            assert(viol_view(bad@) =~= v0 + call_violations(*m, id));
        }
    }
}


/// Report every violation in the subtree at `id` (see [`violations`]); a
/// kernel-typed node is admitted only under a `builtin_*` parent call.
fn visit(
    m: &Module,
    t: &NameTables,
    id: NodeId,
    parent: Option<&str>,
    tags: &Vec<bool>,
    bad: &mut Vec<NonConformance>,
)
    requires
        m.wf(),
        t.covers(*m),
        tags_ok(*m, *t, tags@),
        id.0 < m.nodes@.len(),
    ensures
        viol_view(final(bad)@) == viol_view(old(bad)@) + violations(*m, *t, id, opt_view(parent)),
    decreases id.0,
{
    let ghost v0 = viol_view(bad@);
    push_phase(m, id, bad);
    push_type(m, id, parent, bad);
    push_dangling(m, id, bad);
    push_free(m, t, id, tags, bad);
    push_call(m, id, bad);
    let ghost v_own = viol_view(bad@);
    proof {
        assert(v_own =~= v0 + own_violations(*m, *t, id, opt_view(parent)));
        assert(node_wf(m.nodes@[id.0 as int], id.0 as int, m.symbols@.len()));
    }
    let children = m.children(id);
    let this = crate::shape::builtin_name(m, id);
    proof {
        assert(opt_view(this) == this_builtin(*m, id));
    }
    let mut k: usize = 0;
    while k < children.len()
        invariant
            m.wf(),
            t.covers(*m),
            tags_ok(*m, *t, tags@),
            id.0 < m.nodes@.len(),
            children@ == node_children(m.at(id)),
            forall|j: int| 0 <= j < children@.len() ==> (#[trigger] children@[j]).0 < id.0,
            opt_view(this) == this_builtin(*m, id),
            k <= children@.len(),
            viol_view(bad@) == v_own + kids_violations(*m, *t, id, k as nat),
        decreases children@.len() - k,
    {
        let child = children[k];
        let ghost vb = viol_view(bad@);
        visit(m, t, child, this, tags, bad);
        proof {
            assert(child.0 < id.0);
            assert(kids_violations(*m, *t, id, (k + 1) as nat) == kids_violations(*m, *t, id, k as nat)
                + violations(*m, *t, child, this_builtin(*m, id)));
            assert(viol_view(bad@) =~= v_own + kids_violations(*m, *t, id, (k + 1) as nat));
        }
        k += 1;
    }
    proof {
        assert(viol_view(bad@) =~= v0 + violations(*m, *t, id, opt_view(parent)));
    }
}

/// FlatPDL conformance (see [`all_violations`]): `Ok` iff the module has no
/// violation, else every violation, bindings in slot order and each
/// right-hand side in pre-order.
/// No violation in the first `n` children's subtrees means none in the
/// subtree of any of those children.
proof fn lemma_kids_clean(m: Module, t: NameTables, id: NodeId, n: nat, k: int)
    requires
        id.0 < m.nodes@.len(),
        kids_violations(m, t, id, n).len() == 0,
        0 <= k < n,
        n <= node_children(m.at(id)).len(),
        node_children(m.at(id))[k].0 < id.0,
    ensures
        violations(m, t, node_children(m.at(id))[k], this_builtin(m, id)).len() == 0,
    decreases n,
{
    if k < n - 1 {
        lemma_kids_clean(m, t, id, (n - 1) as nat, k);
    }
}

/// A subtree with no violation holds no stochastic-phase node.
proof fn lemma_clean_subtree_deterministic(m: Module, t: NameTables, id: NodeId, parent: Option<Seq<char>>, x: NodeId)
    requires
        m.wf(),
        id.0 < m.nodes@.len(),
        violations(m, t, id, parent).len() == 0,
        in_subtree(m, id, x),
    ensures
        m.phases@[x.0 as int] != Some(Phase::Stochastic),
    decreases id.0,
{
    let own = own_violations(m, t, id, parent);
    assert(own.len() == 0);
    assert(phase_violations(m, id).len() == 0);
    if x != id {
        let ch = node_children(m.at(id));
        let k = choose|k: int| 0 <= k < ch.len() && (#[trigger] ch[k]).0 < id.0 && in_subtree(m, ch[k], x);
        lemma_kids_clean(m, t, id, ch.len(), k);
        lemma_clean_subtree_deterministic(m, t, ch[k], this_builtin(m, id), x);
    }
}

/// No violation in the first `n` slots means none under any live binding
/// among them.
proof fn lemma_slots_clean(m: Module, t: NameTables, n: nat, s: int)
    requires
        module_violations(m, t, n).len() == 0,
        0 <= s < n,
        n <= m.bindings@.len(),
        m.bindings@[s] is Some,
    ensures
        violations(m, t, m.bindings@[s].unwrap().rhs, None).len() == 0,
    decreases n,
{
    if s < n - 1 {
        lemma_slots_clean(m, t, (n - 1) as nat, s);
    }
}

/// A module the check finds conformant holds no stochastic-phase node: no
/// node reachable from a live binding's right-hand side has its phase
/// inferred as stochastic (no `draw` survives).
pub proof fn law_conformant_has_no_stochastic_node(m: Module, t: NameTables)
    requires
        m.wf(),
        t.covers(m),
        all_violations(m, t).len() == 0,
    ensures
        forall|b: BindingId, x: NodeId|
            #[trigger] m.live(b) && #[trigger] in_subtree(m, m.bind(b).rhs, x) ==> m.phases@[x.0 as int]
                != Some(Phase::Stochastic),
{
    assert forall|b: BindingId, x: NodeId|
        #[trigger] m.live(b) && #[trigger] in_subtree(m, m.bind(b).rhs, x) implies m.phases@[x.0 as int]
            != Some(Phase::Stochastic) by {
        assert(m.binding_wf(m.bind(b)));
        lemma_slots_clean(m, t, m.bindings@.len(), b.0 as int);
        lemma_clean_subtree_deterministic(m, t, m.bind(b).rhs, None, x);
    }
}

pub fn is_flatpdl(m: &Module, t: &NameTables) -> (r: Result<(), Vec<NonConformance>>)
    requires
        m.wf(),
        t.covers(*m),
    ensures
        match r {
            Ok(()) => all_violations(*m, *t).len() == 0,
            Err(bad) => bad@.len() > 0 && viol_view(bad@) == all_violations(*m, *t),
        },
        r is Ok ==> forall|b: BindingId, x: NodeId|
            #[trigger] m.live(b) && #[trigger] in_subtree(*m, m.bind(b).rhs, x) ==> m.phases@[x.0 as int]
                != Some(Phase::Stochastic),
{
    let mut bad: Vec<NonConformance> = Vec::new();
    let tags = kernel_tag_slots(m, t);
    let mut i: usize = 0;
    proof {
        assert(viol_view(bad@) =~= module_violations(*m, *t, 0));
    }
    while i < m.bindings.len()
        invariant
            m.wf(),
            t.covers(*m),
            tags_ok(*m, *t, tags@),
            i <= m.bindings@.len(),
            viol_view(bad@) == module_violations(*m, *t, i as nat),
        decreases m.bindings@.len() - i,
    {
        let ghost vb = viol_view(bad@);
        match &m.bindings[i] {
            Some(b) => {
                proof {
                    assert(m.live(BindingId(i)));
                    assert(m.binding_wf(m.bind(BindingId(i))));
                }
                visit(m, t, b.rhs, None, &tags, &mut bad);
            },
            None => {},
        }
        proof {
            assert(viol_view(bad@) =~= module_violations(*m, *t, (i + 1) as nat));
        }
        i += 1;
    }
    if bad.len() == 0 {
        proof {
            law_conformant_has_no_stochastic_node(*m, *t);
        }
        Ok(())
    } else {
        Err(bad)
    }
}

} // verus!
