//! Structural projections of product measures: the marginal of
//! `pushfwd(fn(get(_, [fields])), M)` over the selected components of an
//! explicit field-keyed product, and the draws a record field is a function
//! of.

use vstd::prelude::*;
use crate::ir::{node_wf, BindingId, Call, CallHead, Module, NamedArg, NamedKind, Node, NodeId, RefNs, Symbol};
use crate::refuse::RefuseError;
use crate::shape::{build_call, construct_name, is_builtin_named, unary_builtin_arg};

verus! {

/// The operands a draw-site walk descends into: the positional arguments,
/// then the named values.
pub open spec fn operands(c: Call) -> Seq<NodeId> {
    c.args@ + c.named@.map_values(|na: NamedArg| na.value)
}

/// The distinct `draw(…)` nodes the expression at `node` is a function of,
/// appended in first-reached order to `acc`: a call is walked through its
/// operands, a draw is not entered, and `(%ref self x)` continues at `x`'s
/// right-hand side unless `x` is already on `path` (a cycle-free path is
/// never longer than the binding table).
pub open spec fn draw_sites(m: Module, node: NodeId, path: Seq<BindingId>, acc: Seq<NodeId>) -> Seq<NodeId>
    decreases m.bindings@.len() - path.len(), node.0, 1nat, 0nat,
{
    if node.0 >= m.nodes@.len() {
        acc
    } else {
        match m.at(node) {
            Node::Ref(r) => if r.ns == RefNs::SelfMod && m.has_binding_named(r.name) {
                let b = choose|b: BindingId| m.live(b) && #[trigger] m.bind(b).name == r.name;
                if path.contains(b) || path.len() >= m.bindings@.len() {
                    acc
                } else {
                    draw_sites(m, m.bind(b).rhs, path.push(b), acc)
                }
            } else {
                acc
            },
            Node::Call(c) => if unary_builtin_arg(m, node, "draw"@) is Some {
                if acc.contains(node) {
                    acc
                } else {
                    acc.push(node)
                }
            } else {
                operand_sites(m, node, operands(c), 0, path, acc)
            },
            _ => acc,
        }
    }
}

/// [`draw_sites`] over the operands `ops` of `parent`, from the `i`-th on.
pub open spec fn operand_sites(
    m: Module,
    parent: NodeId,
    ops: Seq<NodeId>,
    i: nat,
    path: Seq<BindingId>,
    acc: Seq<NodeId>,
) -> Seq<NodeId>
    decreases m.bindings@.len() - path.len(), parent.0, 0nat, ops.len() - i,
{
    if i >= ops.len() {
        acc
    } else if ops[i as int].0 < parent.0 {
        operand_sites(m, parent, ops, i + 1, path, draw_sites(m, ops[i as int], path, acc))
    } else {
        operand_sites(m, parent, ops, i + 1, path, acc)
    }
}

/// Collect [`draw_sites`] of `node` into `sites`.
fn collect_draw_sites(m: &Module, node: NodeId, path: &mut Vec<BindingId>, sites: &mut Vec<NodeId>)
    requires
        m.wf(),
        node.0 < m.nodes@.len(),
    ensures
        final(sites)@ == draw_sites(*m, node, old(path)@, old(sites)@),
        final(path)@ == old(path)@,
    decreases m.bindings@.len() - old(path)@.len(), node.0, 1nat, 0nat,
{
    proof {
        assert(node_wf(m.nodes@[node.0 as int], node.0 as int, m.symbols@.len()));
    }
    match m.node(node) {
        Node::Ref(r) => {
            if r.ns != RefNs::SelfMod {
                return;
            }
            let bid = match m.binding_by_name(r.name) {
                Some(b) => b,
                None => {
                    return;
                },
            };
            proof {
                let b = choose|b: BindingId| m.live(b) && #[trigger] m.bind(b).name == r.name;
                assert(b == bid);
            }
            let mut on_path = false;
            let mut k: usize = 0;
            while k < path.len()
                invariant
                    k <= path@.len(),
                    on_path == path@.subrange(0, k as int).contains(bid),
                decreases path@.len() - k,
            {
                if path[k] == bid {
                    on_path = true;
                }
                proof {
                    assert(path@.subrange(0, k + 1) =~= path@.subrange(0, k as int).push(path@[k as int]));
                    assert(path@.subrange(0, k + 1).contains(bid) == (path@.subrange(0, k as int).contains(bid)
                        || path@[k as int] == bid)) by {
                        if path@[k as int] == bid {
                            assert(path@.subrange(0, k + 1)[k as int] == bid);
                        }
                        if path@.subrange(0, k + 1).contains(bid) {
                            let q = choose|q: int| 0 <= q < k + 1 && #[trigger] path@.subrange(0, k + 1)[q] == bid;
                            if q < k {
                                assert(path@.subrange(0, k as int)[q] == bid);
                            }
                        }
                    }
                }
                k += 1;
            }
            proof {
                assert(path@.subrange(0, path@.len() as int) =~= path@);
            }
            if on_path || path.len() >= m.bindings.len() {
                return;
            }
            let ghost p0 = path@;
            path.push(bid);
            collect_draw_sites(m, m.binding(bid).rhs, path, sites);
            path.pop();
            proof {
                assert(path@ =~= p0);
            }
        },
        Node::Call(c) => {
            if crate::shape::draw_argument(m, node).is_some() {
                let mut seen = false;
                let mut k: usize = 0;
                while k < sites.len()
                    invariant
                        k <= sites@.len(),
                        seen == sites@.subrange(0, k as int).contains(node),
                    decreases sites@.len() - k,
                {
                    if sites[k] == node {
                        seen = true;
                    }
                    proof {
                        assert(sites@.subrange(0, k + 1) =~= sites@.subrange(0, k as int).push(sites@[k as int]));
                        assert(sites@.subrange(0, k + 1).contains(node) == (sites@.subrange(0, k as int).contains(
                            node,
                        ) || sites@[k as int] == node)) by {
                            if sites@[k as int] == node {
                                assert(sites@.subrange(0, k + 1)[k as int] == node);
                            }
                            if sites@.subrange(0, k + 1).contains(node) {
                                let q = choose|q: int| 0 <= q < k + 1 && #[trigger] sites@.subrange(0, k + 1)[q] == node;
                                if q < k {
                                    assert(sites@.subrange(0, k as int)[q] == node);
                                }
                            }
                        }
                    }
                    k += 1;
                }
                proof {
                    assert(sites@.subrange(0, sites@.len() as int) =~= sites@);
                }
                if !seen {
                    sites.push(node);
                }
                return;
            }
            let ghost ops = operands(*c);
            let ghost p0 = path@;
            let ghost s0 = sites@;
            proof {
                assert forall|j: int| 0 <= j < ops.len() implies (#[trigger] ops[j]).0 < node.0 by {
                    if c.head is User {
                        assert(crate::ir::node_children(m.at(node))[j + 1] == ops[j]);
                    } else {
                        assert(crate::ir::node_children(m.at(node))[j] == ops[j]);
                    }
                }
            }
            let mut i: usize = 0;
            while i < c.args.len()
                invariant
                    m.wf(),
                    node.0 < m.nodes@.len(),
                    m.at(node) == Node::Call(*c),
                    ops == operands(*c),
                    forall|j: int| 0 <= j < ops.len() ==> (#[trigger] ops[j]).0 < node.0,
                    i <= c.args@.len(),
                    path@ == p0,
                    p0 == old(path)@,
                    operand_sites(*m, node, ops, 0, p0, s0) == operand_sites(*m, node, ops, i as nat, p0, sites@),
                decreases c.args@.len() - i,
            {
                assert(ops[i as int] == c.args@[i as int]);
                collect_draw_sites(m, c.args[i], path, sites);
                i += 1;
            }
            let mut j: usize = 0;
            while j < c.named.len()
                invariant
                    m.wf(),
                    node.0 < m.nodes@.len(),
                    m.at(node) == Node::Call(*c),
                    ops == operands(*c),
                    forall|q: int| 0 <= q < ops.len() ==> (#[trigger] ops[q]).0 < node.0,
                    j <= c.named@.len(),
                    path@ == p0,
                    p0 == old(path)@,
                    operand_sites(*m, node, ops, 0, p0, s0) == operand_sites(
                        *m,
                        node,
                        ops,
                        (c.args@.len() + j) as nat,
                        p0,
                        sites@,
                    ),
                decreases c.named@.len() - j,
            {
                assert(ops[c.args@.len() + j] == c.named@[j as int].value);
                collect_draw_sites(m, c.named[j].value, path, sites);
                j += 1;
            }
        },
        _ => {},
    }
}

/// The distinct draws the expression at `node` is a function of, in
/// first-reached order (see [`draw_sites`]).
pub fn field_draw_sites(m: &Module, node: NodeId) -> (sites: Vec<NodeId>)
    requires
        m.wf(),
        node.0 < m.nodes@.len(),
    ensures
        sites@ == draw_sites(*m, node, Seq::empty(), Seq::empty()),
{
    let mut sites: Vec<NodeId> = Vec::new();
    let mut path: Vec<BindingId> = Vec::new();
    proof {
        assert(path@ =~= Seq::<BindingId>::empty());
        assert(sites@ =~= Seq::<NodeId>::empty());
    }
    collect_draw_sites(m, node, &mut path, &mut sites);
    sites
}

/// What a record field's value reaches: `(Mᵢ, binding, transform, site)` for
/// a field that is a draw `site = draw(Mᵢ)` (inline, or the right-hand side of
/// the `(%ref self x)` binding it names), or a built-in call whose operands
/// reach exactly one draw `site = draw(Mᵢ)` (then `transform` is that call);
/// `binding` is the binding the field names, if it names one.
pub open spec fn component_draw(m: Module, value: NodeId) -> Option<(NodeId, Option<BindingId>, Option<NodeId>, NodeId)> {
    let hop: Option<(NodeId, Option<BindingId>)> = match crate::shape::self_ref_name(m, value) {
        Some(name) => if m.has_binding_named(name) {
            let b = choose|b: BindingId| m.live(b) && #[trigger] m.bind(b).name == name;
            Some((m.bind(b).rhs, Some(b)))
        } else {
            None
        },
        None => Some((value, None)),
    };
    match hop {
        None => None,
        Some((effective, outer)) => match unary_builtin_arg(m, effective, "draw"@) {
            Some(measure) => Some((measure, outer, None, effective)),
            None => if m.at(effective) matches Node::Call(c) && c.head is Builtin {
                let sites = draw_sites(m, effective, Seq::empty(), Seq::empty());
                if sites.len() == 1 {
                    match unary_builtin_arg(m, sites[0], "draw"@) {
                        Some(measure) => Some((measure, outer, Some(effective), sites[0])),
                        None => None,
                    }
                } else {
                    None
                }
            } else {
                None
            },
        },
    }
}

/// Every draw site lies in the arena.
proof fn lemma_draw_sites_in(m: Module, node: NodeId, path: Seq<BindingId>, acc: Seq<NodeId>)
    requires
        m.wf(),
        forall|k: int| 0 <= k < acc.len() ==> (#[trigger] acc[k]).0 < m.nodes@.len(),
    ensures
        forall|k: int|
            0 <= k < draw_sites(m, node, path, acc).len() ==> (#[trigger] draw_sites(m, node, path, acc)[k]).0
                < m.nodes@.len(),
    decreases m.bindings@.len() - path.len(), node.0, 1nat, 0nat,
{
    if node.0 < m.nodes@.len() {
        match m.at(node) {
            Node::Ref(r) => {
                if r.ns == RefNs::SelfMod && m.has_binding_named(r.name) {
                    let b = choose|b: BindingId| m.live(b) && #[trigger] m.bind(b).name == r.name;
                    if !(path.contains(b) || path.len() >= m.bindings@.len()) {
                        lemma_draw_sites_in(m, m.bind(b).rhs, path.push(b), acc);
                        assert(draw_sites(m, node, path, acc) == draw_sites(m, m.bind(b).rhs, path.push(b), acc));
                    } else {
                        assert(draw_sites(m, node, path, acc) == acc);
                    }
                } else {
                    assert(draw_sites(m, node, path, acc) == acc);
                }
            },
            Node::Call(c) => {
                if !(unary_builtin_arg(m, node, "draw"@) is Some) {
                    lemma_operand_sites_in(m, node, operands(c), 0, path, acc);
                    assert(draw_sites(m, node, path, acc) == operand_sites(m, node, operands(c), 0, path, acc));
                } else if acc.contains(node) {
                    assert(draw_sites(m, node, path, acc) == acc);
                } else {
                    assert(draw_sites(m, node, path, acc) == acc.push(node));
                    assert forall|k: int| 0 <= k < acc.push(node).len() implies (#[trigger] acc.push(node)[k]).0
                        < m.nodes@.len() by {
                        if k < acc.len() {
                            assert(acc.push(node)[k] == acc[k]);
                        }
                    }
                }
            },
            _ => {
                assert(draw_sites(m, node, path, acc) == acc);
            },
        }
    } else {
        assert(draw_sites(m, node, path, acc) == acc);
    }
}

proof fn lemma_operand_sites_in(
    m: Module,
    parent: NodeId,
    ops: Seq<NodeId>,
    i: nat,
    path: Seq<BindingId>,
    acc: Seq<NodeId>,
)
    requires
        m.wf(),
        forall|k: int| 0 <= k < acc.len() ==> (#[trigger] acc[k]).0 < m.nodes@.len(),
    ensures
        forall|k: int|
            0 <= k < operand_sites(m, parent, ops, i, path, acc).len() ==> (#[trigger] operand_sites(
                m,
                parent,
                ops,
                i,
                path,
                acc,
            )[k]).0 < m.nodes@.len(),
    decreases m.bindings@.len() - path.len(), parent.0, 0nat, ops.len() - i,
{
    if i < ops.len() {
        if ops[i as int].0 < parent.0 {
            lemma_draw_sites_in(m, ops[i as int], path, acc);
            lemma_operand_sites_in(m, parent, ops, i + 1, path, draw_sites(m, ops[i as int], path, acc));
            assert(operand_sites(m, parent, ops, i, path, acc) == operand_sites(
                m,
                parent,
                ops,
                i + 1,
                path,
                draw_sites(m, ops[i as int], path, acc),
            ));
        } else {
            lemma_operand_sites_in(m, parent, ops, i + 1, path, acc);
            assert(operand_sites(m, parent, ops, i, path, acc) == operand_sites(m, parent, ops, i + 1, path, acc));
        }
    }
}

/// Resolve a record field's value to the draw it reaches (see
/// [`component_draw`]).
pub fn resolve_component_draw(m: &Module, value: NodeId) -> (r: Option<(NodeId, Option<BindingId>, Option<NodeId>, NodeId)>)
    requires
        m.wf(),
        value.0 < m.nodes@.len(),
    ensures
        r == component_draw(*m, value),
        r matches Some((measure, b, t, site)) ==> measure.0 < m.nodes@.len() && site.0 < m.nodes@.len() && (
        t matches Some(x) ==> x.0 < m.nodes@.len()),
{
    let (effective, outer_binding) = match m.node(value) {
        Node::Ref(r) => {
            if r.ns == RefNs::SelfMod {
                match m.binding_by_name(r.name) {
                    Some(bid) => {
                        proof {
                            let b = choose|b: BindingId| m.live(b) && #[trigger] m.bind(b).name == r.name;
                            assert(b == bid);
                            assert(m.binding_wf(m.bind(bid)));
                        }
                        (m.binding(bid).rhs, Some(bid))
                    },
                    None => {
                        return None;
                    },
                }
            } else {
                (value, None)
            }
        },
        _ => (value, None),
    };
    proof {
        assert(node_wf(m.nodes@[effective.0 as int], effective.0 as int, m.symbols@.len()));
    }
    if let Some(measure) = crate::shape::draw_argument(m, effective) {
        proof {
            if let Node::Call(c) = m.at(effective) {
                assert(crate::ir::node_children(m.at(effective))[0] == c.args@[0]);
            }
        }
        return Some((measure, outer_binding, None, effective));
    }
    if let Node::Call(c) = m.node(effective) {
        if let CallHead::Builtin(_) = c.head {
            let sites = field_draw_sites(m, effective);
            proof {
                lemma_draw_sites_in(*m, effective, Seq::empty(), Seq::empty());
            }
            if sites.len() == 1 {
                let site = sites[0];
                proof {
                    assert(site.0 < m.nodes@.len());
                    assert(node_wf(m.nodes@[site.0 as int], site.0 as int, m.symbols@.len()));
                }
                match crate::shape::draw_argument(m, site) {
                    Some(measure) => {
                        proof {
                            if let Node::Call(sc) = m.at(site) {
                                assert(crate::ir::node_children(m.at(site))[0] == sc.args@[0]);
                            }
                        }
                        return Some((measure, outer_binding, Some(effective), site));
                    },
                    None => {
                        return None;
                    },
                }
            }
        }
    }
    None
}

/// The static repeat count of an `iid` read off its inferred type: a measure
/// over an array of exactly one static axis.
pub open spec fn iid_size(t: Option<crate::ir::Type>) -> Option<usize> {
    match t {
        Some(crate::ir::Type::Measure { domain, .. }) => match *domain {
            crate::ir::Type::Array { shape, .. } => if shape@.len() == 1 {
                match shape@[0] {
                    crate::ir::Dim::Static(n) => Some(n as usize),
                    crate::ir::Dim::Dynamic => None,
                }
            } else {
                None
            },
            _ => None,
        },
        _ => None,
    }
}

/// The static repeat count of the `iid` at `iid_node` (see [`iid_size`]).
pub fn iid_static_size(m: &Module, iid_node: NodeId) -> (r: Option<usize>)
    requires
        iid_node.0 < m.nodes@.len(),
        m.wf(),
    ensures
        r == iid_size(m.types@[iid_node.0 as int]),
{
    match m.type_of(iid_node) {
        Some(crate::ir::Type::Measure { domain, .. }) => match &**domain {
            crate::ir::Type::Array { shape, .. } => {
                if shape.len() != 1 {
                    return None;
                }
                match shape[0] {
                    crate::ir::Dim::Static(n) => Some(n as usize),
                    crate::ir::Dim::Dynamic => None,
                }
            },
            _ => None,
        },
        _ => None,
    }
}

/// The text of the built-in head of `id`, or `<non-builtin>`.
pub open spec fn head_text(m: Module, id: NodeId) -> Seq<char> {
    match crate::shape::builtin_of(m, id) {
        Some(s) => m.name_of(s),
        None => "<non-builtin>"@,
    }
}

/// The built-in head of `id` reads `name`.
pub open spec fn head_is(m: Module, id: NodeId, name: Seq<char>) -> bool {
    is_builtin_named(m, id, name)
}

/// `r` is the refusal of `node` of `m` for `reason`.
pub open spec fn refused<T>(m: Module, r: Result<T, RefuseError>, node: NodeId, reason: Seq<char>) -> bool {
    r matches Err(e) && e.node == node && e.construct@ == construct_name(m, node) && e.reason@ == reason
}

pub open spec fn jointchain_projection_reason() -> Seq<char> {
    "structural projection over a `jointchain` is unsupported here: jointchain is a DEPENDENT product (a component's kernel reads earlier variates), and this chain has no field-keyed variates to select by name (scalar-cat / keyword-form / malformed) — marginalizing a component is otherwise a `kchain` integral — refuse rather than mislower"@
}

pub open spec fn jointchain_rename_reason() -> Seq<char> {
    "structural projection over a `relabel(jointchain, …)` whose labels differ from the chain's own variate fields is an ill-formed rename: inference keeps the jointchain's record domain unchanged, so the relabeled names have no well-defined mapping onto the dependent chain — only an identity relabel (or a bare jointchain) exposes a dependency-respecting prefix keep; marginalizing a depended-upon variate is otherwise a `kchain` integral — refuse rather than mislower"@
}

pub open spec fn iid_slots_reason() -> Seq<char> {
    "relabel over an iid whose size is not a statically-resolved 1-D count (dynamic / multi-axis / unresolved) — its components cannot be named slot-by-slot — refuse rather than mislower"@
}

pub open spec fn keyword_joint_relabel_reason() -> Seq<char> {
    "relabel over a KEYWORD joint (already field-keyed) — project it by name directly rather than relabeling — refuse rather than mislower"@
}

pub open spec fn relabel_base_reason(head: Seq<char>) -> Seq<char> {
    "relabel base `"@ + head
        + "` is not an INDEPENDENT index-keyed product (iid / positional joint) — no closed-form field-keyed marginal here — refuse rather than mislower"@
}

/// The refusal of a structural projection over the `jointchain` at `node`
/// that has no field-keyed variates to select.
pub fn refuse_jointchain_projection(m: &Module, node: NodeId) -> (e: RefuseError)
    requires
        m.wf(),
        node.0 < m.nodes@.len(),
    ensures
        refused(*m, Err::<(), RefuseError>(e), node, jointchain_projection_reason()),
{
    proof {
        reveal_strlit("structural projection over a `jointchain` is unsupported here: jointchain is a DEPENDENT product (a component's kernel reads earlier variates), and this chain has no field-keyed variates to select by name (scalar-cat / keyword-form / malformed) — marginalizing a component is otherwise a `kchain` integral — refuse rather than mislower");
    }
    crate::shape::refuse(
        node,
        m,
        "structural projection over a `jointchain` is unsupported here: jointchain is a DEPENDENT product (a component's kernel reads earlier variates), and this chain has no field-keyed variates to select by name (scalar-cat / keyword-form / malformed) — marginalizing a component is otherwise a `kchain` integral — refuse rather than mislower",
    )
}

/// The refusal of a `relabel(jointchain, labels)` whose labels rename the
/// chain's own variate fields.
pub fn refuse_jointchain_relabel_rename(m: &Module, node: NodeId) -> (e: RefuseError)
    requires
        m.wf(),
        node.0 < m.nodes@.len(),
    ensures
        refused(*m, Err::<(), RefuseError>(e), node, jointchain_rename_reason()),
{
    crate::shape::refuse(
        node,
        m,
        "structural projection over a `relabel(jointchain, …)` whose labels differ from the chain's own variate fields is an ill-formed rename: inference keeps the jointchain's record domain unchanged, so the relabeled names have no well-defined mapping onto the dependent chain — only an identity relabel (or a bare jointchain) exposes a dependency-respecting prefix keep; marginalizing a depended-upon variate is otherwise a `kchain` integral — refuse rather than mislower",
    )
}

/// Whether `labels` spell the chain's variate fields `chain_fields`, in
/// order: an identity relabel.
pub fn identity_relabel(m: &Module, chain_fields: &Vec<Symbol>, labels: &Vec<String>) -> (b: bool)
    requires
        forall|k: int| 0 <= k < chain_fields@.len() ==> (#[trigger] chain_fields@[k]).0 < m.symbols@.len(),
    ensures
        b == (chain_fields@.len() == labels@.len() && forall|k: int|
            0 <= k < labels@.len() ==> m.name_of(#[trigger] chain_fields@[k]) == labels@[k]@),
{
    if chain_fields.len() != labels.len() {
        return false;
    }
    let mut k: usize = 0;
    while k < labels.len()
        invariant
            chain_fields@.len() == labels@.len(),
            forall|q: int| 0 <= q < chain_fields@.len() ==> (#[trigger] chain_fields@[q]).0 < m.symbols@.len(),
            k <= labels@.len(),
            forall|q: int| 0 <= q < k ==> m.name_of(#[trigger] chain_fields@[q]) == labels@[q]@,
        decreases labels@.len() - k,
    {
        if !crate::ir::str_eq(m.resolve(chain_fields[k]), labels[k].as_str()) {
            return false;
        }
        k += 1;
    }
    true
}

/// The component measures of the independent index-keyed product `inner`
/// (one reference hop) that a `relabel` names: `n` copies of `M` for
/// `iid(M, n)` of static size `n`, the positional components of a
/// `joint(M₁, …, Mₖ)` with at least two. Refuses — the node and the reason —
/// a dynamically sized `iid`, a keyword `joint`, a `jointchain` (a dependent
/// product) and anything else.
pub open spec fn components_of(m: Module, inner: NodeId) -> Result<Seq<NodeId>, (NodeId, Seq<char>)> {
    let res = crate::shape::resolve_one_spec(m, inner).0;
    if head_is(m, res, "iid"@) {
        match iid_size(m.types@[res.0 as int]) {
            None => Err((res, iid_slots_reason())),
            Some(n) => match m.at(res) {
                Node::Call(c) => if c.args@.len() != 2 {
                    Err((res, "iid expects 2 args (measure, size)"@))
                } else {
                    Ok(Seq::new(n as nat, |i: int| c.args@[0]))
                },
                _ => Err((res, "expected iid"@)),
            },
        }
    } else if head_is(m, res, "joint"@) {
        match m.at(res) {
            Node::Call(c) => if c.named@.len() != 0 {
                Err((res, keyword_joint_relabel_reason()))
            } else if c.args@.len() < 2 {
                Err((res, "joint needs at least 2 components"@))
            } else {
                Ok(c.args@)
            },
            _ => Err((res, "expected joint"@)),
        }
    } else if head_is(m, res, "jointchain"@) {
        Err((res, jointchain_projection_reason()))
    } else {
        Err((res, relabel_base_reason(head_text(m, res))))
    }
}

/// `r` is what `spec` says: the same values, or the refusal of the node it
/// names for the reason it gives.
pub open spec fn as_result(m: Module, r: Result<Vec<NodeId>, RefuseError>, spec: Result<Seq<NodeId>, (NodeId, Seq<char>)>) -> bool {
    match spec {
        Ok(v) => r matches Ok(x) && x@ == v,
        Err((n, reason)) => refused(m, r, n, reason),
    }
}

/// The components of the independent index-keyed product `inner` (see
/// [`components_of`]).
pub fn independent_product_components(m: &Module, inner: NodeId) -> (r: Result<Vec<NodeId>, RefuseError>)
    requires
        m.wf(),
        inner.0 < m.nodes@.len(),
    ensures
        as_result(*m, r, components_of(*m, inner)),
        r matches Ok(v) ==> forall|k: int| 0 <= k < v@.len() ==> (#[trigger] v@[k]).0 < m.nodes@.len(),
{
    let (inner_resolved, _) = crate::shape::resolve_ref_one(m, inner);
    proof {
        assert(node_wf(m.nodes@[inner_resolved.0 as int], inner_resolved.0 as int, m.symbols@.len()));
    }
    if let Some(c) = crate::shape::expect_builtin_call(m, inner_resolved, "iid") {
        let n = match iid_static_size(m, inner_resolved) {
            Some(n) => n,
            None => {
                return Err(
                    crate::shape::refuse(
                        inner_resolved,
                        m,
                        "relabel over an iid whose size is not a statically-resolved 1-D count (dynamic / multi-axis / unresolved) — its components cannot be named slot-by-slot — refuse rather than mislower",
                    ),
                );
            },
        };
        if c.args.len() != 2 {
            return Err(crate::shape::refuse(inner_resolved, m, "iid expects 2 args (measure, size)"));
        }
        let mm = c.args[0];
        proof {
            assert(crate::ir::node_children(m.at(inner_resolved))[0] == c.args@[0]);
        }
        let mut out: Vec<NodeId> = Vec::new();
        let mut k: usize = 0;
        while k < n
            invariant
                k <= n,
                out@ == Seq::new(k as nat, |i: int| mm),
            decreases n - k,
        {
            out.push(mm);
            k += 1;
            proof {
                assert(out@ =~= Seq::new(k as nat, |i: int| mm));
            }
        }
        return Ok(out);
    }
    if let Some(c) = crate::shape::expect_builtin_call(m, inner_resolved, "joint") {
        if c.named.len() != 0 {
            return Err(
                crate::shape::refuse(
                    inner_resolved,
                    m,
                    "relabel over a KEYWORD joint (already field-keyed) — project it by name directly rather than relabeling — refuse rather than mislower",
                ),
            );
        }
        if c.args.len() < 2 {
            return Err(crate::shape::refuse(inner_resolved, m, "joint needs at least 2 components"));
        }
        let mut out: Vec<NodeId> = Vec::new();
        let mut k: usize = 0;
        while k < c.args.len()
            invariant
                m.wf(),
                inner_resolved.0 < m.nodes@.len(),
                m.at(inner_resolved) == Node::Call(*c),
                k <= c.args@.len(),
                out@ == c.args@.subrange(0, k as int),
                forall|q: int| 0 <= q < out@.len() ==> (#[trigger] out@[q]).0 < m.nodes@.len(),
            decreases c.args@.len() - k,
        {
            proof {
                assert(node_wf(m.nodes@[inner_resolved.0 as int], inner_resolved.0 as int, m.symbols@.len()));
                if c.head is User {
                    assert(crate::ir::node_children(m.at(inner_resolved))[k + 1] == c.args@[k as int]);
                } else {
                    assert(crate::ir::node_children(m.at(inner_resolved))[k as int] == c.args@[k as int]);
                }
            }
            out.push(c.args[k]);
            k += 1;
            proof {
                assert(out@ =~= c.args@.subrange(0, k as int));
            }
        }
        proof {
            assert(c.args@.subrange(0, c.args@.len() as int) =~= c.args@);
        }
        return Ok(out);
    }
    if crate::shape::expect_builtin_call(m, inner_resolved, "jointchain").is_some() {
        return Err(refuse_jointchain_projection(m, inner_resolved));
    }
    let head = match crate::shape::builtin_name(m, inner_resolved) {
        Some(h) => h,
        None => "<non-builtin>",
    };
    let mut reason = String::from_str("relabel base `");
    reason.append(head);
    reason.append(
        "` is not an INDEPENDENT index-keyed product (iid / positional joint) — no closed-form field-keyed marginal here — refuse rather than mislower",
    );
    proof {
        reveal_strlit("relabel base `");
        reveal_strlit(
            "` is not an INDEPENDENT index-keyed product (iid / positional joint) — no closed-form field-keyed marginal here — refuse rather than mislower",
        );
        reveal_strlit("<non-builtin>");
    }
    Err(crate::shape::refuse(inner_resolved, m, reason.as_str()))
}

/// The first `%field` entry of `named`, from the `k`-th on, whose name reads
/// `f`.
pub open spec fn first_field(m: Module, named: Seq<NamedArg>, f: Seq<char>, k: nat) -> Option<NamedArg>
    decreases named.len() - k,
{
    if k >= named.len() {
        None
    } else if named[k as int].kind == NamedKind::Field && m.name_of(named[k as int].name) == f {
        Some(named[k as int])
    } else {
        first_field(m, named, f, k + 1)
    }
}

/// The entries of `named` that `fields` select, from the `i`-th field on and
/// in `fields` order; `Err((true, f))` for a field selected twice,
/// `Err((false, f))` for one that `named` does not carry.
pub open spec fn selection(m: Module, named: Seq<NamedArg>, fields: Seq<Seq<char>>, i: nat) -> Result<
    Seq<NamedArg>,
    (bool, Seq<char>),
>
    decreases fields.len() - i,
{
    if i >= fields.len() {
        Ok(Seq::empty())
    } else if fields.subrange(0, i as int).contains(fields[i as int]) {
        Err((true, fields[i as int]))
    } else {
        match first_field(m, named, fields[i as int], 0) {
            None => Err((false, fields[i as int])),
            Some(na) => match selection(m, named, fields, i + 1) {
                Ok(rest) => Ok(seq![na] + rest),
                Err(e) => Err(e),
            },
        }
    }
}

pub open spec fn duplicate_field_reason(f: Seq<char>) -> Seq<char> {
    "projection selects a duplicate field `"@ + f
        + "` — the sub-product would score it twice, double-counting its density term — refuse rather than mislower"@
}

pub open spec fn missing_field_reason(f: Seq<char>) -> Seq<char> {
    "projection selects field `"@ + f + "` that is not a component of the product measure — refuse rather than mislower"@
}

pub open spec fn dropped_reason(name: Seq<char>) -> Seq<char> {
    "projection drops a non-normalized component (field `"@ + name
        + "`); the marginal is not closed-form here (§06 case 2 requires each dropped component to be a normalized probability measure) — refuse rather than mislower"@
}

/// Every entry of `named` names an interned symbol and a node of `m`.
pub open spec fn entries_in(m: Module, named: Seq<NamedArg>) -> bool {
    forall|k: int| 0 <= k < named.len() ==> (#[trigger] named[k]).name.0 < m.symbols@.len() && named[k].value.0 < m.nodes@.len()
}

/// `p` prepended to a selection.
pub open spec fn prepend(p: Seq<NamedArg>, r: Result<Seq<NamedArg>, (bool, Seq<char>)>) -> Result<
    Seq<NamedArg>,
    (bool, Seq<char>),
> {
    match r {
        Ok(rest) => Ok(p + rest),
        Err(e) => Err(e),
    }
}

/// The first `%field` entry of `named` whose name reads `f`.
fn find_field_entry(m: &Module, named: &Vec<NamedArg>, f: &str) -> (r: Option<NamedArg>)
    requires
        entries_in(*m, named@),
    ensures
        r == first_field(*m, named@, f@, 0),
{
    let mut k: usize = 0;
    while k < named.len()
        invariant
            entries_in(*m, named@),
            k <= named@.len(),
            first_field(*m, named@, f@, 0) == first_field(*m, named@, f@, k as nat),
        decreases named@.len() - k,
    {
        let na = named[k];
        if na.kind == NamedKind::Field && crate::ir::str_eq(m.resolve(na.name), f) {
            return Some(na);
        }
        k += 1;
    }
    None
}

/// Pick, in `fields` order, the `%field` entry of `source` each selected
/// field names; refuses at `node` a field selected twice or missing (see
/// [`selection`]).
pub fn select_projection_fields(
    m: &Module,
    node: NodeId,
    source: &Vec<NamedArg>,
    fields: &Vec<String>,
) -> (r: Result<Vec<NamedArg>, RefuseError>)
    requires
        m.wf(),
        node.0 < m.nodes@.len(),
        entries_in(*m, source@),
    ensures
        match selection(*m, source@, crate::disintegrate::strs_view(fields@), 0) {
            Ok(sel) => r matches Ok(v) && v@ == sel,
            Err((dup, f)) => refused(
                *m,
                r,
                node,
                if dup {
                    duplicate_field_reason(f)
                } else {
                    missing_field_reason(f)
                },
            ),
        },
{
    let ghost fs = crate::disintegrate::strs_view(fields@);
    let mut out: Vec<NamedArg> = Vec::new();
    let mut i: usize = 0;
    while i < fields.len()
        invariant
            m.wf(),
            node.0 < m.nodes@.len(),
            entries_in(*m, source@),
            fs == crate::disintegrate::strs_view(fields@),
            i <= fields@.len(),
            selection(*m, source@, fs, 0) == prepend(out@, selection(*m, source@, fs, i as nat)),
        decreases fields@.len() - i,
    {
        let f = fields[i].as_str();
        let mut dup = false;
        let mut q: usize = 0;
        while q < i
            invariant
                i < fields@.len(),
                fs == crate::disintegrate::strs_view(fields@),
                q <= i,
                f@ == fields@[i as int]@,
                dup == fs.subrange(0, q as int).contains(fs[i as int]),
            decreases i - q,
        {
            if crate::ir::str_eq(fields[q].as_str(), f) {
                dup = true;
            }
            proof {
                assert(fs[q as int] == fields@[q as int]@);
                assert(fs[i as int] == fields@[i as int]@);
                assert(fs.subrange(0, q + 1) =~= fs.subrange(0, q as int).push(fs[q as int]));
                assert(fs.subrange(0, q + 1).contains(fs[i as int]) == (fs.subrange(0, q as int).contains(fs[i as int])
                    || fs[q as int] == fs[i as int])) by {
                    if fs[q as int] == fs[i as int] {
                        assert(fs.subrange(0, q + 1)[q as int] == fs[i as int]);
                    }
                    if fs.subrange(0, q + 1).contains(fs[i as int]) {
                        let z = choose|z: int| 0 <= z < q + 1 && #[trigger] fs.subrange(0, q + 1)[z] == fs[i as int];
                        if z < q {
                            assert(fs.subrange(0, q as int)[z] == fs[i as int]);
                        }
                    }
                }
            }
            q += 1;
        }
        if dup {
            let mut reason = String::from_str("projection selects a duplicate field `");
            reason.append(f);
            reason.append(
                "` — the sub-product would score it twice, double-counting its density term — refuse rather than mislower",
            );
            proof {
                reveal_strlit("projection selects a duplicate field `");
                reveal_strlit(
                    "` — the sub-product would score it twice, double-counting its density term — refuse rather than mislower",
                );
            }
            return Err(crate::shape::refuse(node, m, reason.as_str()));
        }
        let found = match find_field_entry(m, source, f) {
            Some(na) => na,
            None => {
                let mut reason = String::from_str("projection selects field `");
                reason.append(f);
                reason.append("` that is not a component of the product measure — refuse rather than mislower");
                proof {
                    reveal_strlit("projection selects field `");
                    reveal_strlit("` that is not a component of the product measure — refuse rather than mislower");
                }
                return Err(crate::shape::refuse(node, m, reason.as_str()));
            },
        };
        proof {
            assert(prepend(out@, selection(*m, source@, fs, i as nat)) == prepend(
                out@.push(found),
                selection(*m, source@, fs, (i + 1) as nat),
            )) by {
                match selection(*m, source@, fs, (i + 1) as nat) {
                    Ok(rest) => {
                        assert(out@ + (seq![found] + rest) =~= out@.push(found) + rest);
                    },
                    Err(e) => {},
                }
            }
        }
        out.push(found);
        i += 1;
    }
    proof {
        assert(out@ + Seq::<NamedArg>::empty() =~= out@);
    }
    Ok(out)
}

/// The measure a dropped field's value scores: the value itself for a
/// keyword `joint`, the law of the draw it reaches for a record of draws.
pub open spec fn dropped_measure(m: Module, value: NodeId, by_draw: bool) -> Option<NodeId> {
    if by_draw {
        match component_draw(m, value) {
            Some(t) => Some(t.0),
            None => None,
        }
    } else {
        Some(value)
    }
}

/// The name of the first `%field` entry of `named`, from the `k`-th on, that
/// `fields` drop and whose measure (one reference hop) is not typed as a
/// probability measure.
pub open spec fn first_unnormalized_drop(
    m: Module,
    named: Seq<NamedArg>,
    fields: Seq<Seq<char>>,
    by_draw: bool,
    k: nat,
) -> Option<Seq<char>>
    decreases named.len() - k,
{
    if k >= named.len() {
        None
    } else {
        let na = named[k as int];
        if na.kind == NamedKind::Field && !fields.contains(m.name_of(na.name)) && (dropped_measure(
            m,
            na.value,
            by_draw,
        ) matches Some(x) && !crate::density::normalized_measure(
            m.types@[crate::shape::resolve_one_spec(m, x).0.0 as int],
        )) {
            Some(m.name_of(na.name))
        } else {
            first_unnormalized_drop(m, named, fields, by_draw, k + 1)
        }
    }
}

/// Whether `fields` hold the text `name`.
fn selects(fields: &Vec<String>, name: &str) -> (b: bool)
    ensures
        b == crate::disintegrate::strs_view(fields@).contains(name@),
{
    let ghost fs = crate::disintegrate::strs_view(fields@);
    let mut k: usize = 0;
    while k < fields.len()
        invariant
            fs == crate::disintegrate::strs_view(fields@),
            k <= fields@.len(),
            forall|q: int| 0 <= q < k ==> fs[q] != name@,
        decreases fields@.len() - k,
    {
        if crate::ir::str_eq(fields[k].as_str(), name) {
            proof {
                assert(fs[k as int] == name@);
            }
            return true;
        }
        k += 1;
    }
    false
}

/// Refuse at `node` when a field the projection drops is not a probability
/// measure (see [`first_unnormalized_drop`]); `by_draw` reads each field's
/// measure through the draw it reaches, else the field's value is the
/// measure.
pub fn refuse_unnormalized_dropped_fields(
    m: &Module,
    node: NodeId,
    named: &Vec<NamedArg>,
    fields: &Vec<String>,
    by_draw: bool,
) -> (r: Result<(), RefuseError>)
    requires
        m.wf(),
        node.0 < m.nodes@.len(),
        entries_in(*m, named@),
    ensures
        match first_unnormalized_drop(*m, named@, crate::disintegrate::strs_view(fields@), by_draw, 0) {
            Some(name) => refused(*m, r, node, dropped_reason(name)),
            None => r is Ok,
        },
{
    let ghost fs = crate::disintegrate::strs_view(fields@);
    let mut k: usize = 0;
    while k < named.len()
        invariant
            m.wf(),
            node.0 < m.nodes@.len(),
            entries_in(*m, named@),
            fs == crate::disintegrate::strs_view(fields@),
            k <= named@.len(),
            first_unnormalized_drop(*m, named@, fs, by_draw, 0) == first_unnormalized_drop(
                *m,
                named@,
                fs,
                by_draw,
                k as nat,
            ),
        decreases named@.len() - k,
    {
        let field = named[k];
        k += 1;
        if field.kind != NamedKind::Field {
            continue;
        }
        let name = m.resolve(field.name);
        if selects(fields, name) {
            continue;
        }
        let measure = if by_draw {
            match resolve_component_draw(m, field.value) {
                Some((x, _, _, _)) => x,
                None => {
                    continue;
                },
            }
        } else {
            field.value
        };
        let (resolved, _) = crate::shape::resolve_ref_one(m, measure);
        let normalized = match m.type_of(resolved) {
            Some(crate::ir::Type::Measure { mass: crate::ir::Mass::Normalized, .. }) => true,
            _ => false,
        };
        if !normalized {
            let mut reason = String::from_str("projection drops a non-normalized component (field `");
            reason.append(name);
            reason.append(
                "`); the marginal is not closed-form here (§06 case 2 requires each dropped component to be a normalized probability measure) — refuse rather than mislower",
            );
            proof {
                reveal_strlit("projection drops a non-normalized component (field `");
                reveal_strlit(
                    "`); the marginal is not closed-form here (§06 case 2 requires each dropped component to be a normalized probability measure) — refuse rather than mislower",
                );
            }
            return Err(crate::shape::refuse(node, m, reason.as_str()));
        }
    }
    Ok(())
}

/// What a projection by field name leaves to its caller.
#[derive(Debug)]
pub enum NamedProjection {
    /// Score this sub-product over the selected fields at the projected
    /// point: its density is the marginal.
    Score(NodeId),
    /// Project the `jointchain` at this node by name: only a leading prefix
    /// of its variates is closed-form.
    Jointchain(NodeId),
    /// `relabel(chain, labels)` over the `jointchain` `chain`: an identity
    /// relabel ([`identity_relabel`]) projects `chain` itself; another is
    /// refused by [`refuse_jointchain_relabel_rename`], and a chain without
    /// field-keyed variates by [`refuse_jointchain_projection`].
    RelabeledJointchain { chain: NodeId, labels: Vec<String> },
}

/// Node `sub` is the call `head(…)` over exactly the entries `sel`.
pub open spec fn product_of(m: Module, sub: NodeId, head: Seq<char>, sel: Seq<NamedArg>) -> bool {
    &&& sub.0 < m.nodes@.len()
    &&& is_builtin_named(m, sub, head)
    &&& m.at(sub) matches Node::Call(c) && c.args@.len() == 0 && c.named@ == sel && c.inputs is None
}

/// The marginal over the fields `fields` of the field-keyed product at
/// `node` of `ma` with entries `named` (built in `m`): refused when a dropped
/// field is not a probability measure or the selection is malformed,
/// otherwise the `head(…)` sub-product over the selected entries.
pub open spec fn sub_product(
    ma: Module,
    m: Module,
    node: NodeId,
    named: Seq<NamedArg>,
    fields: Seq<Seq<char>>,
    by_draw: bool,
    head: Seq<char>,
    r: Result<NamedProjection, RefuseError>,
) -> bool {
    match first_unnormalized_drop(ma, named, fields, by_draw, 0) {
        Some(name) => refused(ma, r, node, dropped_reason(name)),
        None => match selection(ma, named, fields, 0) {
            Err((dup, f)) => refused(
                ma,
                r,
                node,
                if dup {
                    duplicate_field_reason(f)
                } else {
                    missing_field_reason(f)
                },
            ),
            Ok(sel) => r matches Ok(NamedProjection::Score(sub)) && product_of(m, sub, head, sel),
        },
    }
}

proof fn lemma_selection_in(m: Module, named: Seq<NamedArg>, fields: Seq<Seq<char>>, i: nat)
    requires
        entries_in(m, named),
    ensures
        selection(m, named, fields, i) matches Ok(sel) ==> entries_in(m, sel),
    decreases fields.len() - i,
{
    if i < fields.len() {
        lemma_selection_in(m, named, fields, i + 1);
        lemma_first_field_in(m, named, fields[i as int], 0);
        if let Ok(sel) = selection(m, named, fields, i) {
            if let Some(na) = first_field(m, named, fields[i as int], 0) {
                if let Ok(rest) = selection(m, named, fields, i + 1) {
                    assert forall|k: int| 0 <= k < sel.len() implies (#[trigger] sel[k]).name.0 < m.symbols@.len()
                        && sel[k].value.0 < m.nodes@.len() by {
                        if k > 0 {
                            assert(sel[k] == rest[k - 1]);
                        }
                    }
                }
            }
        }
    }
}

proof fn lemma_first_field_in(m: Module, named: Seq<NamedArg>, f: Seq<char>, k: nat)
    requires
        entries_in(m, named),
    ensures
        first_field(m, named, f, k) matches Some(na) ==> na.name.0 < m.symbols@.len() && na.value.0
            < m.nodes@.len() && na.kind == NamedKind::Field,
    decreases named.len() - k,
{
    if k < named.len() {
        lemma_first_field_in(m, named, f, k + 1);
    }
}

/// The marginal of the field-keyed product at `node` with entries `named`
/// over the fields `fields` (see [`sub_product`]).
fn project_fields(
    m: &mut Module,
    node: NodeId,
    named: &Vec<NamedArg>,
    fields: &Vec<String>,
    by_draw: bool,
    head: &str,
) -> (r: Result<NamedProjection, RefuseError>)
    requires
        old(m).wf(),
        node.0 < old(m).nodes@.len(),
        entries_in(*old(m), named@),
    ensures
        final(m).wf(),
        final(m).extends(old(m)),
        final(m).bindings@ == old(m).bindings@,
        crate::density::untyped_growth(*old(m), *final(m)),
        sub_product(*old(m), *final(m), node, named@, crate::disintegrate::strs_view(fields@), by_draw, head@, r),
        r matches Ok(NamedProjection::Score(sub)) ==> sub.0 >= old(m).nodes@.len(),
{
    let ghost m0 = *m;
    match refuse_unnormalized_dropped_fields(m, node, named, fields, by_draw) {
        Ok(()) => {},
        Err(e) => {
            return Err(e);
        },
    }
    let selected = match select_projection_fields(m, node, named, fields) {
        Ok(sel) => sel,
        Err(e) => {
            return Err(e);
        },
    };
    proof {
        lemma_selection_in(m0, named@, crate::disintegrate::strs_view(fields@), 0);
    }
    let sym = m.intern(head);
    let call = Call { head: CallHead::Builtin(sym), args: Vec::new(), named: selected, inputs: None };
    proof {
        assert forall|k: int| 0 <= k < crate::ir::call_children(call).len() implies (#[trigger] crate::ir::call_children(
            call,
        )[k]).0 < m.nodes@.len() by {
            assert(crate::ir::call_children(call)[k] == selected@[k].value);
        }
    }
    let sub = m.add_node(Node::Call(call));
    Ok(NamedProjection::Score(sub))
}

pub open spec fn positional_joint_reason() -> Seq<char> {
    "structural projection needs a FIELD-KEYED product; a positional joint has no field labels to select — refuse rather than mislower"@
}

pub open spec fn positional_record_reason() -> Seq<char> {
    "structural projection needs a field-keyed record; positional args present — refuse rather than mislower"@
}

pub open spec fn relabel_labels_reason() -> Seq<char> {
    "relabel labels must be a vector of string literals to name the projected product's component slots"@
}

pub open spec fn relabel_count_reason(labels: nat, components: nat) -> Seq<char> {
    "relabel gives "@ + crate::text::decimal(labels) + " label(s) for a "@ + crate::text::decimal(components)
        + "-component product — a relabel names each component slot exactly once — refuse rather than mislower"@
}

pub open spec fn non_product_reason(head: Seq<char>) -> Seq<char> {
    "structural projection (§06 case 2) by FIELD NAME is closed-form only over an explicit field-keyed product (keyword `joint` / record-of-draws / `jointchain`) or an index-keyed product named by `relabel` (iid / positional joint); got `"@
        + head
        + "`, which has no explicit product structure to select a field of — §06 case 2 permits refusing a projection off a non-product measure — refuse rather than mislower"@
}

/// Node `mat` is the keyword `joint` naming the components `comps` by the
/// labels `ls`, in order.
pub open spec fn labelled_joint(m: Module, mat: NodeId, ls: Seq<Seq<char>>, comps: Seq<NodeId>) -> bool {
    &&& mat.0 < m.nodes@.len()
    &&& is_builtin_named(m, mat, "joint"@)
    &&& m.at(mat) matches Node::Call(c) && c.args@.len() == 0 && c.inputs is None && c.named@.len() == ls.len()
        && forall|i: int|
        0 <= i < ls.len() ==> (#[trigger] c.named@[i]).kind == NamedKind::Field && m.name_of(c.named@[i].name)
            == ls[i] && c.named@[i].value == comps[i]
}

/// The named entries of the call at `id`.
pub open spec fn entries_of(m: Module, id: NodeId) -> Seq<NamedArg> {
    match m.at(id) {
        Node::Call(c) => c.named@,
        _ => Seq::empty(),
    }
}

/// What [`lower_named_projection`] does with `pushfwd(fn(get(_, fields)),
/// M)` for `M` at `inner_expr` of `m0` (one reference hop), the arena grown
/// to `m`:
/// - a keyword `joint`: the sub-joint over the selected fields
///   ([`sub_product`]); a positional one is refused;
/// - a record of draws: the sub-record, each dropped field's measure read
///   through its draw; positional entries are refused;
/// - `relabel(P, labels)` with two arguments and string-literal labels:
///   over a `jointchain`, left to the caller with its labels; otherwise the
///   components of `P` ([`components_of`]), one per label, named by the
///   labels into a keyword `joint` and projected as one;
/// - a `jointchain`: left to the caller;
/// - anything else is refused.
pub open spec fn named_projection(
    m0: Module,
    m: Module,
    inner_expr: NodeId,
    fields: Seq<Seq<char>>,
    r: Result<NamedProjection, RefuseError>,
) -> bool {
    let mi = crate::shape::resolve_one_spec(m0, inner_expr).0;
    if head_is(m0, mi, "joint"@) {
        match m0.at(mi) {
            Node::Call(c) => if c.args@.len() != 0 {
                refused(m0, r, mi, positional_joint_reason())
            } else {
                sub_product(m0, m, mi, c.named@, fields, false, "joint"@, r)
            },
            _ => false,
        }
    } else if head_is(m0, mi, "record"@) {
        match m0.at(mi) {
            Node::Call(c) => if c.args@.len() != 0 {
                refused(m0, r, mi, positional_record_reason())
            } else {
                sub_product(m0, m, mi, c.named@, fields, true, "record"@, r)
            },
            _ => false,
        }
    } else if head_is(m0, mi, "relabel"@) {
        match m0.at(mi) {
            Node::Call(c) => if c.args@.len() != 2 {
                refused(m0, r, mi, "relabel expects 2 args (measure, labels)"@)
            } else {
                match crate::density::str_vec(m0, c.args@[1]) {
                    None => refused(m0, r, mi, relabel_labels_reason()),
                    Some(ls) => {
                        let ir = crate::shape::resolve_one_spec(m0, c.args@[0]).0;
                        if head_is(m0, ir, "jointchain"@) {
                            r matches Ok(NamedProjection::RelabeledJointchain { chain, labels }) && chain == ir
                                && crate::disintegrate::strs_view(labels@) == ls
                        } else {
                            match components_of(m0, c.args@[0]) {
                                Err((n, reason)) => refused(m0, r, n, reason),
                                Ok(comps) => if ls.len() != comps.len() {
                                    refused(m0, r, mi, relabel_count_reason(ls.len(), comps.len()))
                                } else {
                                    exists|mat: NodeId|
                                        #[trigger] labelled_joint(m, mat, ls, comps) && mat.0 >= m0.nodes@.len()
                                            && sub_product(m, m, mat, entries_of(m, mat), fields, false, "joint"@, r)
                                },
                            }
                        }
                    },
                }
            },
            _ => false,
        }
    } else if head_is(m0, mi, "jointchain"@) {
        r matches Ok(NamedProjection::Jointchain(x)) && x == mi
    } else {
        refused(m0, r, mi, non_product_reason(head_text(m0, mi)))
    }
}

proof fn lemma_first_field_stable(m1: Module, m2: Module, named: Seq<NamedArg>, f: Seq<char>, k: nat)
    requires
        m2.extends(&m1),
        entries_in(m1, named),
    ensures
        first_field(m2, named, f, k) == first_field(m1, named, f, k),
    decreases named.len() - k,
{
    if k < named.len() {
        assert(named[k as int].name.0 < m1.symbols@.len());
        lemma_first_field_stable(m1, m2, named, f, k + 1);
    }
}

proof fn lemma_selection_stable(m1: Module, m2: Module, named: Seq<NamedArg>, fields: Seq<Seq<char>>, i: nat)
    requires
        m2.extends(&m1),
        entries_in(m1, named),
    ensures
        selection(m2, named, fields, i) == selection(m1, named, fields, i),
    decreases fields.len() - i,
{
    if i < fields.len() {
        lemma_first_field_stable(m1, m2, named, fields[i as int], 0);
        lemma_selection_stable(m1, m2, named, fields, i + 1);
    }
}

proof fn lemma_unnormalized_drop_stable(
    m1: Module,
    m2: Module,
    named: Seq<NamedArg>,
    fields: Seq<Seq<char>>,
    k: nat,
)
    requires
        m1.wf(),
        m2.wf(),
        m2.extends(&m1),
        m2.bindings@ == m1.bindings@,
        entries_in(m1, named),
    ensures
        first_unnormalized_drop(m2, named, fields, false, k) == first_unnormalized_drop(m1, named, fields, false, k),
    decreases named.len() - k,
{
    if k < named.len() {
        let na = named[k as int];
        assert(na.name.0 < m1.symbols@.len());
        crate::density_broadcast::lemma_values_type_rebase(m1, m2, na.value);
        let x = crate::shape::resolve_one_spec(m1, na.value).0;
        assert(m2.types@[x.0 as int] == m1.types@[x.0 as int]);
        lemma_unnormalized_drop_stable(m1, m2, named, fields, k + 1);
    }
}

/// A projection of a keyword `joint` read against a grown arena.
proof fn lemma_sub_product_final(
    ma: Module,
    m: Module,
    node: NodeId,
    named: Seq<NamedArg>,
    fields: Seq<Seq<char>>,
    head: Seq<char>,
    r: Result<NamedProjection, RefuseError>,
)
    requires
        ma.wf(),
        m.wf(),
        m.extends(&ma),
        m.bindings@ == ma.bindings@,
        node.0 < ma.nodes@.len(),
        entries_in(ma, named),
        sub_product(ma, m, node, named, fields, false, head, r),
    ensures
        sub_product(m, m, node, named, fields, false, head, r),
{
    lemma_unnormalized_drop_stable(ma, m, named, fields, 0);
    lemma_selection_stable(ma, m, named, fields, 0);
    crate::density::lemma_construct_name_stable(ma, m, node);
}

/// Lower the projection `pushfwd(fn(get(_, fields)), M)` by field name, for
/// `M` at `inner_expr`, as far as it goes without scoring a measure (see
/// [`named_projection`]).
pub fn lower_named_projection(m: &mut Module, inner_expr: NodeId, fields: &Vec<String>) -> (r: Result<
    NamedProjection,
    RefuseError,
>)
    requires
        old(m).wf(),
        inner_expr.0 < old(m).nodes@.len(),
    ensures
        final(m).wf(),
        final(m).extends(old(m)),
        final(m).bindings@ == old(m).bindings@,
        crate::density::untyped_growth(*old(m), *final(m)),
        r matches Ok(NamedProjection::Score(sub)) ==> sub.0 < final(m).nodes@.len(),
        named_projection(*old(m), *final(m), inner_expr, crate::disintegrate::strs_view(fields@), r),
        r matches Ok(NamedProjection::Score(sub)) ==> sub.0 >= old(m).nodes@.len(),
{
    let ghost m0 = *m;
    let (m_inner, _) = crate::shape::resolve_ref_one(m, inner_expr);
    proof {
        assert(node_wf(m.nodes@[m_inner.0 as int], m_inner.0 as int, m.symbols@.len()));
    }
    if let Some(c) = crate::shape::expect_builtin_call(m, m_inner, "joint") {
        if c.args.len() != 0 {
            return Err(
                crate::shape::refuse(
                    m_inner,
                    m,
                    "structural projection needs a FIELD-KEYED product; a positional joint has no field labels to select — refuse rather than mislower",
                ),
            );
        }
        let named = copy_entries(m, m_inner);
        return project_fields(m, m_inner, &named, fields, false, "joint");
    }
    if let Some(c) = crate::shape::expect_builtin_call(m, m_inner, "record") {
        if c.args.len() != 0 {
            return Err(
                crate::shape::refuse(
                    m_inner,
                    m,
                    "structural projection needs a field-keyed record; positional args present — refuse rather than mislower",
                ),
            );
        }
        let named = copy_entries(m, m_inner);
        return project_fields(m, m_inner, &named, fields, true, "record");
    }
    if let Some(c) = crate::shape::expect_builtin_call(m, m_inner, "relabel") {
        if c.args.len() != 2 {
            return Err(crate::shape::refuse(m_inner, m, "relabel expects 2 args (measure, labels)"));
        }
        let inner = c.args[0];
        let labels_node = c.args[1];
        proof {
            assert(crate::ir::node_children(m.at(m_inner))[0] == c.args@[0]);
            assert(crate::ir::node_children(m.at(m_inner))[1] == c.args@[1]);
        }
        let labels = match crate::density::string_literal_vector(m, labels_node) {
            Some(ls) => ls,
            None => {
                return Err(
                    crate::shape::refuse(
                        m_inner,
                        m,
                        "relabel labels must be a vector of string literals to name the projected product's component slots",
                    ),
                );
            },
        };
        let (inner_resolved, _) = crate::shape::resolve_ref_one(m, inner);
        if crate::shape::expect_builtin_call(m, inner_resolved, "jointchain").is_some() {
            return Ok(NamedProjection::RelabeledJointchain { chain: inner_resolved, labels });
        }
        let components = match independent_product_components(m, inner) {
            Ok(cs) => cs,
            Err(e) => {
                return Err(e);
            },
        };
        if labels.len() != components.len() {
            let mut reason = String::from_str("relabel gives ");
            reason.append(crate::text::decimal_string(labels.len() as u128).as_str());
            reason.append(" label(s) for a ");
            reason.append(crate::text::decimal_string(components.len() as u128).as_str());
            reason.append(
                "-component product — a relabel names each component slot exactly once — refuse rather than mislower",
            );
            proof {
                reveal_strlit("relabel gives ");
                reveal_strlit(" label(s) for a ");
                reveal_strlit(
                    "-component product — a relabel names each component slot exactly once — refuse rather than mislower",
                );
            }
            return Err(crate::shape::refuse(m_inner, m, reason.as_str()));
        }
        let ghost ls = crate::disintegrate::strs_view(labels@);
        let mut named: Vec<NamedArg> = Vec::new();
        let mut k: usize = 0;
        while k < labels.len()
            invariant
                m0.wf(),
                m.wf(),
                m.extends(&m0),
                m.bindings@ == m0.bindings@,
                labels@.len() == components@.len(),
                crate::density::untyped_growth(m0, *m),
                ls == crate::disintegrate::strs_view(labels@),
                forall|q: int| 0 <= q < components@.len() ==> (#[trigger] components@[q]).0 < m0.nodes@.len(),
                k <= labels@.len(),
                named@.len() == k,
                entries_in(*m, named@),
                forall|i: int|
                    0 <= i < k ==> (#[trigger] named@[i]).kind == NamedKind::Field && m.name_of(named@[i].name)
                        == ls[i] && named@[i].value == components@[i],
            decreases labels@.len() - k,
        {
            let ghost before = *m;
            let name = m.intern(labels[k].as_str());
            proof {
                assert forall|i: int| 0 <= i < k implies m.name_of((#[trigger] named@[i]).name) == before.name_of(
                    named@[i].name,
                ) by {
                    assert(named@[i].name.0 < before.symbols@.len());
                }
                crate::term::lemma_extends_trans(m0, before, *m);
            }
            named.push(NamedArg { kind: NamedKind::Field, name, value: components[k] });
            k += 1;
        }
        let joint_sym = m.intern("joint");
        let ghost mj = *m;
        proof {
            assert forall|i: int| 0 <= i < named@.len() implies m.name_of((#[trigger] named@[i]).name) == ls[i] by {
                assert(named@[i].name.0 < m.symbols@.len());
            }
        }
        let entries = clone_entries(&named);
        let call = Call { head: CallHead::Builtin(joint_sym), args: Vec::new(), named, inputs: None };
        proof {
            assert forall|q: int| 0 <= q < crate::ir::call_children(call).len() implies (#[trigger] crate::ir::call_children(
                call,
            )[q]).0 < m.nodes@.len() by {
                assert(crate::ir::call_children(call)[q] == entries@[q].value);
            }
        }
        let materialized = m.add_node(Node::Call(call));
        let ghost ma = *m;
        let out = project_fields(m, materialized, &entries, fields, false, "joint");
        proof {
            crate::term::lemma_extends_trans(m0, mj, ma);
            crate::term::lemma_extends_trans(m0, ma, *m);
            lemma_sub_product_final(ma, *m, materialized, entries@, crate::disintegrate::strs_view(fields@), "joint"@, out);
            crate::density::lemma_untyped_trans(m0, ma, *m);
            assert(m.nodes@[materialized.0 as int] == ma.nodes@[materialized.0 as int]);
            assert(m.name_of(joint_sym) == ma.name_of(joint_sym));
            assert forall|i: int| 0 <= i < entries@.len() implies m.name_of((#[trigger] entries@[i]).name) == ls[i] by {
                assert(entries@[i].name.0 < ma.symbols@.len());
                assert(m.name_of(entries@[i].name) == ma.name_of(entries@[i].name));
            }
            assert(labelled_joint(*m, materialized, ls, components@));
            assert(entries_of(*m, materialized) == entries@);
        }
        return out;
    }
    if crate::shape::expect_builtin_call(m, m_inner, "jointchain").is_some() {
        return Ok(NamedProjection::Jointchain(m_inner));
    }
    let head = match crate::shape::builtin_name(m, m_inner) {
        Some(h) => h,
        None => "<non-builtin>",
    };
    let mut reason = String::from_str(
        "structural projection (§06 case 2) by FIELD NAME is closed-form only over an explicit field-keyed product (keyword `joint` / record-of-draws / `jointchain`) or an index-keyed product named by `relabel` (iid / positional joint); got `",
    );
    reason.append(head);
    reason.append(
        "`, which has no explicit product structure to select a field of — §06 case 2 permits refusing a projection off a non-product measure — refuse rather than mislower",
    );
    proof {
        reveal_strlit(
            "structural projection (§06 case 2) by FIELD NAME is closed-form only over an explicit field-keyed product (keyword `joint` / record-of-draws / `jointchain`) or an index-keyed product named by `relabel` (iid / positional joint); got `",
        );
        reveal_strlit(
            "`, which has no explicit product structure to select a field of — §06 case 2 permits refusing a projection off a non-product measure — refuse rather than mislower",
        );
        reveal_strlit("<non-builtin>");
    }
    Err(crate::shape::refuse(m_inner, m, reason.as_str()))
}

/// A copy of the named entries of the call at `id`.
fn copy_entries(m: &Module, id: NodeId) -> (v: Vec<NamedArg>)
    requires
        m.wf(),
        id.0 < m.nodes@.len(),
    ensures
        v@ == entries_of(*m, id),
        entries_in(*m, v@),
{
    proof {
        assert(node_wf(m.nodes@[id.0 as int], id.0 as int, m.symbols@.len()));
    }
    match m.node(id) {
        Node::Call(c) => {
            let v = clone_entries(&c.named);
            proof {
                assert forall|k: int| 0 <= k < v@.len() implies (#[trigger] v@[k]).name.0 < m.symbols@.len()
                    && v@[k].value.0 < m.nodes@.len() by {
                    let off = crate::ir::call_children(*c).len() - c.named@.len();
                    assert(crate::ir::node_children(m.at(id))[off + k] == c.named@[k].value);
                }
            }
            v
        },
        _ => Vec::new(),
    }
}

/// An element-wise copy of named entries.
fn clone_entries(named: &Vec<NamedArg>) -> (v: Vec<NamedArg>)
    ensures
        v@ == named@,
{
    let mut v: Vec<NamedArg> = Vec::new();
    let mut k: usize = 0;
    while k < named.len()
        invariant
            k <= named@.len(),
            v@ == named@.subrange(0, k as int),
        decreases named@.len() - k,
    {
        v.push(named[k]);
        k += 1;
        proof {
            assert(v@ =~= named@.subrange(0, k as int));
        }
    }
    proof {
        assert(named@.subrange(0, named@.len() as int) =~= named@);
    }
    v
}

/// One scored component of a record of independent draws: the law `measure`
/// of the draw at `draw_site`, the matching field `pinned` of the value, the
/// binding the field names (if any) and the built-in call over the draw that
/// the field is (if it is not the draw itself).
#[derive(Clone, Copy, PartialEq, Eq, Structural, Debug)]
pub struct Component {
    pub measure: NodeId,
    pub pinned: NodeId,
    pub draw_binding: Option<BindingId>,
    pub transform: Option<NodeId>,
    pub draw_site: NodeId,
}

/// The value of the first `%field` entry of `named`, from the `k`-th on,
/// named by the symbol `name`.
pub open spec fn field_value(named: Seq<NamedArg>, name: Symbol, k: nat) -> Option<NodeId>
    decreases named.len() - k,
{
    if k >= named.len() {
        None
    } else if named[k as int].kind == NamedKind::Field && named[k as int].name == name {
        Some(named[k as int].value)
    } else {
        field_value(named, name, k + 1)
    }
}

pub open spec fn multi_draw_reason() -> Seq<char> {
    "record field reaches more than one draw; the guard counts distinct draws, which equals the rank of the joint map only when each field is a map of a single draw — admitting this needs a real rank test on the joint map, so refuse rather than mislower"@
}

pub open spec fn not_a_draw_reason() -> Seq<char> {
    "field is not a draw, a reference to a draw, or a bijection of a draw"@
}

pub open spec fn rank_reason() -> Seq<char> {
    "record law has fewer distinct draws than fields, so its joint is carried by a lower-dimensional set and has no density (two fields resolve to the same draw)"@
}

/// The components of the measure record's entries `named` from the `k`-th
/// on, each paired with the same-named field of the value record's entries
/// `vnamed` (at `vres`); the first entry that fails names the refusal.
pub open spec fn record_components(
    m: Module,
    named: Seq<NamedArg>,
    record_node: NodeId,
    vres: NodeId,
    vnamed: Seq<NamedArg>,
    k: nat,
) -> Result<Seq<Component>, (NodeId, Seq<char>)>
    decreases named.len() - k,
{
    if k >= named.len() {
        Ok(Seq::empty())
    } else {
        let f = named[k as int];
        if f.kind != NamedKind::Field {
            Err((record_node, "non-field named arg in measure record"@))
        } else {
            match field_value(vnamed, f.name, 0) {
                None => Err((vres, "missing field in value record"@)),
                Some(pinned) => match component_draw(m, f.value) {
                    None => if draw_sites(m, f.value, Seq::empty(), Seq::empty()).len() > 1 {
                        Err((f.value, multi_draw_reason()))
                    } else {
                        Err((f.value, not_a_draw_reason()))
                    },
                    Some((measure, draw_binding, transform, draw_site)) => match record_components(
                        m,
                        named,
                        record_node,
                        vres,
                        vnamed,
                        k + 1,
                    ) {
                        Ok(rest) => Ok(
                            seq![(Component { measure, pinned, draw_binding, transform, draw_site })] + rest,
                        ),
                        Err(e) => Err(e),
                    },
                },
            }
        }
    }
}

/// No two components come from the same draw.
pub open spec fn distinct_draws(cs: Seq<Component>) -> bool {
    forall|i: int, j: int| 0 <= i < j < cs.len() ==> (#[trigger] cs[i]).draw_site != (#[trigger] cs[j]).draw_site
}

/// The components of `record(a = draw(Mₐ), …)` at `record_node` scored at the
/// value `v` (one reference hop), a record over the same fields: one per
/// field, in order (see [`record_components`]); refused unless both are
/// keyword records, and when two fields come from the same draw (the law
/// then has no density).
pub open spec fn independent_record(m: Module, record_node: NodeId, v: NodeId) -> Result<Seq<Component>, (NodeId, Seq<char>)> {
    let vres = crate::shape::resolve_one_spec(m, v).0;
    if !head_is(m, record_node, "record"@) {
        Err((record_node, "expected record"@))
    } else if !(m.at(record_node) matches Node::Call(c) && c.args@.len() == 0) {
        Err((record_node, "record with positional args is not a field-keyed product"@))
    } else if !head_is(m, vres, "record"@) {
        Err((vres, "value must be a record"@))
    } else if !(m.at(vres) matches Node::Call(c) && c.args@.len() == 0) {
        Err((vres, "value record with positional args"@))
    } else {
        match record_components(m, entries_of(m, record_node), record_node, vres, entries_of(m, vres), 0) {
            Err(e) => Err(e),
            Ok(cs) => if distinct_draws(cs) {
                Ok(cs)
            } else {
                Err((record_node, rank_reason()))
            },
        }
    }
}

/// `p` prepended to a component list.
pub open spec fn prepend_components(p: Seq<Component>, r: Result<Seq<Component>, (NodeId, Seq<char>)>) -> Result<
    Seq<Component>,
    (NodeId, Seq<char>),
> {
    match r {
        Ok(rest) => Ok(p + rest),
        Err(e) => Err(e),
    }
}

/// Match `record(a = draw(Mₐ), …)` at `record_node` against the value record
/// `v` (see [`independent_record`]).
pub fn match_independent_record(m: &Module, record_node: NodeId, v: NodeId) -> (r: Result<Vec<Component>, RefuseError>)
    requires
        m.wf(),
        record_node.0 < m.nodes@.len(),
        v.0 < m.nodes@.len(),
    ensures
        match independent_record(*m, record_node, v) {
            Ok(cs) => r matches Ok(x) && x@ == cs,
            Err((n, reason)) => refused(*m, r, n, reason),
        },
{
    let rec = match crate::shape::expect_builtin_call(m, record_node, "record") {
        Some(c) => c,
        None => {
            return Err(crate::shape::refuse(record_node, m, "expected record"));
        },
    };
    if rec.args.len() != 0 {
        return Err(crate::shape::refuse(record_node, m, "record with positional args is not a field-keyed product"));
    }
    let (vres, _) = crate::shape::resolve_ref_one(m, v);
    let vrec = match crate::shape::expect_builtin_call(m, vres, "record") {
        Some(c) => c,
        None => {
            return Err(crate::shape::refuse(vres, m, "value must be a record"));
        },
    };
    if vrec.args.len() != 0 {
        return Err(crate::shape::refuse(vres, m, "value record with positional args"));
    }
    let ghost named = rec.named@;
    let ghost vnamed = vrec.named@;
    let ghost verdict = match record_components(*m, named, record_node, vres, vnamed, 0) {
        Err(e) => Err(e),
        Ok(cs) => if distinct_draws(cs) {
            Ok(cs)
        } else {
            Err((record_node, rank_reason()))
        },
    };
    assert(independent_record(*m, record_node, v) == verdict);
    proof {
        assert(node_wf(m.nodes@[record_node.0 as int], record_node.0 as int, m.symbols@.len()));
        assert forall|k: int| 0 <= k < named.len() implies (#[trigger] named[k]).value.0 < m.nodes@.len() by {
            assert(crate::ir::node_children(m.at(record_node))[k] == rec.named@[k].value);
        }
    }
    let mut components: Vec<Component> = Vec::new();
    let mut k: usize = 0;
    while k < rec.named.len()
        invariant
            m.wf(),
            record_node.0 < m.nodes@.len(),
            vres.0 < m.nodes@.len(),
            independent_record(*m, record_node, v) == verdict,
            verdict == (match record_components(*m, named, record_node, vres, vnamed, 0) {
                Err(e) => Err(e),
                Ok(cs) => if distinct_draws(cs) {
                    Ok(cs)
                } else {
                    Err((record_node, rank_reason()))
                },
            }),
            named == rec.named@,
            vnamed == vrec.named@,
            forall|q: int| 0 <= q < named.len() ==> (#[trigger] named[q]).value.0 < m.nodes@.len(),
            k <= named.len(),
            record_components(*m, named, record_node, vres, vnamed, 0) == prepend_components(
                components@,
                record_components(*m, named, record_node, vres, vnamed, k as nat),
            ),
        decreases named.len() - k,
    {
        let field = rec.named[k];
        if field.kind != NamedKind::Field {
            return Err(crate::shape::refuse(record_node, m, "non-field named arg in measure record"));
        }
        let pinned = match crate::shape::lookup_field(vrec.named.as_slice(), field.name) {
            Some(p) => p,
            None => {
                proof {
                    lemma_field_value_none(vnamed, field.name, 0);
                }
                return Err(crate::shape::refuse(vres, m, "missing field in value record"));
            },
        };
        proof {
            lemma_field_value_some(vnamed, field.name, pinned, 0);
        }
        let (measure, draw_binding, transform, draw_site) = match resolve_component_draw(m, field.value) {
            Some(t) => t,
            None => {
                if field_draw_sites(m, field.value).len() > 1 {
                    return Err(
                        crate::shape::refuse(
                            field.value,
                            m,
                            "record field reaches more than one draw; the guard counts distinct draws, which equals the rank of the joint map only when each field is a map of a single draw — admitting this needs a real rank test on the joint map, so refuse rather than mislower",
                        ),
                    );
                }
                return Err(
                    crate::shape::refuse(
                        field.value,
                        m,
                        "field is not a draw, a reference to a draw, or a bijection of a draw",
                    ),
                );
            },
        };
        let c = Component { measure, pinned, draw_binding, transform, draw_site };
        proof {
            match record_components(*m, named, record_node, vres, vnamed, (k + 1) as nat) {
                Ok(rest) => {
                    assert(components@ + (seq![c] + rest) =~= components@.push(c) + rest);
                },
                Err(e) => {},
            }
        }
        components.push(c);
        k += 1;
    }
    proof {
        assert(components@ + Seq::<Component>::empty() =~= components@);
    }
    let mut i: usize = 0;
    while i < components.len()
        invariant
            m.wf(),
            record_node.0 < m.nodes@.len(),
            independent_record(*m, record_node, v) == verdict,
            verdict == (if distinct_draws(components@) {
                Ok(components@)
            } else {
                Err((record_node, rank_reason()))
            }),
            i <= components@.len(),
            forall|a: int, b: int| 0 <= a < i && a < b < components@.len() ==> (#[trigger] components@[a]).draw_site
                != (#[trigger] components@[b]).draw_site,
        decreases components@.len() - i,
    {
        let mut j: usize = i + 1;
        while j < components.len()
            invariant
                m.wf(),
                record_node.0 < m.nodes@.len(),
                independent_record(*m, record_node, v) == verdict,
                verdict == (if distinct_draws(components@) {
                    Ok(components@)
                } else {
                    Err((record_node, rank_reason()))
                }),
                i < components@.len(),
                i + 1 <= j <= components@.len(),
                forall|a: int, b: int| 0 <= a < i && a < b < components@.len() ==> (#[trigger] components@[a]).draw_site
                    != (#[trigger] components@[b]).draw_site,
                forall|b: int| i < b < j ==> components@[i as int].draw_site != (#[trigger] components@[b]).draw_site,
            decreases components@.len() - j,
        {
            if components[j].draw_site == components[i].draw_site {
                proof {
                    assert(!distinct_draws(components@));
                }
                return Err(
                    crate::shape::refuse(
                        record_node,
                        m,
                        "record law has fewer distinct draws than fields, so its joint is carried by a lower-dimensional set and has no density (two fields resolve to the same draw)",
                    ),
                );
            }
            j += 1;
        }
        i += 1;
    }
    Ok(components)
}

proof fn lemma_field_value_none(named: Seq<NamedArg>, name: Symbol, k: nat)
    requires
        forall|q: int| 0 <= q < named.len() ==> !((#[trigger] named[q]).kind == NamedKind::Field && named[q].name == name),
    ensures
        field_value(named, name, k) is None,
    decreases named.len() - k,
{
    if k < named.len() {
        lemma_field_value_none(named, name, k + 1);
    }
}

proof fn lemma_field_value_some(named: Seq<NamedArg>, name: Symbol, val: NodeId, k: nat)
    requires
        k <= named.len(),
        exists|q: int|
            k <= q < named.len() && (#[trigger] named[q]).kind == NamedKind::Field && named[q].name == name
                && named[q].value == val && forall|j: int|
                0 <= j < q ==> !((#[trigger] named[j]).kind == NamedKind::Field && named[j].name == name),
    ensures
        field_value(named, name, k) == Some(val),
    decreases named.len() - k,
{
    let q = choose|q: int|
        k <= q < named.len() && (#[trigger] named[q]).kind == NamedKind::Field && named[q].name == name
            && named[q].value == val && forall|j: int|
            0 <= j < q ==> !((#[trigger] named[j]).kind == NamedKind::Field && named[j].name == name);
    if q > k {
        assert(!(named[k as int].kind == NamedKind::Field && named[k as int].name == name));
        lemma_field_value_some(named, name, val, k + 1);
    }
}

pub open spec fn point_kind_reason() -> Seq<char> {
    "the query point's type does not match the kind of the pushforward base measure's variate, and every forward map synthesised here preserves that kind — a scalar-domain law scored at a record or vector has no change of variables (§06 \"Engine contract for pushfwd density evaluation\"): refuse rather than emit an ill-typed application of the inverse"@
}

/// Refuse the point `v` when its kind definitely differs from the kind of
/// the base domain `domain`.
pub fn refuse_variate_kind_mismatch(m: &Module, domain: &crate::ir::Type, v: NodeId) -> (r: Result<(), RefuseError>)
    requires
        m.wf(),
        v.0 < m.nodes@.len(),
    ensures
        if crate::density::variate_kind_spec(*domain) is Some && crate::density::point_kind(m.types@[v.0 as int]) is Some
            && crate::density::variate_kind_spec(*domain) != crate::density::point_kind(m.types@[v.0 as int]) {
            refused(*m, r, v, point_kind_reason())
        } else {
            r is Ok
        },
{
    let dk = crate::density::variate_kind(domain);
    let vk = match m.type_of(v) {
        Some(t) => crate::density::variate_kind(t),
        None => None,
    };
    if let (Some(a), Some(b)) = (dk, vk) {
        if a != b {
            return Err(
                crate::shape::refuse(
                    v,
                    m,
                    "the query point's type does not match the kind of the pushforward base measure's variate, and every forward map synthesised here preserves that kind — a scalar-domain law scored at a record or vector has no change of variables (§06 \"Engine contract for pushfwd density evaluation\"): refuse rather than emit an ill-typed application of the inverse",
                ),
            );
        }
    }
    Ok(())
}

/// Why the point `v` cannot be sliced into `k` selected components of the
/// measure at `node`: its kind differs from the measure's domain, or its
/// static leading length is not `k`.
pub open spec fn bad_index_point(m: Module, node: NodeId, v: NodeId, k: usize) -> Option<(NodeId, Seq<char>)> {
    let dk = crate::density::measure_domain_kind(m.types@[node.0 as int]);
    let vk = crate::density::point_kind(m.types@[v.0 as int]);
    if dk is Some && vk is Some && dk != vk {
        Some((v, point_kind_reason()))
    } else {
        match crate::density::static_lead(m.types@[v.0 as int]) {
            Some(n) => if n as usize != k {
                Some((v, crate::density::length_mismatch_reason(k as nat, n as nat)))
            } else {
                None
            },
            None => None,
        }
    }
}

/// Refuse a point the index projection cannot slice (see
/// [`bad_index_point`]).
pub fn refuse_bad_index_point(m: &Module, m_inner: NodeId, v: NodeId, k: usize) -> (r: Result<(), RefuseError>)
    requires
        m.wf(),
        m_inner.0 < m.nodes@.len(),
        v.0 < m.nodes@.len(),
    ensures
        match bad_index_point(*m, m_inner, v, k) {
            Some((n, reason)) => refused(*m, r, n, reason),
            None => r is Ok,
        },
{
    if let Some(crate::ir::Type::Measure { domain, .. }) = m.type_of(m_inner) {
        match refuse_variate_kind_mismatch(m, domain, v) {
            Ok(()) => {},
            Err(e) => {
                return Err(e);
            },
        }
    }
    crate::density::refuse_point_length_mismatch(m, v, k)
}

pub open spec fn dropped_component_reason(what: Seq<char>) -> Seq<char> {
    "projection drops a non-normalized component ("@ + what
        + "); the marginal is not closed-form here (§06 case 2 requires each dropped component to be a normalized probability measure) — refuse rather than mislower"@
}

/// The measure at `component` (one reference hop) is typed as a probability
/// measure.
pub open spec fn normalized_component(m: Module, component: NodeId) -> bool {
    crate::density::normalized_measure(m.types@[crate::shape::resolve_one_spec(m, component).0.0 as int])
}

/// Refuse at `node` when the dropped `component` is not a probability
/// measure; `what` names it in the refusal.
pub fn refuse_unnormalized_dropped_component(m: &Module, node: NodeId, component: NodeId, what: &str) -> (r: Result<
    (),
    RefuseError,
>)
    requires
        m.wf(),
        node.0 < m.nodes@.len(),
        component.0 < m.nodes@.len(),
    ensures
        if normalized_component(*m, component) {
            r is Ok
        } else {
            refused(*m, r, node, dropped_component_reason(what@))
        },
{
    let (resolved, _) = crate::shape::resolve_ref_one(m, component);
    let normalized = match m.type_of(resolved) {
        Some(crate::ir::Type::Measure { mass: crate::ir::Mass::Normalized, .. }) => true,
        _ => false,
    };
    if !normalized {
        let mut reason = String::from_str("projection drops a non-normalized component (");
        reason.append(what);
        reason.append(
            "); the marginal is not closed-form here (§06 case 2 requires each dropped component to be a normalized probability measure) — refuse rather than mislower",
        );
        proof {
            reveal_strlit("projection drops a non-normalized component (");
            reveal_strlit(
                "); the marginal is not closed-form here (§06 case 2 requires each dropped component to be a normalized probability measure) — refuse rather than mislower",
            );
        }
        return Err(crate::shape::refuse(node, m, reason.as_str()));
    }
    Ok(())
}

/// What a projection by index leaves to its caller.
#[derive(Debug)]
pub enum IndexProjection {
    /// Score each measure at its point, in order, and sum the terms: the
    /// marginal over the kept slots.
    ScoreEach(Vec<(NodeId, NodeId)>),
    /// Project the `jointchain` at this node by index: only a leading prefix
    /// of a scalar-cat chain is closed-form.
    Jointchain(NodeId),
}

pub open spec fn iid_index_slots_reason() -> Seq<char> {
    "structural projection over an iid whose size is not a statically-resolved 1-D count (dynamic / multi-axis / unresolved) — its slots cannot be selected by position — refuse rather than mislower"@
}

pub open spec fn keyword_joint_index_reason() -> Seq<char> {
    "structural projection by INDEX over a KEYWORD joint: its variate is a record keyed by field name, which an integer slot does not address — project it by name (`get(_, [\"a\", …])`) — refuse rather than mislower"@
}

pub open spec fn nonscalar_component_reason() -> Seq<char> {
    "structural projection by index over a positional joint needs every component's variate CONFIRMED scalar (a non-scalar or unresolved component occupies several `cat` slots, so an index no longer names a component) — refuse rather than mislower"@
}

pub open spec fn field_keyed_index_reason() -> Seq<char> {
    "structural projection by INDEX over a field-keyed measure (`relabel(...)` names its component slots, a record-of-draws is keyed by field): its variate is a record, which an integer slot does not address — project it by name — refuse rather than mislower"@
}

pub open spec fn index_non_product_reason(head: Seq<char>) -> Seq<char> {
    "structural projection (§06 case 2) by INDEX is closed-form only over an index-keyed product (`iid`, positional `joint`, scalar-cat `jointchain`); got `"@
        + head
        + "`, which has no explicit product structure to select a slot of — §06 case 2 permits refusing a projection off a non-product measure — refuse rather than mislower"@
}

/// Node `p` is `get0(v, j)` with `j` an integer literal.
pub open spec fn slot_point(m: Module, p: NodeId, v: NodeId, j: int) -> bool {
    plain_args_of(m, p, "get0"@) matches Some(a) && a.len() == 2 && a[0] == v && a[1].0 < m.nodes@.len() && m.at(a[1])
        == Node::Lit(crate::ir::Scalar::Int(j as i64))
}

/// The positional arguments of the plain built-in call `name(…)` at `id`.
pub open spec fn plain_args_of(m: Module, id: NodeId, name: Seq<char>) -> Option<Seq<NodeId>> {
    crate::density::plain_args(m, id, name)
}

/// The `j`-th pair scores `measure(j)` at the slot `get0(v, j)`.
pub open spec fn slot_pairs(m: Module, ps: Seq<(NodeId, NodeId)>, v: NodeId, measure: spec_fn(int) -> NodeId) -> bool {
    forall|j: int| 0 <= j < ps.len() ==> (#[trigger] ps[j]).0 == measure(j) && ps[j].1.0 < m.nodes@.len() && slot_point(m, ps[j].1, v, j)
}

/// The first component from the `k`-th on whose variate is not confirmed
/// scalar.
pub open spec fn first_nonscalar(m: Module, comps: Seq<NodeId>, k: nat) -> Option<NodeId>
    decreases comps.len() - k,
{
    if k >= comps.len() {
        None
    } else if crate::density::measure_domain_kind(
        m.types@[crate::shape::resolve_one_spec(m, comps[k as int]).0.0 as int],
    ) != Some(crate::density::VariateKind::Scalar) {
        Some(comps[k as int])
    } else {
        first_nonscalar(m, comps, k + 1)
    }
}

/// Some written index in `raw` names the position `i` (indices start at
/// `lo`).
pub open spec fn kept_slot(raw: Seq<i64>, lo: int, i: int) -> bool {
    exists|z: int| 0 <= z < raw.len() && #[trigger] raw[z] == i + lo
}

/// The first position from the `i`-th on whose component the written
/// indices `raw` drop and that is not a probability measure.
pub open spec fn first_unnormalized_slot(m: Module, comps: Seq<NodeId>, raw: Seq<i64>, lo: int, i: nat) -> Option<nat>
    decreases comps.len() - i,
{
    if i >= comps.len() {
        None
    } else if !kept_slot(raw, lo, i as int) && !normalized_component(m, comps[i as int]) {
        Some(i)
    } else {
        first_unnormalized_slot(m, comps, raw, lo, i + 1)
    }
}

/// What [`lower_index_projection`] does with `pushfwd(fn(get(_, raw)), M)`
/// for `M` at `inner_expr` of `m0` (one reference hop), scored at `v`, the
/// arena grown to `m`:
/// - `iid(M₀, n)` of static size `n`: after the point checks
///   ([`bad_index_point`]), the indices ([`index_refusal`]) and, when some
///   slot is dropped, `M₀`'s mass, `M₀` scored at each kept slot's
///   `get0(v, j)`;
/// - a positional `joint` of at least two components, each of confirmed
///   scalar variate: after the same checks and the mass of each dropped
///   component, each kept component scored at `get0(v, j)`;
/// - a `jointchain`: left to the caller;
/// - anything else, a field-keyed `relabel` or record among them, refused.
pub open spec fn index_projection(
    m0: Module,
    m: Module,
    inner_expr: NodeId,
    raw: Seq<i64>,
    one_based: bool,
    v: NodeId,
    r: Result<IndexProjection, RefuseError>,
) -> bool {
    let mi = crate::shape::resolve_one_spec(m0, inner_expr).0;
    if head_is(m0, mi, "iid"@) {
        match bad_index_point(m0, mi, v, raw.len() as usize) {
            Some((n, reason)) => refused(m0, r, n, reason),
            None => match iid_size(m0.types@[mi.0 as int]) {
                None => refused(m0, r, mi, iid_index_slots_reason()),
                Some(n) => if n > i64::MAX {
                    refused(m0, r, mi, iid_index_slots_reason())
                } else {
                    match m0.at(mi) {
                        Node::Call(c) => if c.args@.len() != 2 {
                            refused(m0, r, mi, "iid expects 2 args (measure, size)"@)
                        } else if !crate::density::indices_ok(raw, one_based, n as nat) {
                            r matches Err(e) && crate::density::index_refusal(m0, mi, raw, one_based, n as nat, e)
                        } else if raw.len() < n && !normalized_component(m0, c.args@[0]) {
                            refused(m0, r, mi, dropped_component_reason("iid component"@))
                        } else {
                            r matches Ok(IndexProjection::ScoreEach(ps)) && ps@.len() == raw.len() && slot_pairs(
                                m,
                                ps@,
                                v,
                                |j: int| c.args@[0],
                            )
                        },
                        _ => false,
                    }
                },
            },
        }
    } else if head_is(m0, mi, "joint"@) {
        match m0.at(mi) {
            Node::Call(c) => if c.named@.len() != 0 {
                refused(m0, r, mi, keyword_joint_index_reason())
            } else if c.args@.len() < 2 {
                refused(m0, r, mi, "joint needs at least 2 components"@)
            } else {
                match bad_index_point(m0, mi, v, raw.len() as usize) {
                    Some((n, reason)) => refused(m0, r, n, reason),
                    None => match first_nonscalar(m0, c.args@, 0) {
                        Some(comp) => refused(m0, r, comp, nonscalar_component_reason()),
                        None => {
                            let lo = crate::density::index_range(one_based, c.args@.len()).0;
                            if !crate::density::indices_ok(raw, one_based, c.args@.len()) {
                                r matches Err(e) && crate::density::index_refusal(
                                    m0,
                                    mi,
                                    raw,
                                    one_based,
                                    c.args@.len(),
                                    e,
                                )
                            } else {
                                match first_unnormalized_slot(m0, c.args@, raw, lo, 0) {
                                    Some(i) => refused(
                                        m0,
                                        r,
                                        mi,
                                        dropped_component_reason("joint component "@ + crate::text::decimal(i + 1)),
                                    ),
                                    None => r matches Ok(IndexProjection::ScoreEach(ps)) && ps@.len() == raw.len()
                                        && slot_pairs(m, ps@, v, |j: int| c.args@[raw[j] - lo]),
                                }
                            }
                        },
                    },
                }
            },
            _ => false,
        }
    } else if head_is(m0, mi, "jointchain"@) {
        r matches Ok(IndexProjection::Jointchain(x)) && x == mi
    } else if head_is(m0, mi, "relabel"@) || head_is(m0, mi, "record"@) {
        refused(m0, r, mi, field_keyed_index_reason())
    } else {
        refused(m0, r, mi, index_non_product_reason(head_text(m0, mi)))
    }
}

/// `get0(v, j)` for the slot `j`.
pub fn slot_of(m: &mut Module, v: NodeId, j: usize) -> (p: NodeId)
    requires
        old(m).wf(),
        v.0 < old(m).nodes@.len(),
    ensures
        final(m).wf(),
        final(m).extends(old(m)),
        final(m).bindings@ == old(m).bindings@,
        crate::density::untyped_growth(*old(m), *final(m)),
        p.0 < final(m).nodes@.len(),
        slot_point(*final(m), p, v, j as int),
{
    let idx = m.add_node(Node::Lit(crate::ir::Scalar::Int(#[verifier::truncate] (j as i64))));
    let ghost mi = *m;
    let mut a: Vec<NodeId> = Vec::new();
    a.push(v);
    a.push(idx);
    let p = build_call(m, "get0", a.as_slice());
    proof {
        assert(a@ =~= seq![v, idx]);
        assert(crate::disintegrate::plain_call(*m, p, "get0"@, seq![v, idx]));
        assert(m.nodes@[idx.0 as int] == mi.nodes@[idx.0 as int]);
    }
    p
}

pub proof fn lemma_slot_point_stable(m1: Module, m2: Module, p: NodeId, v: NodeId, j: int)
    requires
        m1.wf(),
        m2.extends(&m1),
        p.0 < m1.nodes@.len(),
        slot_point(m1, p, v, j),
    ensures
        slot_point(m2, p, v, j),
{
    assert(m2.nodes@[p.0 as int] == m1.nodes@[p.0 as int]);
    assert(node_wf(m1.nodes@[p.0 as int], p.0 as int, m1.symbols@.len()));
    if let Node::Call(c) = m1.at(p) {
        if let CallHead::Builtin(s) = c.head {
            assert(m2.name_of(s) == m1.name_of(s));
        }
        let a = c.args@;
        assert(m2.nodes@[a[1].0 as int] == m1.nodes@[a[1].0 as int]);
    }
}

/// The kept measures, each scored at its slot `get0(v, j)`.
fn score_slots(m: &mut Module, measures: &Vec<NodeId>, v: NodeId) -> (ps: Vec<(NodeId, NodeId)>)
    requires
        old(m).wf(),
        v.0 < old(m).nodes@.len(),
    ensures
        final(m).wf(),
        final(m).extends(old(m)),
        final(m).bindings@ == old(m).bindings@,
        crate::density::untyped_growth(*old(m), *final(m)),
        ps@.len() == measures@.len(),
        slot_pairs(*final(m), ps@, v, |j: int| measures@[j]),
{
    let ghost m0 = *m;
    let mut ps: Vec<(NodeId, NodeId)> = Vec::new();
    let mut j: usize = 0;
    while j < measures.len()
        invariant
            m0.wf(),
            m.wf(),
            m.extends(&m0),
            m.bindings@ == m0.bindings@,
            crate::density::untyped_growth(m0, *m),
            v.0 < m0.nodes@.len(),
            j <= measures@.len(),
            ps@.len() == j,
            forall|q: int|
                0 <= q < j ==> (#[trigger] ps@[q]).0 == measures@[q] && ps@[q].1.0 < m.nodes@.len() && slot_point(
                    *m,
                    ps@[q].1,
                    v,
                    q,
                ),
        decreases measures@.len() - j,
    {
        let ghost before = *m;
        let p = slot_of(m, v, j);
        proof {
            assert forall|q: int| 0 <= q < j implies slot_point(*m, (#[trigger] ps@[q]).1, v, q) by {
                lemma_slot_point_stable(before, *m, ps@[q].1, v, q);
            }
            crate::term::lemma_extends_trans(m0, before, *m);
            crate::density::lemma_untyped_trans(m0, before, *m);
        }
        ps.push((measures[j], p));
        j += 1;
    }
    ps
}

/// Lower the projection `pushfwd(fn(get(_, raw)), M)` by index, for `M` at
/// `inner_expr` scored at `v`, as far as it goes without scoring a measure
/// (see [`index_projection`]). The slot points are all built before any is
/// scored.
pub fn lower_index_projection(
    m: &mut Module,
    inner_expr: NodeId,
    raw: &Vec<i64>,
    one_based: bool,
    v: NodeId,
) -> (r: Result<IndexProjection, RefuseError>)
    requires
        old(m).wf(),
        inner_expr.0 < old(m).nodes@.len(),
        v.0 < old(m).nodes@.len(),
    ensures
        final(m).wf(),
        final(m).extends(old(m)),
        final(m).bindings@ == old(m).bindings@,
        crate::density::untyped_growth(*old(m), *final(m)),
        r matches Ok(IndexProjection::ScoreEach(ps)) ==> forall|j: int| 0 <= j < ps@.len() ==> (#[trigger] ps@[j]).0.0 < final(m).nodes@.len() && ps@[j].1.0 < final(m).nodes@.len(),
        index_projection(*old(m), *final(m), inner_expr, raw@, one_based, v, r),
        r is Err ==> *final(m) == *old(m),
{
    let ghost m0 = *m;
    let (m_inner, _) = crate::shape::resolve_ref_one(m, inner_expr);
    proof {
        assert(node_wf(m.nodes@[m_inner.0 as int], m_inner.0 as int, m.symbols@.len()));
    }
    if let Some(c) = crate::shape::expect_builtin_call(m, m_inner, "iid") {
        match refuse_bad_index_point(m, m_inner, v, raw.len()) {
            Ok(()) => {},
            Err(e) => {
                return Err(e);
            },
        }
        let n = match iid_static_size(m, m_inner) {
            Some(n) => n,
            None => {
                return Err(
                    crate::shape::refuse(
                        m_inner,
                        m,
                        "structural projection over an iid whose size is not a statically-resolved 1-D count (dynamic / multi-axis / unresolved) — its slots cannot be selected by position — refuse rather than mislower",
                    ),
                );
            },
        };
        if (n as u128) > (i64::MAX as u128) {
            return Err(
                crate::shape::refuse(
                    m_inner,
                    m,
                    "structural projection over an iid whose size is not a statically-resolved 1-D count (dynamic / multi-axis / unresolved) — its slots cannot be selected by position — refuse rather than mislower",
                ),
            );
        }
        if c.args.len() != 2 {
            return Err(crate::shape::refuse(m_inner, m, "iid expects 2 args (measure, size)"));
        }
        let inner = c.args[0];
        proof {
            assert(crate::ir::node_children(m.at(m_inner))[0] == c.args@[0]);
        }
        let kept = match crate::density::normalize_selected_indices(m, m_inner, raw, one_based, n) {
            Ok(k) => k,
            Err(e) => {
                return Err(e);
            },
        };
        if kept.len() < n {
            match refuse_unnormalized_dropped_component(m, m_inner, inner, "iid component") {
                Ok(()) => {},
                Err(e) => {
                    proof {
                        reveal_strlit("iid component");
                    }
                    return Err(e);
                },
            }
        }
        let mut measures: Vec<NodeId> = Vec::new();
        let mut j: usize = 0;
        while j < kept.len()
            invariant
                j <= kept@.len(),
                measures@ == Seq::new(j as nat, |q: int| inner),
            decreases kept@.len() - j,
        {
            measures.push(inner);
            j += 1;
            proof {
                assert(measures@ =~= Seq::new(j as nat, |q: int| inner));
            }
        }
        let ps = score_slots(m, &measures, v);
        proof {
            assert forall|q: int| 0 <= q < ps@.len() implies (#[trigger] ps@[q]).0 == c.args@[0] by {
                assert(measures@[q] == inner);
            }
        }
        return Ok(IndexProjection::ScoreEach(ps));
    }
    if let Some(c) = crate::shape::expect_builtin_call(m, m_inner, "joint") {
        if c.named.len() != 0 {
            return Err(
                crate::shape::refuse(
                    m_inner,
                    m,
                    "structural projection by INDEX over a KEYWORD joint: its variate is a record keyed by field name, which an integer slot does not address — project it by name (`get(_, [\"a\", …])`) — refuse rather than mislower",
                ),
            );
        }
        if c.args.len() < 2 {
            return Err(crate::shape::refuse(m_inner, m, "joint needs at least 2 components"));
        }
        match refuse_bad_index_point(m, m_inner, v, raw.len()) {
            Ok(()) => {},
            Err(e) => {
                return Err(e);
            },
        }
        let comps = copy_args(m, m_inner);
        let mut k: usize = 0;
        while k < comps.len()
            invariant
                m.wf(),
                *m == m0,
                m0 == *old(m),
                m_inner == crate::shape::resolve_one_spec(m0, inner_expr).0,
                m_inner.0 < m.nodes@.len(),
                m.at(m_inner) == Node::Call(*c),
                head_is(m0, m_inner, "joint"@),
                !head_is(m0, m_inner, "iid"@),
                c.named@.len() == 0,
                c.args@.len() >= 2,
                bad_index_point(m0, m_inner, v, raw@.len() as usize) is None,
                comps@ == c.args@,
                forall|q: int| 0 <= q < comps@.len() ==> (#[trigger] comps@[q]).0 < m.nodes@.len(),
                k <= comps@.len(),
                first_nonscalar(*m, comps@, 0) == first_nonscalar(*m, comps@, k as nat),
            decreases comps@.len() - k,
        {
            let (resolved, _) = crate::shape::resolve_ref_one(m, comps[k]);
            let kind = match m.type_of(resolved) {
                Some(crate::ir::Type::Measure { domain, .. }) => crate::density::variate_kind(domain),
                _ => None,
            };
            let scalar = match kind {
                Some(crate::density::VariateKind::Scalar) => true,
                _ => false,
            };
            if !scalar {
                return Err(
                    crate::shape::refuse(
                        comps[k],
                        m,
                        "structural projection by index over a positional joint needs every component's variate CONFIRMED scalar (a non-scalar or unresolved component occupies several `cat` slots, so an index no longer names a component) — refuse rather than mislower",
                    ),
                );
            }
            k += 1;
        }
        let kept = match crate::density::normalize_selected_indices(m, m_inner, raw, one_based, comps.len()) {
            Ok(kp) => kp,
            Err(e) => {
                return Err(e);
            },
        };
        let ghost lo = crate::density::index_range(one_based, comps@.len()).0;
        let mut i: usize = 0;
        while i < comps.len()
            invariant
                m.wf(),
                *m == m0,
                m0 == *old(m),
                m_inner == crate::shape::resolve_one_spec(m0, inner_expr).0,
                m_inner.0 < m.nodes@.len(),
                m.at(m_inner) == Node::Call(*c),
                head_is(m0, m_inner, "joint"@),
                !head_is(m0, m_inner, "iid"@),
                c.named@.len() == 0,
                c.args@.len() >= 2,
                bad_index_point(m0, m_inner, v, raw@.len() as usize) is None,
                first_nonscalar(m0, c.args@, 0) is None,
                crate::density::indices_ok(raw@, one_based, c.args@.len()),
                comps@ == c.args@,
                forall|q: int| 0 <= q < comps@.len() ==> (#[trigger] comps@[q]).0 < m.nodes@.len(),
                kept@.len() == raw@.len(),
                forall|q: int| 0 <= q < raw@.len() ==> #[trigger] kept@[q] == raw@[q] - lo,
                lo == crate::density::index_range(one_based, comps@.len()).0,
                0 <= lo <= 1,
                i <= comps@.len(),
                first_unnormalized_slot(*m, comps@, raw@, lo, 0) == first_unnormalized_slot(
                    *m,
                    comps@,
                    raw@,
                    lo,
                    i as nat,
                ),
            decreases comps@.len() - i,
        {
            let mut kept_here = false;
            let mut q: usize = 0;
            while q < kept.len()
                invariant
                    q <= kept@.len(),
                    kept@.len() == raw@.len(),
                    forall|z: int| 0 <= z < raw@.len() ==> #[trigger] kept@[z] == raw@[z] - lo,
                    kept_here == exists|z: int| 0 <= z < q && #[trigger] raw@[z] == i + lo,
                decreases kept@.len() - q,
            {
                if kept[q] == i {
                    kept_here = true;
                }
                q += 1;
            }
            proof {
                assert(kept_here == kept_slot(raw@, lo, i as int));
            }
            if !kept_here {
                let mut what = String::from_str("joint component ");
                what.append(crate::text::decimal_string((i + 1) as u128).as_str());
                proof {
                    reveal_strlit("joint component ");
                }
                match refuse_unnormalized_dropped_component(m, m_inner, comps[i], what.as_str()) {
                    Ok(()) => {},
                    Err(e) => {
                        return Err(e);
                    },
                }
            }
            i += 1;
        }
        let mut measures: Vec<NodeId> = Vec::new();
        let mut j: usize = 0;
        while j < kept.len()
            invariant
                j <= kept@.len(),
                comps@ == c.args@,
                kept@.len() == raw@.len(),
                forall|q: int| 0 <= q < kept@.len() ==> #[trigger] kept@[q] < comps@.len(),
                forall|q: int| 0 <= q < raw@.len() ==> #[trigger] kept@[q] == raw@[q] - lo,
                measures@.len() == j,
                forall|q: int| 0 <= q < j ==> #[trigger] measures@[q] == c.args@[raw@[q] - lo],
            decreases kept@.len() - j,
        {
            measures.push(comps[kept[j]]);
            j += 1;
        }
        let ps = score_slots(m, &measures, v);
        return Ok(IndexProjection::ScoreEach(ps));
    }
    if crate::shape::expect_builtin_call(m, m_inner, "jointchain").is_some() {
        return Ok(IndexProjection::Jointchain(m_inner));
    }
    if crate::shape::expect_builtin_call(m, m_inner, "relabel").is_some() || crate::shape::expect_builtin_call(
        m,
        m_inner,
        "record",
    ).is_some() {
        return Err(
            crate::shape::refuse(
                m_inner,
                m,
                "structural projection by INDEX over a field-keyed measure (`relabel(...)` names its component slots, a record-of-draws is keyed by field): its variate is a record, which an integer slot does not address — project it by name — refuse rather than mislower",
            ),
        );
    }
    let head = match crate::shape::builtin_name(m, m_inner) {
        Some(h) => h,
        None => "<non-builtin>",
    };
    let mut reason = String::from_str(
        "structural projection (§06 case 2) by INDEX is closed-form only over an index-keyed product (`iid`, positional `joint`, scalar-cat `jointchain`); got `",
    );
    reason.append(head);
    reason.append(
        "`, which has no explicit product structure to select a slot of — §06 case 2 permits refusing a projection off a non-product measure — refuse rather than mislower",
    );
    proof {
        reveal_strlit(
            "structural projection (§06 case 2) by INDEX is closed-form only over an index-keyed product (`iid`, positional `joint`, scalar-cat `jointchain`); got `",
        );
        reveal_strlit(
            "`, which has no explicit product structure to select a slot of — §06 case 2 permits refusing a projection off a non-product measure — refuse rather than mislower",
        );
        reveal_strlit("<non-builtin>");
    }
    Err(crate::shape::refuse(m_inner, m, reason.as_str()))
}

/// A copy of the positional arguments of the call at `id`.
fn copy_args(m: &Module, id: NodeId) -> (v: Vec<NodeId>)
    requires
        m.wf(),
        id.0 < m.nodes@.len(),
    ensures
        v@ == (match m.at(id) {
            Node::Call(c) => c.args@,
            _ => Seq::empty(),
        }),
        forall|k: int| 0 <= k < v@.len() ==> (#[trigger] v@[k]).0 < m.nodes@.len(),
{
    proof {
        assert(node_wf(m.nodes@[id.0 as int], id.0 as int, m.symbols@.len()));
    }
    match m.node(id) {
        Node::Call(c) => {
            let mut v: Vec<NodeId> = Vec::new();
            let mut k: usize = 0;
            while k < c.args.len()
                invariant
                    m.wf(),
                    id.0 < m.nodes@.len(),
                    m.at(id) == Node::Call(*c),
                    k <= c.args@.len(),
                    v@ == c.args@.subrange(0, k as int),
                    forall|q: int| 0 <= q < v@.len() ==> (#[trigger] v@[q]).0 < m.nodes@.len(),
                decreases c.args@.len() - k,
            {
                proof {
                    assert(node_wf(m.nodes@[id.0 as int], id.0 as int, m.symbols@.len()));
                    if c.head is User {
                        assert(crate::ir::node_children(m.at(id))[k + 1] == c.args@[k as int]);
                    } else {
                        assert(crate::ir::node_children(m.at(id))[k as int] == c.args@[k as int]);
                    }
                }
                v.push(c.args[k]);
                k += 1;
                proof {
                    assert(v@ =~= c.args@.subrange(0, k as int));
                }
            }
            proof {
                assert(c.args@.subrange(0, c.args@.len() as int) =~= c.args@);
            }
            v
        },
        _ => Vec::new(),
    }
}

/// What a structural projection leaves to its caller, by selector kind.
#[derive(Debug)]
pub enum ProjectionStep {
    Named(NamedProjection),
    Index(IndexProjection),
}

pub open spec fn single_element_reason() -> Seq<char> {
    "structural projection (§06 case 2) is recognised for the SUBSET selector `pushfwd(fn(get(_, [k, …])), M)`; single-element access `get(_, k)` projects onto one component and changes the variate kind — write the subset form and score at a one-component point — refuse rather than mislower"@
}

pub open spec fn unsupported_selector_reason(what: Seq<char>) -> Seq<char> {
    "structural projection (§06 case 2) is recognised but uses "@ + what
        + ", which this arm does not lower to a closed-form marginal; the supported selectors are a vector of field names `get(_, [\"a\", …])` and a vector of component indices `get(_, [1, …])` — refuse rather than mislower"@
}

/// What [`lower_projection_pushfwd`] does with `pushfwd(fn(get(_, sel)), M)`
/// for `M` at `inner_expr` of `m0` scored at `v`: a single-element access and
/// an unsupported selector are refused at `M` (one reference hop); field
/// names project by name ([`named_projection`]), indices by position
/// ([`index_projection`]).
pub open spec fn projection_step(
    m0: Module,
    m: Module,
    inner_expr: NodeId,
    sel: crate::density::SelectorV,
    subset: bool,
    v: NodeId,
    r: Result<ProjectionStep, RefuseError>,
) -> bool {
    let mi = crate::shape::resolve_one_spec(m0, inner_expr).0;
    if !subset {
        refused(m0, r, mi, single_element_reason())
    } else {
        match sel {
            crate::density::SelectorV::Names(fields) => match r {
                Ok(ProjectionStep::Named(x)) => named_projection(m0, m, inner_expr, fields, Ok(x)),
                Err(e) => named_projection(m0, m, inner_expr, fields, Err(e)),
                _ => false,
            },
            crate::density::SelectorV::Indices(raw, one_based) => match r {
                Ok(ProjectionStep::Index(x)) => index_projection(m0, m, inner_expr, raw, one_based, v, Ok(x)),
                Err(e) => index_projection(m0, m, inner_expr, raw, one_based, v, Err(e)),
                _ => false,
            },
            crate::density::SelectorV::Unsupported(what) => refused(m0, r, mi, unsupported_selector_reason(what)),
        }
    }
}

/// Lower the structural projection `pushfwd(fn(get(_, sel)), M)`, for `M` at
/// `inner_expr` scored at `v` (see [`projection_step`]).
pub fn lower_projection_pushfwd(
    m: &mut Module,
    inner_expr: NodeId,
    proj: &crate::density::GetProjection,
    v: NodeId,
) -> (r: Result<ProjectionStep, RefuseError>)
    requires
        old(m).wf(),
        inner_expr.0 < old(m).nodes@.len(),
        v.0 < old(m).nodes@.len(),
    ensures
        final(m).wf(),
        final(m).extends(old(m)),
        final(m).bindings@ == old(m).bindings@,
        crate::density::untyped_growth(*old(m), *final(m)),
        r matches Ok(ProjectionStep::Index(IndexProjection::ScoreEach(ps))) ==> forall|j: int| 0 <= j < ps@.len() ==> (#[trigger] ps@[j]).0.0 < final(m).nodes@.len() && ps@[j].1.0 < final(m).nodes@.len(),
        r matches Ok(ProjectionStep::Named(NamedProjection::Score(sub))) ==> sub.0 < final(m).nodes@.len(),
        projection_step(*old(m), *final(m), inner_expr, crate::density::selector_view(proj.sel), proj.subset, v, r),
{
    let ghost m0 = *m;
    if !proj.subset {
        let (m_inner, _) = crate::shape::resolve_ref_one(m, inner_expr);
        return Err(
            crate::shape::refuse(
                m_inner,
                m,
                "structural projection (§06 case 2) is recognised for the SUBSET selector `pushfwd(fn(get(_, [k, …])), M)`; single-element access `get(_, k)` projects onto one component and changes the variate kind — write the subset form and score at a one-component point — refuse rather than mislower",
            ),
        );
    }
    match &proj.sel {
        crate::density::Selector::Names(fields) => {
            let nr = lower_named_projection(m, inner_expr, fields);
            let ghost nr_g = nr;
            let r = match nr {
                Ok(x) => Ok(ProjectionStep::Named(x)),
                Err(e) => Err(e),
            };
            proof {
                assert(named_projection(m0, *m, inner_expr, crate::disintegrate::strs_view(fields@), nr_g));
                assert(crate::density::selector_view(proj.sel) == crate::density::SelectorV::Names(
                    crate::disintegrate::strs_view(fields@),
                ));

            }
            r
        },
        crate::density::Selector::Indices { raw, one_based } => {
            let ir = lower_index_projection(m, inner_expr, raw, *one_based, v);
            let ghost ir_g = ir;
            let r = match ir {
                Ok(x) => Ok(ProjectionStep::Index(x)),
                Err(e) => Err(e),
            };
            proof {
                assert(index_projection(m0, *m, inner_expr, raw@, *one_based, v, ir_g));
                assert(crate::density::selector_view(proj.sel) == crate::density::SelectorV::Indices(raw@, *one_based));
            }
            r
        },
        crate::density::Selector::Unsupported(what) => {
            let (m_inner, _) = crate::shape::resolve_ref_one(m, inner_expr);
            let mut reason = String::from_str("structural projection (§06 case 2) is recognised but uses ");
            reason.append(what);
            reason.append(
                ", which this arm does not lower to a closed-form marginal; the supported selectors are a vector of field names `get(_, [\"a\", …])` and a vector of component indices `get(_, [1, …])` — refuse rather than mislower",
            );
            proof {
                reveal_strlit("structural projection (§06 case 2) is recognised but uses ");
                reveal_strlit(
                    ", which this arm does not lower to a closed-form marginal; the supported selectors are a vector of field names `get(_, [\"a\", …])` and a vector of component indices `get(_, [1, …])` — refuse rather than mislower",
                );
            }
            Err(crate::shape::refuse(m_inner, m, reason.as_str()))
        },
    }
}

} // verus!

