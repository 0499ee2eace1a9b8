//! Greedy legalizer: the measure-layer scans, the rewrite rules it applies
//! in priority order, and the dead-measure-binding sweep that follows each
//! rewrite.

use vstd::prelude::*;
use crate::ir::{
    node_wf, str_eq, BindingId, CallHead, Inputs, Module, Node, NodeId, Ref, RefNs, Scalar, Symbol,
    Type,
};
use crate::reach::{bfs_find, in_subtree};
use crate::refuse::RefuseError;
use crate::shape::{builtin_of, is_builtin_named, unary_builtin_arg};
use crate::term::{rewrite, term};
use crate::tree::{leaf_map_ok, map_tree};

verus! {

/// The measure-algebra vocabulary: op names whose presence marks a node that
/// must be eliminated before the module is FlatPDL-conformant.
pub open spec fn measure_vocab(name: Seq<char>) -> bool {
    ||| name == "draw"@
    ||| name == "lawof"@
    ||| name == "kernelof"@
    ||| name == "joint"@
    ||| name == "iid"@
    ||| name == "jointchain"@
    ||| name == "kchain"@
    ||| name == "markovchain"@
    ||| name == "kscan"@
    ||| name == "superpose"@
    ||| name == "weighted"@
    ||| name == "logweighted"@
    ||| name == "normalize"@
    ||| name == "truncate"@
    ||| name == "pushfwd"@
    ||| name == "locscale"@
    ||| name == "bayesupdate"@
    ||| name == "disintegrate"@
    ||| name == "restrict"@
    ||| name == "logdensityof"@
    ||| name == "densityof"@
    ||| name == "rand"@
    ||| name == "totalmass"@
    ||| name == "likelihoodof"@
    ||| name == "joint_likelihood"@
}

/// Whether `name` is in the measure-algebra vocabulary.
pub fn in_measure_vocab(name: &str) -> (r: bool)
    ensures
        r == measure_vocab(name@),
{
    str_eq(name, "draw") || str_eq(name, "lawof") || str_eq(name, "kernelof") || str_eq(name, "joint")
        || str_eq(name, "iid") || str_eq(name, "jointchain") || str_eq(name, "kchain") || str_eq(
        name,
        "markovchain",
    ) || str_eq(name, "kscan") || str_eq(name, "superpose") || str_eq(name, "weighted") || str_eq(
        name,
        "logweighted",
    ) || str_eq(name, "normalize") || str_eq(name, "truncate") || str_eq(name, "pushfwd") || str_eq(
        name,
        "locscale",
    ) || str_eq(name, "bayesupdate") || str_eq(name, "disintegrate") || str_eq(name, "restrict")
        || str_eq(name, "logdensityof") || str_eq(name, "densityof") || str_eq(name, "rand")
        || str_eq(name, "totalmass") || str_eq(name, "likelihoodof") || str_eq(
        name,
        "joint_likelihood",
    )
}

/// Node `id` is a built-in call named in the measure vocabulary.
pub open spec fn measure_layer(m: Module, id: NodeId) -> bool {
    builtin_of(m, id) matches Some(s) && measure_vocab(m.name_of(s))
}

/// A node is in the measure layer if it is a built-in call whose head is in
/// the measure vocabulary (distribution constructors are not: they are
/// primitive data constructors, not algebra operations).
pub fn is_measure_layer(m: &Module, id: NodeId) -> (r: bool)
    requires
        m.wf(),
        id.0 < m.nodes@.len(),
    ensures
        r == measure_layer(*m, id),
{
    match crate::shape::builtin_name(m, id) {
        Some(name) => in_measure_vocab(name),
        None => false,
    }
}

/// True iff `id` is a built-in call whose head is named `op`.
pub fn is_op(m: &Module, id: NodeId, op: &str) -> (r: bool)
    requires
        m.wf(),
        id.0 < m.nodes@.len(),
    ensures
        r == is_builtin_named(*m, id, op@),
{
    match crate::shape::builtin_name(m, id) {
        Some(name) => str_eq(name, op),
        None => false,
    }
}

/// The outermost measure-layer node of the subtree at `root`, in
/// breadth-first order.
pub fn find_in_subtree(m: &Module, root: NodeId) -> (r: Option<NodeId>)
    requires
        m.wf(),
        root.0 < m.nodes@.len(),
    ensures
        match r {
            Some(x) => x.0 < m.nodes@.len() && in_subtree(*m, root, x) && measure_layer(*m, x),
            None => forall|x: NodeId| in_subtree(*m, root, x) ==> !measure_layer(*m, x),
        },
{
    let pred = |mm: &Module, id: NodeId| -> (b: bool)
        requires
            mm.wf(),
            id.0 < mm.nodes@.len(),
        ensures
            b == measure_layer(*mm, id),
        { is_measure_layer(mm, id) };
    bfs_find(m, root, &pred, Ghost(|x: NodeId| measure_layer(*m, x)))
}

/// Match `lawof(draw ?m)` at `id`, returning `?m`.
pub fn try_beta_law(m: &Module, id: NodeId) -> (r: Option<NodeId>)
    requires
        m.wf(),
        id.0 < m.nodes@.len(),
    ensures
        r == (match unary_builtin_arg(*m, id, "lawof"@) {
            Some(d) => unary_builtin_arg(*m, d, "draw"@),
            None => None,
        }),
{
    let lawof = match crate::shape::expect_builtin_call(m, id, "lawof") {
        Some(c) => c,
        None => return None,
    };
    if lawof.args.len() != 1 {
        return None;
    }
    let draw_id = lawof.args[0];
    proof {
        assert(node_wf(m.nodes@[id.0 as int], id.0 as int, m.symbols@.len()));
        assert(crate::ir::node_children(m.at(id))[0] == draw_id);
    }
    crate::shape::draw_argument(m, draw_id)
}

/// Replace every occurrence of `old` in the subtree at `root` by `new_id`.
pub fn substitute_in_tree(m: &mut Module, root: NodeId, old_id: NodeId, new_id: NodeId) -> (r: NodeId)
    requires
        old(m).wf(),
        root.0 < old(m).nodes@.len(),
        new_id.0 < old(m).nodes@.len(),
    ensures
        final(m).wf(),
        final(m).extends(old(m)),
        final(m).bindings@ == old(m).bindings@,
        r.0 < final(m).nodes@.len(),
        term(*final(m), r) == rewrite(
            *old(m),
            root,
            |x: NodeId|
                if x == old_id {
                    Some(new_id)
                } else {
                    None
                },
        ),
        root == old_id ==> r == new_id && *final(m) == *old(m),
        !crate::reach::in_subtree(*old(m), root, old_id) ==> r == root && *final(m) == *old(m),
{
    let ghost m0 = *m;
    let ghost g = |x: NodeId|
        if x == old_id {
            Some(new_id)
        } else {
            None
        };
    let f = |_mm: &Module, id: NodeId| -> (r: Option<NodeId>)
        ensures
            r == (if id == old_id {
                Some(new_id)
            } else {
                None
            }),
        {
            if id == old_id {
                Some(new_id)
            } else {
                None
            }
        };
    let ghost bound = m.nodes@.len();
    assert(leaf_map_ok(f, m0, bound, g));
    proof {
        if !crate::reach::in_subtree(m0, root, old_id) {
            assert forall|x: NodeId| #[trigger] crate::reach::in_subtree(m0, root, x) implies g(x) is None by {}
        }
    }
    map_tree(m, root, &f, Ghost(bound), Ghost(g))
}

/// Node `x` names binding `name` through a `(%ref self name)`, either as the
/// node itself or as one of its reification input entries.
pub open spec fn mentions_ref(m: Module, x: NodeId, name: Symbol) -> bool {
    x.0 < m.nodes@.len() && match m.at(x) {
        Node::Ref(r) => r.ns == RefNs::SelfMod && r.name == name,
        Node::Call(c) => match c.inputs {
            Some(Inputs::Spec(entries)) => exists|k: int|
                0 <= k < entries@.len() && (#[trigger] entries@[k]).1.ns == RefNs::SelfMod
                    && entries@[k].1.name == name,
            _ => false,
        },
        _ => false,
    }
}

/// Whether node `id` names binding `name_sym` (see [`mentions_ref`]).
pub fn node_mentions_ref(m: &Module, id: NodeId, name_sym: Symbol) -> (b: bool)
    requires
        id.0 < m.nodes@.len(),
    ensures
        b == mentions_ref(*m, id, name_sym),
{
    match m.node(id) {
        Node::Ref(Ref { ns: RefNs::SelfMod, name }) => *name == name_sym,
        Node::Ref(_) => false,
        Node::Call(c) => {
            if let Some(Inputs::Spec(entries)) = &c.inputs {
                let mut i: usize = 0;
                while i < entries.len()
                    invariant
                        i <= entries@.len(),
                        id.0 < m.nodes@.len(),
                        m.at(id) == Node::Call(*c),
                        c.inputs == Some(Inputs::Spec(*entries)),
                        forall|k: int|
                            0 <= k < i ==> !((#[trigger] entries@[k]).1.ns == RefNs::SelfMod
                                && entries@[k].1.name == name_sym),
                    decreases entries@.len() - i,
                {
                    let r = entries[i].1;
                    if r.ns == RefNs::SelfMod && r.name == name_sym {
                        assert(entries@[i as int].1.ns == RefNs::SelfMod && entries@[i as int].1.name == name_sym);
                        assert(exists|k: int|
                            0 <= k < entries@.len() && (#[trigger] entries@[k]).1.ns == RefNs::SelfMod
                                && entries@[k].1.name == name_sym);
                        return true;
                    }
                    i += 1;
                }
                false
            } else {
                false
            }
        },
        _ => false,
    }
}

/// The subtree at `root` names binding `name` somewhere.
pub open spec fn subtree_refers(m: Module, root: NodeId, name: Symbol) -> bool {
    exists|x: NodeId| in_subtree(m, root, x) && #[trigger] mentions_ref(m, x, name)
}

/// Whether the subtree at `root` contains a `(%ref self name_sym)`, as a body
/// node or as a reification input entry (which the child walk does not visit).
pub fn subtree_contains_ref(m: &Module, root: NodeId, name_sym: Symbol) -> (b: bool)
    requires
        m.wf(),
        root.0 < m.nodes@.len(),
    ensures
        b == subtree_refers(*m, root, name_sym),
{
    let pred = |mm: &Module, id: NodeId| -> (b: bool)
        requires
            id.0 < mm.nodes@.len(),
        ensures
            b == mentions_ref(*mm, id, name_sym),
        { node_mentions_ref(mm, id, name_sym) };
    let r = bfs_find(m, root, &pred, Ghost(|x: NodeId| mentions_ref(*m, x, name_sym)));
    match r {
        Some(_) => true,
        None => false,
    }
}

/// Binding `b` is named from the right-hand side of some other live binding.
pub open spec fn referenced(m: Module, b: BindingId) -> bool {
    exists|c: BindingId|
        #[trigger] m.live(c) && c != b && subtree_refers(m, m.bind(c).rhs, m.bind(b).name)
}

/// Whether any live binding other than `bid` refers to `name_sym`.
pub fn binding_is_referenced(m: &Module, bid: BindingId, name_sym: Symbol) -> (r: bool)
    requires
        m.wf(),
    ensures
        r == (exists|c: BindingId|
            #[trigger] m.live(c) && c != bid && subtree_refers(*m, m.bind(c).rhs, name_sym)),
{
    let ids = m.binding_ids();
    let mut i: usize = 0;
    while i < ids.len()
        invariant
            m.wf(),
            i <= ids@.len(),
            forall|k: int| 0 <= k < ids@.len() ==> m.live(#[trigger] ids@[k]),
            forall|b: BindingId| #[trigger] m.live(b) ==> ids@.contains(b),
            forall|k: int|
                0 <= k < i ==> !((#[trigger] ids@[k]) != bid && subtree_refers(
                    *m,
                    m.bind(ids@[k]).rhs,
                    name_sym,
                )),
        decreases ids@.len() - i,
    {
        let other = ids[i];
        if other != bid {
            if subtree_contains_ref(m, m.binding(other).rhs, name_sym) {
                return true;
            }
        }
        i += 1;
    }
    proof {
        assert forall|c: BindingId| #[trigger] m.live(c) && c != bid implies !subtree_refers(
            *m,
            m.bind(c).rhs,
            name_sym,
        ) by {
            let k = choose|k: int| 0 <= k < ids@.len() && ids@[k] == c;
        }
    }
    false
}


/// Growing an arena does not change what an old subtree refers to.
pub proof fn lemma_subtree_refers_stable(m1: Module, m2: Module, root: NodeId, name: Symbol)
    requires
        m1.wf(),
        m2.extends(&m1),
        root.0 < m1.nodes@.len(),
    ensures
        subtree_refers(m2, root, name) == subtree_refers(m1, root, name),
{
    if subtree_refers(m1, root, name) {
        let x = choose|x: NodeId| in_subtree(m1, root, x) && #[trigger] mentions_ref(m1, x, name);
        crate::reach::lemma_in_subtree_stable(m1, m2, root, x);
        crate::reach::lemma_subtree_below(m1, root, x);
        assert(m2.nodes@[x.0 as int] == m1.nodes@[x.0 as int]);
        assert(mentions_ref(m2, x, name));
    }
    if subtree_refers(m2, root, name) {
        let x = choose|x: NodeId| in_subtree(m2, root, x) && #[trigger] mentions_ref(m2, x, name);
        crate::reach::lemma_in_subtree_stable(m1, m2, root, x);
        crate::reach::lemma_subtree_below(m1, root, x);
        assert(m2.nodes@[x.0 as int] == m1.nodes@[x.0 as int]);
        assert(mentions_ref(m1, x, name));
    }
}

/// A childless node refers only to what it names itself.
pub proof fn lemma_leaf_refers(m: Module, id: NodeId, name: Symbol)
    requires
        m.wf(),
        id.0 < m.nodes@.len(),
        crate::ir::node_children(m.at(id)).len() == 0,
    ensures
        subtree_refers(m, id, name) == mentions_ref(m, id, name),
{
    if subtree_refers(m, id, name) {
        let x = choose|x: NodeId| in_subtree(m, id, x) && #[trigger] mentions_ref(m, x, name);
        assert(x == id);
    }
    if mentions_ref(m, id, name) {
        assert(in_subtree(m, id, id));
    }
}

/// Measure-layer ops that can be left behind as dead bindings after a rule
/// consumed them.
pub open spec fn combinator_op(name: Seq<char>) -> bool {
    ||| name == "weighted"@
    ||| name == "logweighted"@
    ||| name == "superpose"@
    ||| name == "normalize"@
    ||| name == "truncate"@
    ||| name == "pushfwd"@
    ||| name == "bijection"@
    ||| name == "kchain"@
    ||| name == "kernelof"@
    ||| name == "lawof"@
    ||| name == "draw"@
    ||| name == "iid"@
    ||| name == "joint"@
    ||| name == "likelihoodof"@
    ||| name == "disintegrate"@
    ||| name == "joint_likelihood"@
}

pub fn in_combinator_ops(name: &str) -> (r: bool)
    ensures
        r == combinator_op(name@),
{
    str_eq(name, "weighted") || str_eq(name, "logweighted") || str_eq(name, "superpose") || str_eq(
        name,
        "normalize",
    ) || str_eq(name, "truncate") || str_eq(name, "pushfwd") || str_eq(name, "bijection") || str_eq(
        name,
        "kchain",
    ) || str_eq(name, "kernelof") || str_eq(name, "lawof") || str_eq(name, "draw") || str_eq(
        name,
        "iid",
    ) || str_eq(name, "joint") || str_eq(name, "likelihoodof") || str_eq(name, "disintegrate")
        || str_eq(name, "joint_likelihood")
}

pub open spec fn combinator_rhs(m: Module, rhs: NodeId) -> bool {
    builtin_of(m, rhs) matches Some(s) && combinator_op(m.name_of(s))
}

/// The inferred type of `rhs` is a measure, likelihood or kernel.
pub open spec fn measure_typed(m: Module, rhs: NodeId) -> bool {
    match m.types@[rhs.0 as int] {
        Some(Type::Measure { .. }) | Some(Type::Likelihood) | Some(Type::Kernel) => true,
        _ => false,
    }
}

/// An eliminable measure binding right-hand side: a combinator op or a
/// measure/likelihood/kernel-typed node.
pub open spec fn eliminable(m: Module, rhs: NodeId) -> bool {
    combinator_rhs(m, rhs) || measure_typed(m, rhs)
}

/// True iff `rhs` is a built-in call whose head is a combinator op.
pub fn is_combinator_rhs(m: &Module, rhs: NodeId) -> (r: bool)
    requires
        m.wf(),
        rhs.0 < m.nodes@.len(),
    ensures
        r == combinator_rhs(*m, rhs),
{
    match crate::shape::builtin_name(m, rhs) {
        Some(name) => in_combinator_ops(name),
        None => false,
    }
}

/// True iff `rhs` infers to a measure, likelihood or kernel type.
pub fn is_measure_typed_rhs(m: &Module, rhs: NodeId) -> (r: bool)
    requires
        m.wf(),
        rhs.0 < m.nodes@.len(),
    ensures
        r == measure_typed(*m, rhs),
{
    match m.type_of(rhs) {
        Some(Type::Measure { .. }) | Some(Type::Likelihood) | Some(Type::Kernel) => true,
        _ => false,
    }
}

pub fn is_eliminable_measure_rhs(m: &Module, rhs: NodeId) -> (r: bool)
    requires
        m.wf(),
        rhs.0 < m.nodes@.len(),
    ensures
        r == eliminable(*m, rhs),
{
    is_combinator_rhs(m, rhs) || is_measure_typed_rhs(m, rhs)
}

/// A binding the measure sweep may zero now: eliminable and unreferenced.
pub open spec fn dead_measure(m: Module, b: BindingId) -> bool {
    m.live(b) && eliminable(m, m.bind(b).rhs) && !referenced(m, b)
}

/// Node `id` is the sweep's `0.0` literal.
pub open spec fn zero_lit(m: Module, id: NodeId) -> bool {
    id.0 < m.nodes@.len() && match m.at(id) {
        Node::Lit(Scalar::Real(z)) => z == 0u64,
        _ => false,
    }
}

/// The live bindings the measure sweep may zero now, in source order.
fn collect_dead_measure(m: &Module) -> (dead: Vec<BindingId>)
    requires
        m.wf(),
    ensures
        forall|k: int| 0 <= k < dead@.len() ==> dead_measure(*m, #[trigger] dead@[k]),
        forall|b: BindingId| #[trigger] dead_measure(*m, b) ==> dead@.contains(b),
{
    let ids = m.binding_ids();
    let mut dead: Vec<BindingId> = Vec::new();
    let mut i: usize = 0;
    while i < ids.len()
        invariant
            m.wf(),
            i <= ids@.len(),
            forall|k: int| 0 <= k < ids@.len() ==> m.live(#[trigger] ids@[k]),
            forall|b: BindingId| #[trigger] m.live(b) ==> ids@.contains(b),
            forall|k: int| 0 <= k < dead@.len() ==> dead_measure(*m, #[trigger] dead@[k]),
            forall|k: int| 0 <= k < i && dead_measure(*m, #[trigger] ids@[k]) ==> dead@.contains(ids@[k]),
        decreases ids@.len() - i,
    {
        let bid = ids[i];
        let b = m.binding(bid);
        let ghost before = dead@;
        if is_eliminable_measure_rhs(m, b.rhs) && !binding_is_referenced(m, bid, b.name) {
            dead.push(bid);
            proof {
                assert(dead@[dead@.len() - 1] == bid);
            }
        }
        proof {
            assert forall|k: int| 0 <= k < i + 1 && dead_measure(*m, #[trigger] ids@[k]) implies dead@.contains(ids@[k]) by {
                if k < i {
                    assert(dead_measure(*m, ids@[k]));
                    assert(before.contains(ids@[k]));
                    let j = choose|j: int| 0 <= j < before.len() && before[j] == ids@[k];
                    assert(dead@[j] == before[j]);
                } else {
                    assert(dead@[dead@.len() - 1] == bid);
                }
            }
        }
        i += 1;
    }
    proof {
        assert forall|b: BindingId| #[trigger] dead_measure(*m, b) implies dead@.contains(b) by {
            assert(ids@.contains(b));
            let k = choose|k: int| 0 <= k < ids@.len() && ids@[k] == b;
            assert(dead_measure(*m, ids@[k]));
        }
    }
    dead
}

/// The sweep state: every binding is either untouched or was an eliminable
/// binding that now holds a `0.0` literal and that nothing refers to.
pub open spec fn sweep_inv(m0: Module, m: Module, z: Set<int>) -> bool {
    &&& m.wf()
    &&& m.extends(&m0)
    &&& m.bindings@.len() == m0.bindings@.len()
    &&& forall|b: BindingId| #[trigger] m.live(b) == m0.live(b)
    &&& forall|b: BindingId| #[trigger] m.live(b) ==> m.bind(b) == (crate::ir::Binding { rhs: m.bind(b).rhs, ..m0.bind(b) })
    &&& z.finite()
    &&& z.subset_of(vstd::set_lib::set_int_range(0, m0.bindings@.len() as int))
    &&& forall|b: BindingId| #[trigger] m.live(b) && !z.contains(b.0 as int) ==> m.bind(b).rhs == m0.bind(b).rhs
    &&& forall|b: BindingId| #[trigger] m.live(b) && z.contains(b.0 as int) ==> {
        &&& eliminable(m0, m0.bind(b).rhs)
        &&& zero_lit(m, m.bind(b).rhs)
        &&& !referenced(m, b)
        &&& m.types@[m.bind(b).rhs.0 as int] is None
    }
}

/// Zeroing one binding keeps every unreferenced binding unreferenced.
pub proof fn lemma_zero_keeps_unreferenced(m1: Module, m2: Module, bid: BindingId, b: BindingId)
    requires
        m1.wf(),
        m2.wf(),
        m2.extends(&m1),
        m1.live(bid),
        m2.bindings@.len() == m1.bindings@.len(),
        forall|x: BindingId| #[trigger] m2.live(x) == m1.live(x),
        forall|x: BindingId| #[trigger] m2.live(x) && x != bid ==> m2.bind(x) == m1.bind(x),
        m2.bind(bid).name == m1.bind(bid).name,
        zero_lit(m2, m2.bind(bid).rhs),
        m1.live(b),
        !referenced(m1, b),
    ensures
        !referenced(m2, b),
{
    if referenced(m2, b) {
        let c = choose|c: BindingId|
            #[trigger] m2.live(c) && c != b && subtree_refers(m2, m2.bind(c).rhs, m2.bind(b).name);
        assert(m2.live(b));
        assert(m2.bind(b).name == m1.bind(b).name);
        if c == bid {
            lemma_leaf_refers(m2, m2.bind(c).rhs, m2.bind(b).name);
        } else {
            lemma_subtree_refers_stable(m1, m2, m1.bind(c).rhs, m1.bind(b).name);
            assert(m1.live(c));
        }
    }
}

/// Zero every eliminable measure binding (a combinator op or a
/// measure/likelihood/kernel-typed right-hand side) that no other binding
/// refers to, repeating until a pass zeroes nothing, so dead cascades go too.
pub fn sweep_dead_measure_bindings(m: &mut Module)
    requires
        old(m).wf(),
    ensures
        final(m).wf(),
        final(m).extends(old(m)),
        final(m).bindings@.len() == old(m).bindings@.len(),
        forall|b: BindingId| #[trigger] final(m).live(b) == old(m).live(b),
        forall|b: BindingId|
            #[trigger] final(m).live(b) ==> final(m).bind(b) == (crate::ir::Binding {
                rhs: final(m).bind(b).rhs,
                ..old(m).bind(b)
            }),
        forall|b: BindingId|
            #[trigger] final(m).live(b) ==> final(m).bind(b).rhs == old(m).bind(b).rhs || (
            eliminable(*old(m), old(m).bind(b).rhs) && zero_lit(*final(m), final(m).bind(b).rhs)
                && !referenced(*final(m), b)),
        forall|b: BindingId| !#[trigger] dead_measure(*final(m), b),
{
    let ghost m0 = *m;
    let ghost mut z: Set<int> = Set::empty();
    proof {
        assert(z.subset_of(vstd::set_lib::set_int_range(0, m0.bindings@.len() as int)));
    }
    loop
        invariant
            m0 == *old(m),
            m0.wf(),
            sweep_inv(m0, *m, z),
        decreases m0.bindings@.len() - z.len(),
    {
        let dead = collect_dead_measure(m);
        if dead.len() == 0 {
            proof {
                assert forall|b: BindingId| !#[trigger] dead_measure(*m, b) by {
                    if dead_measure(*m, b) {
                        assert(dead@.contains(b));
                    }
                }
            }
            return;
        }
        let ghost mr = *m;
        let ghost zr = z;
        proof {
            let b0 = dead@[0];
            assert(dead_measure(mr, b0));
            if z.contains(b0.0 as int) {
                assert(mr.types@[mr.bind(b0).rhs.0 as int] is None);
                assert(!combinator_rhs(mr, mr.bind(b0).rhs));
                assert(false);
            }
        }
        let mut k: usize = 0;
        while k < dead.len()
            invariant
                m0.wf(),
                mr.wf(),
                sweep_inv(m0, mr, zr),
                sweep_inv(m0, *m, z),
                m.extends(&mr),
                forall|j: int| 0 <= j < dead@.len() ==> dead_measure(mr, #[trigger] dead@[j]),
                k <= dead@.len(),
                k > 0 ==> z.contains(dead@[0].0 as int),
                zr.subset_of(z),
                forall|b: BindingId| #[trigger] m.live(b) && !referenced(mr, b) ==> !referenced(*m, b),
                forall|b: BindingId| #[trigger] m.live(b) && !z.contains(b.0 as int) ==> m.bind(b) == mr.bind(b),
            decreases dead@.len() - k,
        {
            let bid = dead[k];
            let ghost mk = *m;
            proof {
                assert(dead_measure(mr, bid));
                assert(mr.live(bid));
                assert(m0.live(bid));
                assert(mk.live(bid));
            }
            let zero = m.add_node(Node::Lit(Scalar::Real(0)));
            let ghost mz = *m;
            proof {
                assert(mz.live(bid));
            }
            m.set_binding_rhs(bid, zero);
            proof {
                assert(dead_measure(mr, bid));
                assert(mk.live(bid));
                assert forall|x: BindingId| #[trigger] m.live(x) && x != bid implies m.bind(x) == mk.bind(x) by {
                    assert(m.bindings@[x.0 as int] == mz.bindings@[x.0 as int]);
                }
                assert forall|b: BindingId| #[trigger] m.live(b) && !referenced(mr, b) implies !referenced(*m, b) by {
                    assert(mk.live(b));
                    assert(!referenced(mk, b));
                    lemma_zero_keeps_unreferenced(mk, *m, bid, b);
                }
                let z2 = z.insert(bid.0 as int);
                assert(z2.subset_of(vstd::set_lib::set_int_range(0, m0.bindings@.len() as int)));
                assert forall|b: BindingId| #[trigger] m.live(b) && z2.contains(b.0 as int) implies {
                    &&& eliminable(m0, m0.bind(b).rhs)
                    &&& zero_lit(*m, m.bind(b).rhs)
                    &&& !referenced(*m, b)
                    &&& m.types@[m.bind(b).rhs.0 as int] is None
                } by {
                    assert(mk.live(b));
                    if b == bid {
                        if !zr.contains(b.0 as int) {
                            if z.contains(b.0 as int) {
                                assert(!referenced(mk, b));
                                lemma_zero_keeps_unreferenced(mk, *m, bid, b);
                            } else {
                                assert(mk.bind(b) == mr.bind(b));
                                assert(mr.bind(b).rhs == m0.bind(b).rhs);
                                assert(mr.bind(b).rhs.0 < m0.nodes@.len());
                                assert(mr.nodes@[mr.bind(b).rhs.0 as int] == m0.nodes@[mr.bind(b).rhs.0 as int]);
                                assert(mr.types@[mr.bind(b).rhs.0 as int] == m0.types@[mr.bind(b).rhs.0 as int]);
                                assert(eliminable(mr, mr.bind(b).rhs));
                            }
                        } else {
                            assert(eliminable(m0, m0.bind(b).rhs));
                        }
                        assert(!referenced(mr, b));
                    } else {
                        assert(m.bind(b) == mk.bind(b));
                        assert(mk.bind(b).rhs.0 < mk.nodes@.len());
                        assert(m.nodes@[mk.bind(b).rhs.0 as int] == mk.nodes@[mk.bind(b).rhs.0 as int]);
                        assert(m.types@[mk.bind(b).rhs.0 as int] == mk.types@[mk.bind(b).rhs.0 as int]);
                        assert(!referenced(mk, b));
                        lemma_zero_keeps_unreferenced(mk, *m, bid, b);
                    }
                }
                assert forall|b: BindingId| #[trigger] m.live(b) && !z2.contains(b.0 as int) implies m.bind(b).rhs == m0.bind(b).rhs by {
                    assert(mk.live(b));
                    assert(m.bind(b) == mk.bind(b));
                }
                assert forall|b: BindingId| #[trigger] m.live(b) implies m.bind(b) == (crate::ir::Binding { rhs: m.bind(b).rhs, ..m0.bind(b) }) by {
                    assert(mk.live(b));
                }
                assert forall|b: BindingId| #[trigger] m.live(b) && !z2.contains(b.0 as int) implies m.bind(b) == mr.bind(b) by {
                    assert(mk.live(b));
                }
                assert forall|b: BindingId| #[trigger] m.live(b) == m0.live(b) by {
                    assert(m.live(b) == mk.live(b));
                }
                crate::term::lemma_extends_trans(m0, mk, *m);
                crate::term::lemma_extends_trans(mr, mk, *m);
                z = z2;
            }
            k += 1;
        }
        proof {
            vstd::set_lib::lemma_int_range(0, m0.bindings@.len() as int);
            vstd::set_lib::lemma_len_subset(z, vstd::set_lib::set_int_range(0, m0.bindings@.len() as int));
            let b0 = dead@[0];
            assert(!zr.contains(b0.0 as int)) by {
                assert(dead_measure(mr, b0));
                if zr.contains(b0.0 as int) {
                    assert(mr.types@[mr.bind(b0).rhs.0 as int] is None);
                    assert(!combinator_rhs(mr, mr.bind(b0).rhs));
                }
            }
            vstd::set_lib::lemma_len_subset(zr.insert(b0.0 as int), z);
            vstd::set::axiom_set_insert_len(zr, b0.0 as int);
        }
    }
}

// ---------------------------------------------------------------------------
// Scans for the next node to reduce
// ---------------------------------------------------------------------------

/// Some node of the subtree at `root` is accepted by `sp`.
pub open spec fn subtree_has(m: Module, root: NodeId, sp: spec_fn(NodeId) -> bool) -> bool {
    exists|x: NodeId| in_subtree(m, root, x) && #[trigger] sp(x)
}

/// Some live binding's right-hand side has a node accepted by `sp`.
pub open spec fn any_binding_has(m: Module, sp: spec_fn(NodeId) -> bool) -> bool {
    exists|c: BindingId| #[trigger] m.live(c) && subtree_has(m, m.bind(c).rhs, sp)
}

/// What a binding scan returns: the first live binding in source order whose
/// right-hand side holds a node accepted by `sp`, with such a node; `None`
/// when no binding holds one.
pub open spec fn scan_ok(m: Module, sp: spec_fn(NodeId) -> bool, r: Option<(BindingId, NodeId)>) -> bool {
    match r {
        Some((b, x)) => {
            &&& m.live(b)
            &&& x.0 < m.nodes@.len()
            &&& in_subtree(m, m.bind(b).rhs, x)
            &&& sp(x)
            &&& forall|c: BindingId|
                #[trigger] m.live(c) && c.0 < b.0 ==> !subtree_has(m, m.bind(c).rhs, sp)
        },
        None => !any_binding_has(m, sp),
    }
}

/// Scan the bindings in source order, each right-hand side breadth-first.
fn scan_bindings<P: Fn(&Module, NodeId) -> bool>(
    m: &Module,
    pred: &P,
    Ghost(sp): Ghost<spec_fn(NodeId) -> bool>,
) -> (r: Option<(BindingId, NodeId)>)
    requires
        m.wf(),
        forall|id: NodeId| id.0 < m.nodes@.len() ==> call_requires(*pred, (m, id)),
        forall|id: NodeId, b: bool|
            id.0 < m.nodes@.len() && call_ensures(*pred, (m, id), b) ==> b == sp(id),
    ensures
        scan_ok(*m, sp, r),
{
    let ids = m.binding_ids();
    let mut i: usize = 0;
    while i < ids.len()
        invariant
            m.wf(),
            forall|id: NodeId| id.0 < m.nodes@.len() ==> call_requires(*pred, (m, id)),
            forall|id: NodeId, b: bool|
                id.0 < m.nodes@.len() && call_ensures(*pred, (m, id), b) ==> b == sp(id),
            i <= ids@.len(),
            forall|k: int| 0 <= k < ids@.len() ==> m.live(#[trigger] ids@[k]),
            forall|b: BindingId| #[trigger] m.live(b) ==> ids@.contains(b),
            forall|k: int, l: int| 0 <= k < l < ids@.len() ==> (#[trigger] ids@[k]).0 < (#[trigger] ids@[l]).0,
            forall|k: int| 0 <= k < i ==> !subtree_has(*m, m.bind(#[trigger] ids@[k]).rhs, sp),
        decreases ids@.len() - i,
    {
        let b = ids[i];
        let rhs = m.binding(b).rhs;
        proof {
            assert(m.live(b));
        }
        match bfs_find(m, rhs, pred, Ghost(sp)) {
            Some(x) => {
                proof {
                    assert forall|c: BindingId| #[trigger] m.live(c) && c.0 < b.0 implies !subtree_has(
                        *m,
                        m.bind(c).rhs,
                        sp,
                    ) by {
                        assert(ids@.contains(c));
                        let k = choose|k: int| 0 <= k < ids@.len() && ids@[k] == c;
                        if k >= i {
                            if k > i {
                                assert(ids@[i as int].0 < ids@[k].0);
                            }
                        }
                    }
                }
                return Some((b, x));
            },
            None => {
                proof {
                    if subtree_has(*m, rhs, sp) {
                        let x = choose|x: NodeId| in_subtree(*m, rhs, x) && #[trigger] sp(x);
                        assert(!sp(x));
                    }
                }
            },
        }
        i += 1;
    }
    proof {
        if any_binding_has(*m, sp) {
            let c = choose|c: BindingId| #[trigger] m.live(c) && subtree_has(*m, m.bind(c).rhs, sp);
            assert(ids@.contains(c));
            let k = choose|k: int| 0 <= k < ids@.len() && ids@[k] == c;
            assert(!subtree_has(*m, m.bind(ids@[k]).rhs, sp));
        }
    }
    None
}

/// Node `x` is a built-in call whose head is one of `ops`.
pub open spec fn op_hit(m: Module, x: NodeId, ops: Seq<Seq<char>>) -> bool {
    builtin_of(m, x) matches Some(s) && ops.contains(m.name_of(s))
}

pub open spec fn op_sp(m: Module, ops: Seq<Seq<char>>) -> spec_fn(NodeId) -> bool {
    |x: NodeId| op_hit(m, x, ops)
}

/// The texts of a list of op names.
pub open spec fn names_view(ops: Seq<&str>) -> Seq<Seq<char>> {
    ops.map_values(|s: &str| s@)
}

/// Whether `id` is a built-in call whose head is one of `ops`.
pub fn is_op_in(m: &Module, id: NodeId, ops: &[&str]) -> (r: bool)
    requires
        m.wf(),
        id.0 < m.nodes@.len(),
    ensures
        r == op_hit(*m, id, names_view(ops@)),
{
    let name = match crate::shape::builtin_name(m, id) {
        Some(n) => n,
        None => return false,
    };
    let mut i: usize = 0;
    while i < ops.len()
        invariant
            i <= ops@.len(),
            builtin_of(*m, id) matches Some(x) && m.name_of(x) == name@,
            forall|k: int| 0 <= k < i ==> (#[trigger] ops@[k])@ != name@,
        decreases ops@.len() - i,
    {
        if str_eq(ops[i], name) {
            proof {
                assert(names_view(ops@)[i as int] == name@);
                assert(names_view(ops@).contains(name@));
            }
            return true;
        }
        i += 1;
    }
    proof {
        if names_view(ops@).contains(name@) {
            let k = choose|k: int| 0 <= k < names_view(ops@).len() && names_view(ops@)[k] == name@;
            assert(ops@[k]@ == name@);
        }
    }
    false
}

/// The first node, outermost first, whose built-in head is one of `ops`,
/// scanning bindings in source order.
pub fn find_op_node(m: &Module, ops: &[&str]) -> (r: Option<(BindingId, NodeId)>)
    requires
        m.wf(),
    ensures
        scan_ok(*m, op_sp(*m, names_view(ops@)), r),
{
    let pred = |mm: &Module, id: NodeId| -> (b: bool)
        requires
            mm.wf(),
            id.0 < mm.nodes@.len(),
        ensures
            b == op_hit(*mm, id, names_view(ops@)),
        { is_op_in(mm, id, ops) };
    scan_bindings(m, &pred, Ghost(op_sp(*m, names_view(ops@))))
}

/// `get(D, i)` where `D` resolves (one `(%ref self …)` hop) to a
/// `disintegrate(…)` call and `i` is an integer literal: the resolved
/// disintegrate node and `i`.
pub open spec fn get_disintegrate(m: Module, id: NodeId) -> Option<(NodeId, i64)> {
    if is_builtin_named(m, id, "get"@) {
        match m.at(id) {
            Node::Call(c) => if c.args@.len() == 2 && c.named@.len() == 0 {
                let target = crate::shape::resolve_one_spec(m, c.args@[0]).0;
                if is_builtin_named(m, target, "disintegrate"@) {
                    match m.at(c.args@[1]) {
                        Node::Lit(Scalar::Int(i)) => Some((target, i)),
                        _ => None,
                    }
                } else {
                    None
                }
            } else {
                None
            },
            _ => None,
        }
    } else {
        None
    }
}

pub open spec fn get_sp(m: Module) -> spec_fn(NodeId) -> bool {
    |x: NodeId| get_disintegrate(m, x) is Some
}

/// Match `get(D, i)` over a `disintegrate` (see [`get_disintegrate`]).
pub fn match_get_disintegrate(m: &Module, node: NodeId) -> (r: Option<(NodeId, i64)>)
    requires
        m.wf(),
        node.0 < m.nodes@.len(),
    ensures
        r == get_disintegrate(*m, node),
        r matches Some((t, _)) ==> t.0 < m.nodes@.len(),
{
    let c = match crate::shape::expect_builtin_call(m, node, "get") {
        Some(c) => c,
        None => return None,
    };
    if c.args.len() != 2 || c.named.len() != 0 {
        return None;
    }
    proof {
        assert(node_wf(m.nodes@[node.0 as int], node.0 as int, m.symbols@.len()));
        assert(crate::ir::node_children(m.at(node))[0] == c.args@[0]);
        assert(crate::ir::node_children(m.at(node))[1] == c.args@[1]);
    }
    let (target, _) = crate::shape::resolve_ref_one(m, c.args[0]);
    if !is_op(m, target, "disintegrate") {
        return None;
    }
    match m.node(c.args[1]) {
        Node::Lit(Scalar::Int(i)) => Some((target, *i)),
        _ => None,
    }
}

/// The first `get(disintegrate(…), i)` node, scanning bindings in source order.
pub fn find_get_disintegrate(m: &Module) -> (r: Option<(BindingId, NodeId)>)
    requires
        m.wf(),
    ensures
        scan_ok(*m, get_sp(*m), r),
{
    let pred = |mm: &Module, id: NodeId| -> (b: bool)
        requires
            mm.wf(),
            id.0 < mm.nodes@.len(),
        ensures
            b == (get_disintegrate(*mm, id) is Some),
        { match_get_disintegrate(mm, id).is_some() };
    scan_bindings(m, &pred, Ghost(get_sp(*m)))
}

pub open spec fn measure_sp(m: Module) -> spec_fn(NodeId) -> bool {
    |x: NodeId| measure_layer(m, x)
}

pub open spec fn restrict_sp(m: Module) -> spec_fn(NodeId) -> bool {
    op_sp(m, seq!["restrict"@])
}

pub open spec fn query_sp(m: Module) -> spec_fn(NodeId) -> bool {
    op_sp(m, seq!["logdensityof"@, "densityof"@])
}

pub open spec fn rand_sp(m: Module) -> spec_fn(NodeId) -> bool {
    op_sp(m, seq!["rand"@])
}

/// The next target of the legalizer, by priority: a `get(disintegrate(…), i)`;
/// else a `restrict`; else a `logdensityof`/`densityof` query; else a `rand`;
/// else the outermost measure-layer node. Within a priority, the first binding
/// in source order that holds one.
pub open spec fn measure_target_ok(m: Module, r: Option<(BindingId, NodeId)>) -> bool {
    if any_binding_has(m, get_sp(m)) {
        scan_ok(m, get_sp(m), r)
    } else if any_binding_has(m, restrict_sp(m)) {
        scan_ok(m, restrict_sp(m), r)
    } else if any_binding_has(m, query_sp(m)) {
        scan_ok(m, query_sp(m), r)
    } else if any_binding_has(m, rand_sp(m)) {
        scan_ok(m, rand_sp(m), r)
    } else {
        scan_ok(m, measure_sp(m), r)
    }
}

/// A density query in some binding is the legalizer's next target once no
/// `get(disintegrate(…), i)` and no `restrict` is left: the target is then a
/// `logdensityof` or `densityof` call, never a draw that the query scores.
pub proof fn law_density_query_targeted_first(m: Module, r: Option<(BindingId, NodeId)>)
    requires
        measure_target_ok(m, r),
        !any_binding_has(m, get_sp(m)),
        !any_binding_has(m, restrict_sp(m)),
        exists|b: BindingId, x: NodeId|
            #[trigger] m.live(b) && #[trigger] in_subtree(m, m.bind(b).rhs, x) && (is_builtin_named(
                m,
                x,
                "densityof"@,
            ) || is_builtin_named(m, x, "logdensityof"@)),
    ensures
        r matches Some((b, t)) && m.live(b) && in_subtree(m, m.bind(b).rhs, t) && (is_builtin_named(
            m,
            t,
            "densityof"@,
        ) || is_builtin_named(m, t, "logdensityof"@)),
{
    let qs = seq!["logdensityof"@, "densityof"@];
    let (b, x) = choose|b: BindingId, x: NodeId|
        #[trigger] m.live(b) && #[trigger] in_subtree(m, m.bind(b).rhs, x) && (is_builtin_named(
            m,
            x,
            "densityof"@,
        ) || is_builtin_named(m, x, "logdensityof"@));
    let s = builtin_of(m, x).unwrap();
    if m.name_of(s) == "densityof"@ {
        assert(qs[1] == m.name_of(s));
    } else {
        assert(qs[0] == m.name_of(s));
    }
    assert(qs.contains(m.name_of(s)));
    assert(query_sp(m)(x));
    assert(subtree_has(m, m.bind(b).rhs, query_sp(m)));
    assert(any_binding_has(m, query_sp(m)));
    let (c, t) = r.unwrap();
    assert(query_sp(m)(t));
    let st = builtin_of(m, t).unwrap();
    assert(qs.contains(m.name_of(st)));
    let k = choose|k: int| 0 <= k < qs.len() && qs[k] == m.name_of(st);
    assert(k == 0 || k == 1);
}

/// The next measure-layer node to reduce (see [`measure_target_ok`]): the
/// `get(disintegrate)` and `restrict` desugarings fire before a density
/// query consumes them, and a density query or `rand` pins the draws it
/// scores or samples before the general scan would reach those draws.
pub fn find_measure_node(m: &Module) -> (r: Option<(BindingId, NodeId)>)
    requires
        m.wf(),
    ensures
        measure_target_ok(*m, r),
{
    let hit = find_get_disintegrate(m);
    if hit.is_some() {
        return hit;
    }
    let restrict_ops: [&str; 1] = ["restrict"];
    proof {
        reveal_strlit("restrict");
        assert(names_view(restrict_ops@) =~= seq!["restrict"@]);
    }
    let hit = find_op_node(m, &restrict_ops);
    if hit.is_some() {
        return hit;
    }
    let query_ops: [&str; 2] = ["logdensityof", "densityof"];
    proof {
        reveal_strlit("logdensityof");
        reveal_strlit("densityof");
        assert(names_view(query_ops@) =~= seq!["logdensityof"@, "densityof"@]);
    }
    let hit = find_op_node(m, &query_ops);
    if hit.is_some() {
        return hit;
    }
    let rand_ops: [&str; 1] = ["rand"];
    proof {
        reveal_strlit("rand");
        assert(names_view(rand_ops@) =~= seq!["rand"@]);
    }
    let hit = find_op_node(m, &rand_ops);
    if hit.is_some() {
        return hit;
    }
    let pred = |mm: &Module, id: NodeId| -> (b: bool)
        requires
            mm.wf(),
            id.0 < mm.nodes@.len(),
        ensures
            b == measure_layer(*mm, id),
        { is_measure_layer(mm, id) };
    scan_bindings(m, &pred, Ghost(measure_sp(*m)))
}

/// The name a refusal of a measure-layer node reports: its built-in head, or
/// the `Debug` rendering of its inferred type.
pub open spec fn op_name_text(m: Module, id: NodeId) -> Seq<char> {
    match builtin_of(m, id) {
        Some(s) => m.name_of(s),
        None => crate::refuse::type_debug_text(m.types@[id.0 as int]),
    }
}

/// The op name for a measure-layer node (for refusal messages).
pub fn op_name(m: &Module, id: NodeId) -> (r: String)
    requires
        m.wf(),
        id.0 < m.nodes@.len(),
    ensures
        r@ == op_name_text(*m, id),
{
    broadcast use vstd::string::group_string_axioms;

    match crate::shape::builtin_name(m, id) {
        Some(name) => name.to_string(),
        None => crate::refuse::type_debug(&m.types[id.0]),
    }
}


// ---------------------------------------------------------------------------
// Rewriting a binding
// ---------------------------------------------------------------------------

/// The leaf map that replaces node `old_id` by `new_id`.
pub open spec fn replace_node(old_id: NodeId, new_id: NodeId) -> spec_fn(NodeId) -> Option<NodeId> {
    |x: NodeId|
        if x == old_id {
            Some(new_id)
        } else {
            None
        }
}

/// Eliminability only reads old nodes, their types and their head names.
proof fn lemma_eliminable_stable(m1: Module, m2: Module, x: NodeId)
    requires
        m1.wf(),
        m2.extends(&m1),
        x.0 < m1.nodes@.len(),
    ensures
        eliminable(m2, x) == eliminable(m1, x),
{
    assert(m2.nodes@[x.0 as int] == m1.nodes@[x.0 as int]);
    assert(m2.types@[x.0 as int] == m1.types@[x.0 as int]);
    assert(node_wf(m1.nodes@[x.0 as int], x.0 as int, m1.symbols@.len()));
}

/// Point binding `bid` at its right-hand side with `target` replaced by
/// `replacement`; returns the new right-hand side.
pub fn rewrite_binding(m: &mut Module, bid: BindingId, target: NodeId, replacement: NodeId) -> (root: NodeId)
    requires
        old(m).wf(),
        old(m).live(bid),
        replacement.0 < old(m).nodes@.len(),
    ensures
        final(m).wf(),
        final(m).extends(old(m)),
        root.0 < final(m).nodes@.len(),
        term(*final(m), root) == rewrite(*old(m), old(m).bind(bid).rhs, replace_node(target, replacement)),
        term(*final(m), root) == rewrite(*final(m), old(m).bind(bid).rhs, replace_node(target, replacement)),
        final(m).bindings@.len() == old(m).bindings@.len(),
        forall|b: BindingId| #[trigger] final(m).live(b) == old(m).live(b),
        final(m).bind(bid) == (crate::ir::Binding { rhs: root, ..old(m).bind(bid) }),
        forall|b: BindingId| b != bid && #[trigger] final(m).live(b) ==> final(m).bind(b) == old(m).bind(b),
        target == old(m).bind(bid).rhs ==> root == replacement && final(m).nodes@ == old(m).nodes@,
{
    let ghost m0 = *m;
    let rhs = m.binding(bid).rhs;
    proof {
        assert(m.binding_wf(m.bind(bid)));
    }
    let root = substitute_in_tree(m, rhs, target, replacement);
    let ghost m1 = *m;
    m.set_binding_rhs(bid, root);
    proof {
        assert(replace_node(target, replacement) == (|x: NodeId|
            if x == target {
                Some(replacement)
            } else {
                None
            }));
        assert forall|b: BindingId| b != bid && #[trigger] m.live(b) implies m.bind(b) == m0.bind(b) by {
            assert(m1.live(b));
            assert(m.bindings@[b.0 as int] == m1.bindings@[b.0 as int]);
        }
        crate::term::lemma_term_stable(m1, *m, root);
        crate::term::lemma_extends_trans(m0, m1, *m);
        crate::term::lemma_rewrite_stable(m0, *m, m0.bind(bid).rhs, replace_node(target, replacement));
    }
    root
}

/// What a rewrite followed by the dead-measure sweep leaves: every live
/// binding keeps its name and flags, and holds either its rewritten
/// right-hand side (`root` for `bid`, the old one elsewhere) or the sweep's
/// `0.0`, the latter only when it was an eliminable measure binding that
/// nothing refers to; no dead measure binding is left.
pub open spec fn swept_after(m0: Module, m: Module, bid: BindingId, root: NodeId) -> bool {
    &&& m.bindings@.len() == m0.bindings@.len()
    &&& forall|b: BindingId| #[trigger] m.live(b) == m0.live(b)
    &&& forall|b: BindingId|
        #[trigger] m.live(b) ==> m.bind(b) == (crate::ir::Binding { rhs: m.bind(b).rhs, ..m0.bind(b) })
    &&& forall|b: BindingId|
        #[trigger] m.live(b) ==> {
            let pre = if b == bid {
                root
            } else {
                m0.bind(b).rhs
            };
            m.bind(b).rhs == pre || (zero_lit(m, m.bind(b).rhs) && !referenced(m, b) && eliminable(m, pre))
        }
    &&& forall|b: BindingId| !#[trigger] dead_measure(m, b)
}

/// Replace `target` by `replacement` in binding `bid`, then sweep the
/// measure bindings the rewrite left dead (a lowered query no longer refers
/// to what it consumed). Returns the rewritten right-hand side.
pub fn install_rewrite(m: &mut Module, bid: BindingId, target: NodeId, replacement: NodeId) -> (root: NodeId)
    requires
        old(m).wf(),
        old(m).live(bid),
        replacement.0 < old(m).nodes@.len(),
    ensures
        final(m).wf(),
        final(m).extends(old(m)),
        root.0 < final(m).nodes@.len(),
        term(*final(m), root) == rewrite(*final(m), old(m).bind(bid).rhs, replace_node(target, replacement)),
        swept_after(*old(m), *final(m), bid, root),
{
    let ghost m0 = *m;
    let root = rewrite_binding(m, bid, target, replacement);
    let ghost m1 = *m;
    sweep_dead_measure_bindings(m);
    proof {
        crate::term::lemma_term_stable(m1, *m, root);
        crate::term::lemma_extends_trans(m0, m1, *m);
        assert(m0.binding_wf(m0.bind(bid)));
        crate::term::lemma_rewrite_stable(m0, *m, m0.bind(bid).rhs, replace_node(target, replacement));
        crate::term::lemma_rewrite_stable(m0, m1, m0.bind(bid).rhs, replace_node(target, replacement));
        assert forall|b: BindingId| #[trigger] m.live(b) implies m.bind(b) == (crate::ir::Binding {
            rhs: m.bind(b).rhs,
            ..m0.bind(b)
        }) by {
            assert(m1.live(b));
        }
        assert forall|b: BindingId| #[trigger] m.live(b) implies {
            let pre = if b == bid {
                root
            } else {
                m0.bind(b).rhs
            };
            m.bind(b).rhs == pre || (zero_lit(*m, m.bind(b).rhs) && !referenced(*m, b) && eliminable(*m, pre))
        } by {
            assert(m1.live(b));
            assert(m1.binding_wf(m1.bind(b)));
            let pre = m1.bind(b).rhs;
            lemma_eliminable_stable(m1, *m, pre);
        }
        assert forall|b: BindingId| #[trigger] m.live(b) == m0.live(b) by {
            assert(m.live(b) == m1.live(b));
        }
    }
    root
}

// ---------------------------------------------------------------------------
// The rewrite rules
// ---------------------------------------------------------------------------

/// The lowering a density or sampling query still needs.
#[derive(Clone, Copy, PartialEq, Eq, Structural, Debug)]
pub enum Lowering {
    /// `logdensityof(M, v)`.
    LogDensity,
    /// `densityof(M, v)`.
    Density,
    /// `rand(rng, M)`.
    Sample,
}

/// What one application of the rules did.
#[derive(Clone, Copy, PartialEq, Eq, Structural, Debug)]
pub enum Applied {
    /// The target was replaced by `replacement`, making `root` the binding's
    /// new right-hand side.
    Rewritten { replacement: NodeId, root: NodeId },
    /// The target is a density query or a `rand`: the density / sampling
    /// lowering produces its replacement, installed with [`install_rewrite`].
    Lower(Lowering),
}

/// The refusal text for a `get` index outside the `(kernel, marginal)` pair.
pub open spec fn get_index_reason(i: i64) -> Seq<char> {
    "get index "@ + crate::text::signed_decimal(i as int) + " out of range for a disintegrate (kernel, marginal) tuple"@
}

pub open spec fn split_refusal_reason() -> Seq<char> {
    "disintegrate is not an explicit `lawof(record(…))` structural split"@
}

pub open spec fn restrict_refusal_reason() -> Seq<char> {
    "restrict(M, x) is not the explicit structural case: x must be a record of observed values whose fields are all variates of a lawof(record(…)) M"@
}

pub open spec fn no_rule_reason() -> Seq<char> {
    "no determinization rule for this measure-layer construct (Task 3+ needed)"@
}

/// What [`apply_rule`] does to `m0` (giving `m`) and returns, rule by rule.
pub open spec fn rule_outcome(m0: Module, m: Module, bid: BindingId, target: NodeId, r: Result<Applied, RefuseError>) -> bool {
    match get_disintegrate(m0, target) {
        Some((d, i)) => if i != 1 && i != 2 {
            &&& m == m0
            &&& r matches Err(e) && e.node == target && e.construct@ == "get"@
                && e.reason@ == get_index_reason(i)
        } else {
            match crate::disintegrate::disintegrate_plan(m0, d) {
                None => {
                    &&& m.bindings@ == m0.bindings@
                    &&& r matches Err(e) && e.node == d && e.construct@ == "disintegrate"@
                        && e.reason@ == split_refusal_reason()
                },
                Some((sel, non)) => r matches Ok(Applied::Rewritten { replacement, root }) && {
                    &&& if i == 1 {
                        crate::disintegrate::kernel_of(m, replacement, sel, non)
                    } else {
                        crate::disintegrate::marginal_of(m, replacement, non)
                    }
                    &&& root.0 < m.nodes@.len()
                    &&& term(m, root) == rewrite(
                        m,
                        m0.bind(bid).rhs,
                        replace_node(target, replacement),
                    )
                    &&& swept_after(m0, m, bid, root)
                },
            }
        },
        None => if is_builtin_named(m0, target, "restrict"@) {
            match crate::disintegrate::restrict_plan(m0, target) {
                None => {
                    &&& m.bindings@ == m0.bindings@
                    &&& r matches Err(e) && e.node == target && e.construct@ == "restrict"@
                        && e.reason@ == restrict_refusal_reason()
                },
                Some((sel, non)) => r matches Ok(Applied::Rewritten { replacement, root }) && {
                    &&& exists|l: NodeId, k: NodeId, g: NodeId, x: NodeId|
                        {
                            &&& crate::disintegrate::plain_call(m, replacement, "bayesupdate"@, seq![l, g])
                            &&& crate::disintegrate::plain_call(m, l, "likelihoodof"@, seq![k, x])
                            &&& crate::disintegrate::kernel_of(m, k, sel, non)
                            &&& crate::disintegrate::marginal_of(m, g, non)
                            &&& crate::disintegrate::observed_of(m0, target, m, x)
                        }
                    &&& root.0 < m.nodes@.len()
                    &&& term(m, root) == rewrite(
                        m,
                        m0.bind(bid).rhs,
                        replace_node(target, replacement),
                    )
                    &&& swept_after(m0, m, bid, root)
                },
            }
        } else if is_builtin_named(m0, target, "logdensityof"@) {
            m == m0 && r == Ok::<Applied, RefuseError>(Applied::Lower(Lowering::LogDensity))
        } else if is_builtin_named(m0, target, "densityof"@) {
            m == m0 && r == Ok::<Applied, RefuseError>(Applied::Lower(Lowering::Density))
        } else if is_builtin_named(m0, target, "rand"@) {
            m == m0 && r == Ok::<Applied, RefuseError>(Applied::Lower(Lowering::Sample))
        } else {
            match unary_builtin_arg(m0, target, "lawof"@) {
                Some(dr) if unary_builtin_arg(m0, dr, "draw"@) is Some => {
                    let inner = unary_builtin_arg(m0, dr, "draw"@).unwrap();
                    &&& r == Ok::<Applied, RefuseError>(Applied::Rewritten { replacement: inner, root: m.bind(bid).rhs })
                    &&& (target == m0.bind(bid).rhs ==> m.bind(bid).rhs == inner && m.nodes@ == m0.nodes@)
                    &&& m.bindings@.len() == m0.bindings@.len()
                    &&& forall|b: BindingId| #[trigger] m.live(b) == m0.live(b)
                    &&& forall|b: BindingId| b != bid && #[trigger] m.live(b) ==> m.bind(b) == m0.bind(b)
                    &&& m.bind(bid) == (crate::ir::Binding { rhs: m.bind(bid).rhs, ..m0.bind(bid) })
                    &&& term(m, m.bind(bid).rhs) == rewrite(
                        m0,
                        m0.bind(bid).rhs,
                        replace_node(target, inner),
                    )
                },
                _ => {
                    &&& m == m0
                    &&& r matches Err(e) && e.node == target && e.construct@ == op_name_text(m0, target)
                        && e.reason@ == no_rule_reason()
                },
            }
        },
    }
}

/// Apply the first matching rule to `target` inside binding `bid`:
/// - `get(disintegrate(…), i)`: index 1 is the kernel and 2 the marginal of
///   the structural split, which replaces the `get`; any other index, or a
///   disintegrate outside the explicit case, refuses;
/// - `restrict(M, x)`: replaced by its `bayesupdate` desugaring, or refused;
/// - `logdensityof` / `densityof` / `rand`: handed to the lowering;
/// - `lawof(draw ?m)`: replaced by `?m` (β-law), with no sweep;
/// - anything else refuses with its op name.
/// The rewriting arms other than β-law sweep dead measure bindings after.
pub fn apply_rule(m: &mut Module, bid: BindingId, target: NodeId) -> (r: Result<Applied, RefuseError>)
    requires
        old(m).wf(),
        old(m).live(bid),
        target.0 < old(m).nodes@.len(),
    ensures
        final(m).wf(),
        final(m).extends(old(m)),
        rule_outcome(*old(m), *final(m), bid, target, r),

{
    broadcast use vstd::string::group_string_axioms;

    let ghost m0 = *m;
    if let Some((disint_node, index)) = match_get_disintegrate(m, target) {
        if index != 1 && index != 2 {
            let mut reason = String::from_str("get index ");
            let digits = crate::text::signed_decimal_string(index);
            reason.append(digits.as_str());
            reason.append(" out of range for a disintegrate (kernel, marginal) tuple");
            proof {
                reveal_strlit("get index ");
                reveal_strlit(" out of range for a disintegrate (kernel, marginal) tuple");
                reveal_strlit("get");
            }
            return Err(RefuseError { node: target, construct: "get".to_string(), reason });
        }
        let split = crate::disintegrate::split_disintegrate(m, disint_node);
        let (kernel, marginal) = match split {
            Some(pair) => pair,
            None => {
                proof {
                    reveal_strlit("disintegrate");
                }
                return Err(RefuseError {
                    node: disint_node,
                    construct: "disintegrate".to_string(),
                    reason: "disintegrate is not an explicit `lawof(record(…))` structural split".to_string(),
                });
            },
        };
        let replacement = if index == 1 {
            kernel
        } else {
            marginal
        };
        let ghost m1 = *m;
        proof {
            assert(m1.live(bid));
        }
        let root = install_rewrite(m, bid, target, replacement);
        proof {
            crate::term::lemma_extends_trans(m0, m1, *m);
            lemma_swept_after_growth(m0, m1, *m, bid, root);
            let (sel, non) = crate::disintegrate::disintegrate_plan(m0, disint_node).unwrap();
            if index == 1 {
                crate::disintegrate::lemma_kernel_of_stable(m1, *m, kernel, sel, non);
            } else {
                crate::disintegrate::lemma_marginal_of_stable(m1, *m, marginal, non);
            }
        }
        return Ok(Applied::Rewritten { replacement, root });
    }
    if is_op(m, target, "restrict") {
        let desugared = match crate::disintegrate::rewrite_restrict(m, target) {
            Some(p) => p,
            None => {
                proof {
                    reveal_strlit("restrict");
                }
                return Err(RefuseError {
                    node: target,
                    construct: "restrict".to_string(),
                    reason: "restrict(M, x) is not the explicit structural case: x must be a record of observed values whose fields are all variates of a lawof(record(…)) M".to_string(),
                });
            },
        };
        let ghost m1 = *m;
        let root = install_rewrite(m, bid, target, desugared);
        proof {
            crate::term::lemma_extends_trans(m0, m1, *m);
            lemma_swept_after_growth(m0, m1, *m, bid, root);
            let (sel, non) = crate::disintegrate::restrict_plan(m0, target).unwrap();
            let (l, k, g, x) = choose|l: NodeId, k: NodeId, g: NodeId, x: NodeId|
                {
                    &&& crate::disintegrate::plain_call(m1, desugared, "bayesupdate"@, seq![l, g])
                    &&& crate::disintegrate::plain_call(m1, l, "likelihoodof"@, seq![k, x])
                    &&& crate::disintegrate::kernel_of(m1, k, sel, non)
                    &&& crate::disintegrate::marginal_of(m1, g, non)
                    &&& crate::disintegrate::observed_of(m0, target, m1, x)
                };
            lemma_restrict_shape_stable(m0, m1, *m, target, desugared, l, k, g, x, sel, non);
        }
        return Ok(Applied::Rewritten { replacement: desugared, root });
    }
    if is_op(m, target, "logdensityof") {
        return Ok(Applied::Lower(Lowering::LogDensity));
    }
    if is_op(m, target, "densityof") {
        return Ok(Applied::Lower(Lowering::Density));
    }
    if is_op(m, target, "rand") {
        return Ok(Applied::Lower(Lowering::Sample));
    }
    if let Some(inner) = try_beta_law(m, target) {
        proof {
            let dr = unary_builtin_arg(m0, target, "lawof"@).unwrap();
            assert(node_wf(m0.nodes@[target.0 as int], target.0 as int, m0.symbols@.len()));
            assert(node_wf(m0.nodes@[dr.0 as int], dr.0 as int, m0.symbols@.len()));
            if let Node::Call(c) = m0.at(target) {
                assert(crate::ir::node_children(m0.at(target))[0] == c.args@[0]);
            }
            if let Node::Call(c) = m0.at(dr) {
                assert(crate::ir::node_children(m0.at(dr))[0] == c.args@[0]);
            }
        }
        let root = rewrite_binding(m, bid, target, inner);
        return Ok(Applied::Rewritten { replacement: inner, root });
    }
    let construct = op_name(m, target);
    proof {
        reveal_strlit("no determinization rule for this measure-layer construct (Task 3+ needed)");
    }
    Err(RefuseError {
        node: target,
        construct,
        reason: "no determinization rule for this measure-layer construct (Task 3+ needed)".to_string(),
    })
}

/// The sweep's outcome relative to a grown arena with the same bindings is
/// the outcome relative to the old one.
proof fn lemma_swept_after_growth(m0: Module, m1: Module, m2: Module, bid: BindingId, root: NodeId)
    requires
        m1.bindings@ == m0.bindings@,
        swept_after(m1, m2, bid, root),
    ensures
        swept_after(m0, m2, bid, root),
{
    assert forall|b: BindingId| #[trigger] m2.live(b) == m0.live(b) by {
        assert(m2.live(b) == m1.live(b));
    }
    assert forall|b: BindingId| #[trigger] m2.live(b) implies m2.bind(b) == (crate::ir::Binding {
        rhs: m2.bind(b).rhs,
        ..m0.bind(b)
    }) by {
        assert(m2.live(b) == m1.live(b));
    }
    assert forall|b: BindingId| #[trigger] m2.live(b) implies {
        let pre = if b == bid {
            root
        } else {
            m0.bind(b).rhs
        };
        m2.bind(b).rhs == pre || (zero_lit(m2, m2.bind(b).rhs) && !referenced(m2, b) && eliminable(m2, pre))
    } by {
        assert(m2.live(b) == m1.live(b));
    }
}

proof fn lemma_restrict_shape_stable(
    m0: Module,
    m1: Module,
    m2: Module,
    target: NodeId,
    p: NodeId,
    l: NodeId,
    k: NodeId,
    g: NodeId,
    x: NodeId,
    sel: Seq<(Symbol, NodeId)>,
    non: Seq<(Symbol, NodeId)>,
)
    requires
        m1.wf(),
        m2.extends(&m1),
        p.0 < m1.nodes@.len(),
        crate::disintegrate::plain_call(m1, p, "bayesupdate"@, seq![l, g]),
        crate::disintegrate::plain_call(m1, l, "likelihoodof"@, seq![k, x]),
        crate::disintegrate::kernel_of(m1, k, sel, non),
        crate::disintegrate::marginal_of(m1, g, non),
        crate::disintegrate::observed_of(m0, target, m1, x),
        crate::disintegrate::values_below(non, m1.nodes@.len()),
    ensures
        crate::disintegrate::plain_call(m2, p, "bayesupdate"@, seq![l, g]),
        crate::disintegrate::plain_call(m2, l, "likelihoodof"@, seq![k, x]),
        crate::disintegrate::kernel_of(m2, k, sel, non),
        crate::disintegrate::marginal_of(m2, g, non),
        crate::disintegrate::observed_of(m0, target, m2, x),
{
    assert(node_wf(m1.nodes@[p.0 as int], p.0 as int, m1.symbols@.len()));
    assert(crate::ir::node_children(m1.at(p))[0] == l);
    assert(crate::ir::node_children(m1.at(p))[1] == g);
    assert(node_wf(m1.nodes@[l.0 as int], l.0 as int, m1.symbols@.len()));
    assert(crate::ir::node_children(m1.at(l))[0] == k);
    assert(crate::ir::node_children(m1.at(l))[1] == x);
    crate::disintegrate::lemma_plain_call_stable(m1, m2, p, "bayesupdate"@, seq![l, g]);
    crate::disintegrate::lemma_plain_call_stable(m1, m2, l, "likelihoodof"@, seq![k, x]);
    crate::disintegrate::lemma_kernel_of_stable(m1, m2, k, sel, non);
    crate::disintegrate::lemma_marginal_of_stable(m1, m2, g, non);
    if let Node::Call(c) = m0.at(target) {
        if c.args@.len() != 2 {
            crate::disintegrate::lemma_record_of_stable(
                m1,
                m2,
                x,
                c.named@.map_values(|na: crate::ir::NamedArg| (na.name, na.value)),
            );
        }
    }
}


// ---------------------------------------------------------------------------
// One step of the legalizer
// ---------------------------------------------------------------------------

/// The `Debug` spelling of a violation kind: its variant name.
pub open spec fn kind_text(k: crate::refuse::NonConformKind) -> Seq<char> {
    match k {
        crate::refuse::NonConformKind::StochasticPhase => "StochasticPhase"@,
        crate::refuse::NonConformKind::MeasureTyped => "MeasureTyped"@,
        crate::refuse::NonConformKind::LikelihoodTyped => "LikelihoodTyped"@,
        crate::refuse::NonConformKind::KernelNotBuiltinArg => "KernelNotBuiltinArg"@,
        crate::refuse::NonConformKind::Failed => "Failed"@,
        crate::refuse::NonConformKind::DanglingSelfRef => "DanglingSelfRef"@,
        crate::refuse::NonConformKind::FreeBareName => "FreeBareName"@,
        crate::refuse::NonConformKind::ResidualUserCall => "ResidualUserCall"@,
        crate::refuse::NonConformKind::BuiltinArity => "BuiltinArity"@,
    }
}

/// The variant name of a violation kind.
pub fn kind_name(k: crate::refuse::NonConformKind) -> (s: &'static str)
    ensures
        s@ == kind_text(k),
{
    proof {
        reveal_strlit("StochasticPhase");
        reveal_strlit("MeasureTyped");
        reveal_strlit("LikelihoodTyped");
        reveal_strlit("KernelNotBuiltinArg");
        reveal_strlit("Failed");
        reveal_strlit("DanglingSelfRef");
        reveal_strlit("FreeBareName");
        reveal_strlit("ResidualUserCall");
        reveal_strlit("BuiltinArity");
    }
    match k {
        crate::refuse::NonConformKind::StochasticPhase => "StochasticPhase",
        crate::refuse::NonConformKind::MeasureTyped => "MeasureTyped",
        crate::refuse::NonConformKind::LikelihoodTyped => "LikelihoodTyped",
        crate::refuse::NonConformKind::KernelNotBuiltinArg => "KernelNotBuiltinArg",
        crate::refuse::NonConformKind::Failed => "Failed",
        crate::refuse::NonConformKind::DanglingSelfRef => "DanglingSelfRef",
        crate::refuse::NonConformKind::FreeBareName => "FreeBareName",
        crate::refuse::NonConformKind::ResidualUserCall => "ResidualUserCall",
        crate::refuse::NonConformKind::BuiltinArity => "BuiltinArity",
    }
}

/// What one step of the legalizer did.
#[derive(Clone, Copy, PartialEq, Eq, Structural, Debug)]
pub enum Step {
    /// No measure-layer node is left and the module is FlatPDL-conformant.
    Conformant,
    /// A rule fired on `target`, inside binding `bid`.
    Applied { bid: BindingId, target: NodeId, applied: Applied },
}

/// What [`determinize_step`] does: with no measure-layer target left, the
/// module is unchanged and either conforms or is refused with its first
/// violation; otherwise the first rule applies to the target that
/// [`find_measure_node`] picks.
pub open spec fn step_outcome(m0: Module, t: crate::conformance::NameTables, m: Module, r: Result<Step, RefuseError>) -> bool {
    if measure_target_ok(m0, None) {
        let vs = crate::conformance::all_violations(m0, t);
        &&& m == m0
        &&& match r {
            Ok(Step::Conformant) => vs.len() == 0,
            Err(e) => vs.len() > 0 && e.node == vs[0].0 && e.construct@ == kind_text(vs[0].1) && e.reason@
                == vs[0].2,
            _ => false,
        }
    } else {
        exists|b: BindingId, x: NodeId|
            #[trigger] measure_target_ok(m0, Some((b, x))) && match r {
                Ok(Step::Applied { bid, target, applied }) => bid == b && target == x && rule_outcome(
                    m0,
                    m,
                    b,
                    x,
                    Ok(applied),
                ),
                Err(e) => rule_outcome(m0, m, b, x, Err(e)),
                Ok(Step::Conformant) => false,
            }
    }
}

/// One step of the legalizer: find the next measure-layer node and apply
/// the first matching rule, or, when none is left, check conformance.
/// Inference is re-run by the caller between steps (the tables describe
/// the module as inferred), and a `Lower` outcome is completed by the
/// density / sampling lowering.
pub fn determinize_step(m: &mut Module, t: &crate::conformance::NameTables) -> (r: Result<Step, RefuseError>)
    requires
        old(m).wf(),
        t.covers(*old(m)),
    ensures
        final(m).wf(),
        final(m).extends(old(m)),
        step_outcome(*old(m), *t, *final(m), r),
{
    let ghost m0 = *m;
    match find_measure_node(m) {
        None => {
            match crate::conformance::is_flatpdl(m, t) {
                Ok(()) => Ok(Step::Conformant),
                Err(violations) => {
                    let v = &violations[0];
                    proof {
                        assert(crate::conformance::viol_view(violations@)[0] == crate::conformance::nc_view(violations@[0]));
                    }
                    let construct = kind_name(v.kind).to_string();
                    proof {
                        broadcast use vstd::string::group_string_axioms;
                    }
                    Err(RefuseError { node: v.node, construct, reason: v.reason.clone() })
                },
            }
        },
        Some((bid, node)) => {
            let applied = apply_rule(m, bid, node);
            proof {
                assert(measure_target_ok(m0, Some((bid, node))));
                if measure_target_ok(m0, None) {
                    lemma_target_unique(m0, bid, node);
                }
            }
            match applied {
                Ok(a) => Ok(Step::Applied { bid, target: node, applied: a }),
                Err(e) => Err(e),
            }
        },
    }
}

/// A module with a target is not one without.
proof fn lemma_target_unique(m: Module, b: BindingId, x: NodeId)
    ensures
        !(measure_target_ok(m, Some((b, x))) && measure_target_ok(m, None)),
{
}

} // verus!
