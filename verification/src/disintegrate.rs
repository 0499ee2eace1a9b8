//! Structural disintegration of an explicit `lawof(record(field…))` joint
//! into a `(kernel, marginal)` pair, and the `restrict` desugaring built on
//! it.
//!
//! `disintegrate(selector, lawof(record(field…)))` is the structural inverse
//! of `jointchain(marginal, kernel)`: the SELECTED fields become the kernel's
//! law, conditioned on the NON-selected fields (the kernel's boundary inputs),
//! which also form the marginal. Every other shape yields `None` and the
//! caller refuses.

use vstd::prelude::*;
use crate::driver::{mentions_ref, subtree_refers};
use crate::ir::{
    node_children, node_wf, ref_ok, str_eq, BindingId, Call, CallHead, Inputs, Module, NamedArg,
    NamedKind, Node, NodeId, Ref, RefNs, Scalar, Symbol,
};
use crate::reach::{in_subtree, subtree_nodes};
use crate::shape::{is_builtin_named, resolve_one_spec, unary_builtin_arg};

verus! {

// ---------------------------------------------------------------------------
// Binding-name reachability
// ---------------------------------------------------------------------------

/// Some node of a subtree of `starts` names binding `s` directly.
pub open spec fn refers_any(m: Module, starts: Seq<NodeId>, s: Symbol) -> bool {
    exists|k: int| 0 <= k < starts.len() && #[trigger] subtree_refers(m, starts[k], s)
}

/// The right-hand side of the binding named `t` names binding `s`.
pub open spec fn bound_refers(m: Module, t: Symbol, s: Symbol) -> bool {
    exists|b: BindingId|
        #[trigger] m.live(b) && m.bind(b).name == t && subtree_refers(m, m.bind(b).rhs, s)
}

/// `s` is named within `n` hops from `starts`: directly, or by the
/// right-hand side of a binding reached in fewer hops.
pub open spec fn reaches(m: Module, starts: Seq<NodeId>, s: Symbol, n: nat) -> bool
    decreases n,
{
    refers_any(m, starts, s) || (n > 0 && exists|t: Symbol|
        reaches(m, starts, t, (n - 1) as nat) && #[trigger] bound_refers(m, t, s))
}

/// The generative closure of `starts`: every binding name reached from them
/// by following `(%ref self …)` edges (body nodes and reification inputs)
/// into the referenced bindings' right-hand sides.
pub open spec fn reachable(m: Module, starts: Seq<NodeId>, s: Symbol) -> bool {
    exists|n: nat| #[trigger] reaches(m, starts, s, n)
}

/// A mark table is closed: the right-hand side of every marked binding name
/// only names marked bindings.
pub open spec fn marks_closed(m: Module, marks: Seq<bool>) -> bool {
    forall|t: Symbol, s: Symbol|
        t.0 < marks.len() && s.0 < marks.len() && marks[t.0 as int] && #[trigger] bound_refers(
            m,
            t,
            s,
        ) ==> marks[s.0 as int]
}

/// A name mentioned in a well-formed module is interned.
pub proof fn lemma_mention_interned(m: Module, x: NodeId, s: Symbol)
    requires
        m.wf(),
        mentions_ref(m, x, s),
    ensures
        s.0 < m.symbols@.len(),
{
    assert(node_wf(m.nodes@[x.0 as int], x.0 as int, m.symbols@.len()));
    match m.at(x) {
        Node::Call(c) => {
            if let Some(Inputs::Spec(entries)) = c.inputs {
                let k = choose|k: int|
                    0 <= k < entries@.len() && (#[trigger] entries@[k]).1.ns == RefNs::SelfMod
                        && entries@[k].1.name == s;
                assert(ref_ok(entries@[k].1, m.symbols@.len()));
            }
        },
        _ => {},
    }
}

pub proof fn lemma_refers_interned(m: Module, root: NodeId, s: Symbol)
    requires
        m.wf(),
        subtree_refers(m, root, s),
    ensures
        s.0 < m.symbols@.len(),
{
    let x = choose|x: NodeId| in_subtree(m, root, x) && #[trigger] mentions_ref(m, x, s);
    lemma_mention_interned(m, x, s);
}

/// A closed mark table that holds every name `starts` mention directly holds
/// their whole generative closure.
pub proof fn lemma_closed_covers(m: Module, starts: Seq<NodeId>, marks: Seq<bool>, s: Symbol, n: nat)
    requires
        m.wf(),
        marks.len() == m.symbols@.len(),
        forall|x: Symbol| x.0 < marks.len() && #[trigger] refers_any(m, starts, x) ==> marks[x.0 as int],
        marks_closed(m, marks),
        reaches(m, starts, s, n),
    ensures
        s.0 < marks.len(),
        marks[s.0 as int],
    decreases n,
{
    if refers_any(m, starts, s) {
        let k = choose|k: int| 0 <= k < starts.len() && #[trigger] subtree_refers(m, starts[k], s);
        lemma_refers_interned(m, starts[k], s);
    } else {
        let t = choose|t: Symbol| reaches(m, starts, t, (n - 1) as nat) && #[trigger] bound_refers(m, t, s);
        lemma_closed_covers(m, starts, marks, t, (n - 1) as nat);
        let b = choose|b: BindingId|
            #[trigger] m.live(b) && m.bind(b).name == t && subtree_refers(m, m.bind(b).rhs, s);
        lemma_refers_interned(m, m.bind(b).rhs, s);
    }
}

/// A mark table of `n` unset marks.
pub(crate) fn no_marks(n: usize) -> (r: Vec<bool>)
    ensures
        r@.len() == n,
        forall|i: int| 0 <= i < n ==> !#[trigger] r@[i],
{
    let mut r: Vec<bool> = Vec::new();
    let mut i: usize = 0;
    while i < n
        invariant
            i <= n,
            r@.len() == i,
            forall|k: int| 0 <= k < i ==> !#[trigger] r@[k],
        decreases n - i,
    {
        r.push(false);
        i += 1;
    }
    r
}

/// Mark every binding name node `x` mentions.
fn mark_node(m: &Module, x: NodeId, marks: &mut Vec<bool>)
    requires
        m.wf(),
        x.0 < m.nodes@.len(),
        old(marks)@.len() == m.symbols@.len(),
    ensures
        final(marks)@.len() == old(marks)@.len(),
        forall|s: Symbol|
            s.0 < old(marks)@.len() ==> #[trigger] final(marks)@[s.0 as int] == (old(marks)@[s.0 as int]
                || mentions_ref(*m, x, s)),
{
    proof {
        assert(node_wf(m.nodes@[x.0 as int], x.0 as int, m.symbols@.len()));
    }
    match m.node(x) {
        Node::Ref(r) => {
            let ghost before = marks@;
            if r.ns == RefNs::SelfMod {
                marks.set(r.name.0, true);
            }
            proof {
                assert forall|y: Symbol| y.0 < before.len() implies #[trigger] marks@[y.0 as int] == (
                before[y.0 as int] || mentions_ref(*m, x, y)) by {
                    if y.0 != r.name.0 {
                        assert(y != r.name);
                    }
                }
            }
        },
        Node::Call(c) => {
            if let Some(Inputs::Spec(entries)) = &c.inputs {
                let ghost m0 = marks@;
                proof {
                    assert(crate::ir::node_symbols_ok(m.at(x), m.symbols@.len()));
                    assert(crate::ir::inputs_ok(c.inputs, m.symbols@.len()));
                    assert(forall|j: int| 0 <= j < entries@.len() ==> (#[trigger] entries@[j]).0.0 < m.symbols@.len() && ref_ok(entries@[j].1, m.symbols@.len()));
                }
                let mut k: usize = 0;
                while k < entries.len()
                    invariant
                        m.wf(),
                        x.0 < m.nodes@.len(),
                        m.at(x) == Node::Call(*c),
                        c.inputs == Some(Inputs::Spec(*entries)),
                        forall|j: int| 0 <= j < entries@.len() ==> (#[trigger] entries@[j]).0.0 < m.symbols@.len() && ref_ok(entries@[j].1, m.symbols@.len()),
                        k <= entries@.len(),
                        marks@.len() == m0.len(),
                        m0.len() == m.symbols@.len(),
                        forall|y: Symbol|
                            y.0 < m0.len() ==> #[trigger] marks@[y.0 as int] == (m0[y.0 as int] || exists|j: int|
                                0 <= j < k && (#[trigger] entries@[j]).1.ns == RefNs::SelfMod
                                    && entries@[j].1.name == y),
                    decreases entries@.len() - k,
                {
                    let ghost before = marks@;
                    let r = entries[k].1;
                    if r.ns == RefNs::SelfMod {
                        proof {
                            assert(entries@[k as int].0.0 < m.symbols@.len() && ref_ok(entries@[k as int].1, m.symbols@.len()));
                        }
                        marks.set(r.name.0, true);
                    }
                    proof {
                        assert forall|y: Symbol| y.0 < m0.len() implies #[trigger] marks@[y.0 as int] == (m0[y.0 as int]
                            || exists|j: int|
                            0 <= j < k + 1 && (#[trigger] entries@[j]).1.ns == RefNs::SelfMod
                                && entries@[j].1.name == y) by {
                            let hit = r.ns == RefNs::SelfMod && r.name == y;
                            if y.0 != r.name.0 {
                                assert(y != r.name);
                            }
                            assert(marks@[y.0 as int] == (before[y.0 as int] || hit));
                            assert(entries@[k as int].1 == r);
                            if exists|j: int|
                                0 <= j < k + 1 && (#[trigger] entries@[j]).1.ns == RefNs::SelfMod
                                    && entries@[j].1.name == y {
                                let j = choose|j: int|
                                    0 <= j < k + 1 && (#[trigger] entries@[j]).1.ns == RefNs::SelfMod
                                        && entries@[j].1.name == y;
                                if j < k {
                                    assert(before[y.0 as int]);
                                } else {
                                    assert(hit);
                                }
                            }
                            if before[y.0 as int] && !m0[y.0 as int] {
                                let j = choose|j: int|
                                    0 <= j < k && (#[trigger] entries@[j]).1.ns == RefNs::SelfMod
                                        && entries@[j].1.name == y;
                                assert(0 <= j < k + 1);
                            }
                        }
                    }
                    k += 1;
                }
            }
        },
        _ => {},
    }
}

/// Mark every binding name the subtree of `root` mentions directly.
pub(crate) fn mark_subtree(m: &Module, root: NodeId, marks: &mut Vec<bool>)
    requires
        m.wf(),
        root.0 < m.nodes@.len(),
        old(marks)@.len() == m.symbols@.len(),
    ensures
        final(marks)@.len() == old(marks)@.len(),
        forall|y: Symbol|
            y.0 < old(marks)@.len() ==> #[trigger] final(marks)@[y.0 as int] == (old(marks)@[y.0 as int]
                || subtree_refers(*m, root, y)),
{
    let nodes = subtree_nodes(m, root);
    let ghost m0 = marks@;
    let mut k: usize = 0;
    while k < nodes.len()
        invariant
            m.wf(),
            root.0 < m.nodes@.len(),
            k <= nodes@.len(),
            marks@.len() == m0.len(),
            m0.len() == m.symbols@.len(),
            forall|j: int|
                0 <= j < nodes@.len() ==> (#[trigger] nodes@[j]).0 < m.nodes@.len() && in_subtree(
                    *m,
                    root,
                    nodes@[j],
                ),
            forall|y: Symbol|
                y.0 < m0.len() ==> #[trigger] marks@[y.0 as int] == (m0[y.0 as int] || exists|j: int|
                    0 <= j < k && #[trigger] mentions_ref(*m, nodes@[j], y)),
        decreases nodes@.len() - k,
    {
        let ghost before = marks@;
        mark_node(m, nodes[k], marks);
        proof {
            assert forall|y: Symbol| y.0 < m0.len() implies #[trigger] marks@[y.0 as int] == (m0[y.0 as int] || exists|j: int|
                0 <= j < k + 1 && #[trigger] mentions_ref(*m, nodes@[j], y)) by {
                assert(marks@[y.0 as int] == (before[y.0 as int] || mentions_ref(*m, nodes@[k as int], y)));
                if exists|j: int| 0 <= j < k + 1 && #[trigger] mentions_ref(*m, nodes@[j], y) {
                    let j = choose|j: int| 0 <= j < k + 1 && #[trigger] mentions_ref(*m, nodes@[j], y);
                    if j < k {
                        assert(before[y.0 as int]);
                    }
                }
            }
        }
        k += 1;
    }
    proof {
        assert forall|s: Symbol| s.0 < m0.len() implies #[trigger] marks@[s.0 as int] == (m0[s.0 as int]
            || subtree_refers(*m, root, s)) by {
            if subtree_refers(*m, root, s) {
                let x = choose|x: NodeId| in_subtree(*m, root, x) && #[trigger] mentions_ref(*m, x, s);
                assert(nodes@.contains(x));
                let j = choose|j: int| 0 <= j < nodes@.len() && nodes@[j] == x;
                assert(mentions_ref(*m, nodes@[j], s));
            }
            if exists|j: int| 0 <= j < nodes@.len() && #[trigger] mentions_ref(*m, nodes@[j], s) {
                let j = choose|j: int| 0 <= j < nodes@.len() && #[trigger] mentions_ref(*m, nodes@[j], s);
                assert(in_subtree(*m, root, nodes@[j]));
            }
        }
    }
}

/// Mark every binding name the subtrees of `starts` mention directly.
pub(crate) fn mark_all(m: &Module, starts: &Vec<NodeId>) -> (marks: Vec<bool>)
    requires
        m.wf(),
        forall|k: int| 0 <= k < starts@.len() ==> (#[trigger] starts@[k]).0 < m.nodes@.len(),
    ensures
        marks@.len() == m.symbols@.len(),
        forall|y: Symbol| y.0 < marks@.len() ==> #[trigger] marks@[y.0 as int] == refers_any(*m, starts@, y),
{
    let mut marks = no_marks(m.symbols.len());
    let mut k: usize = 0;
    while k < starts.len()
        invariant
            m.wf(),
            forall|j: int| 0 <= j < starts@.len() ==> (#[trigger] starts@[j]).0 < m.nodes@.len(),
            k <= starts@.len(),
            marks@.len() == m.symbols@.len(),
            forall|y: Symbol|
                y.0 < marks@.len() ==> #[trigger] marks@[y.0 as int] == refers_any(
                    *m,
                    starts@.subrange(0, k as int),
                    y,
                ),
        decreases starts@.len() - k,
    {
        let ghost before = marks@;
        mark_subtree(m, starts[k], &mut marks);
        proof {
            let pre = starts@.subrange(0, k as int);
            let post = starts@.subrange(0, k + 1);
            assert forall|s: Symbol| s.0 < marks@.len() implies #[trigger] marks@[s.0 as int] == refers_any(
                *m,
                post,
                s,
            ) by {
                if refers_any(*m, post, s) {
                    let j = choose|j: int| 0 <= j < post.len() && #[trigger] subtree_refers(*m, post[j], s);
                    if j < k {
                        assert(pre[j] == post[j]);
                        assert(refers_any(*m, pre, s));
                    }
                }
                if refers_any(*m, pre, s) {
                    let j = choose|j: int| 0 <= j < pre.len() && #[trigger] subtree_refers(*m, pre[j], s);
                    assert(pre[j] == post[j]);
                }
                if subtree_refers(*m, starts@[k as int], s) {
                    assert(post[k as int] == starts@[k as int]);
                }
            }
        }
        k += 1;
    }
    proof {
        assert(starts@.subrange(0, starts@.len() as int) =~= starts@);
    }
    marks
}

/// Close a mark table under the bindings' right-hand sides, keeping every
/// mark inside the generative closure of `starts`.
pub(crate) fn close_marks(m: &Module, marks: &mut Vec<bool>, Ghost(starts): Ghost<Seq<NodeId>>)
    requires
        m.wf(),
        old(marks)@.len() == m.symbols@.len(),
        forall|y: Symbol| y.0 < old(marks)@.len() && #[trigger] old(marks)@[y.0 as int] ==> reachable(*m, starts, y),
    ensures
        final(marks)@.len() == old(marks)@.len(),
        forall|y: Symbol| y.0 < old(marks)@.len() && #[trigger] old(marks)@[y.0 as int] ==> final(marks)@[y.0 as int],
        forall|y: Symbol| y.0 < final(marks)@.len() && #[trigger] final(marks)@[y.0 as int] ==> reachable(*m, starts, y),
        marks_closed(*m, final(marks)@),
{
    let ids = m.binding_ids();
    let nb = m.bindings.len();
    let mut processed = no_marks(nb);
    let ghost mut done: Set<int> = Set::empty();
    let ghost m0 = marks@;
    proof {
        assert(done.subset_of(vstd::set_lib::set_int_range(0, nb as int)));
    }
    loop
        invariant
            m.wf(),
            m0 == old(marks)@,
            nb == m.bindings@.len(),
            marks@.len() == m0.len(),
            m0.len() == m.symbols@.len(),
            processed@.len() == nb,
            forall|k: int| 0 <= k < ids@.len() ==> m.live(#[trigger] ids@[k]),
            forall|b: BindingId| #[trigger] m.live(b) ==> ids@.contains(b),
            forall|y: Symbol| y.0 < m0.len() && #[trigger] m0[y.0 as int] ==> marks@[y.0 as int],
            forall|y: Symbol| y.0 < marks@.len() && #[trigger] marks@[y.0 as int] ==> reachable(*m, starts, y),
            forall|b: BindingId|
                #[trigger] m.live(b) && processed@[b.0 as int] ==> marks@[m.bind(b).name.0 as int]
                    && forall|y: Symbol|
                    y.0 < marks@.len() && subtree_refers(*m, m.bind(b).rhs, y) ==> #[trigger] marks@[y.0 as int],
            done.finite(),
            done.subset_of(vstd::set_lib::set_int_range(0, nb as int)),
            forall|i: int| 0 <= i < nb ==> (#[trigger] processed@[i] <==> done.contains(i)),
        decreases nb - done.len(),
    {
        let ghost done0 = done;
        let mut changed = false;
        let mut k: usize = 0;
        while k < ids.len()
            invariant
                m.wf(),
                nb == m.bindings@.len(),
                marks@.len() == m0.len(),
                m0.len() == m.symbols@.len(),
                processed@.len() == nb,
                k <= ids@.len(),
                forall|j: int| 0 <= j < ids@.len() ==> m.live(#[trigger] ids@[j]),
                forall|y: Symbol| y.0 < m0.len() && #[trigger] m0[y.0 as int] ==> marks@[y.0 as int],
                forall|y: Symbol| y.0 < marks@.len() && #[trigger] marks@[y.0 as int] ==> reachable(*m, starts, y),
                forall|b: BindingId|
                    #[trigger] m.live(b) && processed@[b.0 as int] ==> marks@[m.bind(b).name.0 as int]
                        && forall|y: Symbol|
                        y.0 < marks@.len() && subtree_refers(*m, m.bind(b).rhs, y) ==> #[trigger] marks@[y.0 as int],
                done.finite(),
                done0.subset_of(done),
                done.subset_of(vstd::set_lib::set_int_range(0, nb as int)),
                forall|i: int| 0 <= i < nb ==> (#[trigger] processed@[i] <==> done.contains(i)),
                changed ==> done.len() > done0.len(),
                !changed ==> done == done0,
                !changed ==> forall|j: int|
                    0 <= j < k && #[trigger] marks@[m.bind(ids@[j]).name.0 as int] ==> processed@[ids@[j].0 as int],
            decreases ids@.len() - k,
        {
            let bid = ids[k];
            let b = m.binding(bid);
            proof {
                assert(m.live(bid));
                assert(m.binding_wf(m.bind(bid)));
            }
            if marks[b.name.0] && !processed[bid.0] {
                let ghost before = marks@;
                let ghost p0 = processed@;
                let ghost t = b.name;
                proof {
                    assert(before[t.0 as int]);
                }
                mark_subtree(m, b.rhs, marks);
                processed.set(bid.0, true);
                proof {
                    let dn = done.insert(bid.0 as int);
                    vstd::set_lib::lemma_len_subset(done0, done);
                    vstd::set::axiom_set_insert_len(done, bid.0 as int);
                    assert forall|s: Symbol| s.0 < marks@.len() && #[trigger] marks@[s.0 as int] implies reachable(
                        *m,
                        starts,
                        s,
                    ) by {
                        if !before[s.0 as int] {
                            assert(subtree_refers(*m, b.rhs, s));
                            assert(reachable(*m, starts, t));
                            let n = choose|n: nat| #[trigger] reaches(*m, starts, t, n);
                            assert(bound_refers(*m, t, s));
                            assert(reaches(*m, starts, s, n + 1));
                        }
                    }
                    assert forall|x: BindingId|
                        #[trigger] m.live(x) && processed@[x.0 as int] implies marks@[m.bind(x).name.0 as int]
                            && forall|y: Symbol|
                            y.0 < marks@.len() && subtree_refers(*m, m.bind(x).rhs, y) ==> #[trigger] marks@[y.0 as int] by {
                        if x != bid {
                            assert(x.0 != bid.0);
                            assert(p0[x.0 as int]);
                            assert(before[m.bind(x).name.0 as int]);
                        }
                    }
                    assert forall|i: int| 0 <= i < nb implies (#[trigger] processed@[i] <==> dn.contains(i)) by {}
                    done = dn;
                }
                changed = true;
            }
            k += 1;
        }
        if !changed {
            proof {
                assert forall|t: Symbol, s: Symbol|
                    t.0 < marks@.len() && s.0 < marks@.len() && marks@[t.0 as int] && #[trigger] bound_refers(
                        *m,
                        t,
                        s,
                    ) implies marks@[s.0 as int] by {
                    let b = choose|b: BindingId|
                        #[trigger] m.live(b) && m.bind(b).name == t && subtree_refers(*m, m.bind(b).rhs, s);
                    assert(ids@.contains(b));
                    let j = choose|j: int| 0 <= j < ids@.len() && ids@[j] == b;
                    assert(marks@[m.bind(ids@[j]).name.0 as int]);
                    assert(processed@[b.0 as int]);
                }
            }
            return;
        }
        proof {
            vstd::set_lib::lemma_int_range(0, nb as int);
            vstd::set_lib::lemma_len_subset(done, vstd::set_lib::set_int_range(0, nb as int));
        }
    }
}


// ---------------------------------------------------------------------------
// Reading the joint and the selector
// ---------------------------------------------------------------------------

/// The texts of a list of strings.
pub open spec fn strs_view(v: Seq<String>) -> Seq<Seq<char>> {
    v.map_values(|s: String| s@)
}

/// The text of a string literal node.
pub open spec fn str_lit(m: Module, id: NodeId) -> Option<Seq<char>> {
    if id.0 < m.nodes@.len() {
        match m.at(id) {
            Node::Lit(Scalar::Str(s)) => Some(s@),
            _ => None,
        }
    } else {
        None
    }
}

/// The field names a `disintegrate` selector picks: a string literal picks
/// one field, a non-empty `vector(...)` of string literals picks each named
/// field; anything else picks nothing (`None`).
pub open spec fn selector_spec(m: Module, node: NodeId) -> Option<Seq<Seq<char>>> {
    match m.at(node) {
        Node::Lit(Scalar::Str(s)) => Some(seq![s@]),
        Node::Call(c) => if is_builtin_named(m, node, "vector"@) && c.args@.len() > 0 && forall|k: int|
            0 <= k < c.args@.len() ==> #[trigger] str_lit(m, c.args@[k]) is Some {
            Some(c.args@.map_values(|a: NodeId| str_lit(m, a).unwrap()))
        } else {
            None
        },
        _ => None,
    }
}

/// The field names a `disintegrate` selector picks (see [`selector_spec`]).
pub fn selector_names(m: &Module, node: NodeId) -> (r: Option<Vec<String>>)
    requires
        m.wf(),
        node.0 < m.nodes@.len(),
    ensures
        match r {
            Some(v) => selector_spec(*m, node) == Some(strs_view(v@)),
            None => selector_spec(*m, node) is None,
        },
{
    proof {
        assert(node_wf(m.nodes@[node.0 as int], node.0 as int, m.symbols@.len()));
    }
    match m.node(node) {
        Node::Lit(Scalar::Str(s)) => {
            let mut v: Vec<String> = Vec::new();
            v.push(s.clone());
            proof {
                assert(strs_view(v@) =~= seq![s@]);
            }
            Some(v)
        },
        Node::Call(c) => {
            if !crate::driver::is_op(m, node, "vector") {
                return None;
            }
            proof {
                assert forall|j: int| 0 <= j < c.args@.len() implies (#[trigger] c.args@[j]).0 < m.nodes@.len() by {
                    assert(node_children(m.at(node))[j] == c.args@[j]);
                }
            }
            let mut v: Vec<String> = Vec::new();
            let mut k: usize = 0;
            while k < c.args.len()
                invariant
                    m.wf(),
                    node.0 < m.nodes@.len(),
                    m.at(node) == Node::Call(*c),
                    forall|j: int| 0 <= j < c.args@.len() ==> (#[trigger] c.args@[j]).0 < m.nodes@.len(),
                    k <= c.args@.len(),
                    v@.len() == k,
                    forall|j: int| 0 <= j < k ==> #[trigger] str_lit(*m, c.args@[j]) == Some(v@[j]@),
                decreases c.args@.len() - k,
            {
                match m.node(c.args[k]) {
                    Node::Lit(Scalar::Str(s)) => {
                        v.push(s.clone());
                    },
                    _ => {
                        proof {
                            assert(str_lit(*m, c.args@[k as int]) is None);
                        }
                        return None;
                    },
                }
                k += 1;
            }
            if v.len() == 0 {
                return None;
            }
            proof {
                assert(strs_view(v@) =~= c.args@.map_values(|a: NodeId| str_lit(*m, a).unwrap()));
            }
            Some(v)
        },
        _ => None,
    }
}

/// The `%field` names of `record(field…)` (no positional arguments, every
/// named entry a `%field`), in order.
pub open spec fn record_names_spec(m: Module, id: NodeId) -> Option<Seq<Seq<char>>> {
    if is_builtin_named(m, id, "record"@) {
        match m.at(id) {
            Node::Call(c) => if c.args@.len() == 0 && all_fields(c) {
                Some(c.named@.map_values(|na: NamedArg| m.name_of(na.name)))
            } else {
                None
            },
            _ => None,
        }
    } else {
        None
    }
}

/// Every named entry of a call is a `%field`.
pub open spec fn all_fields(c: Call) -> bool {
    forall|k: int| 0 <= k < c.named@.len() ==> (#[trigger] c.named@[k]).kind == NamedKind::Field
}

/// The `%field` names of a `record(field…)` node (see [`record_names_spec`]).
pub fn record_field_names(m: &Module, id: NodeId) -> (r: Option<Vec<String>>)
    requires
        m.wf(),
        id.0 < m.nodes@.len(),
    ensures
        match r {
            Some(v) => record_names_spec(*m, id) == Some(strs_view(v@)),
            None => record_names_spec(*m, id) is None,
        },
{
    broadcast use vstd::string::group_string_axioms;

    let rec = match crate::shape::expect_builtin_call(m, id, "record") {
        Some(c) => c,
        None => return None,
    };
    if rec.args.len() != 0 {
        return None;
    }
    proof {
        assert(node_wf(m.nodes@[id.0 as int], id.0 as int, m.symbols@.len()));
    }
    let mut names: Vec<String> = Vec::new();
    let mut k: usize = 0;
    while k < rec.named.len()
        invariant
            m.wf(),
            id.0 < m.nodes@.len(),
            m.at(id) == Node::Call(*rec),
            crate::ir::node_symbols_ok(m.at(id), m.symbols@.len()),
            k <= rec.named@.len(),
            names@.len() == k,
            forall|j: int| 0 <= j < k ==> (#[trigger] rec.named@[j]).kind == NamedKind::Field,
            forall|j: int| 0 <= j < k ==> (#[trigger] names@[j])@ == m.name_of(rec.named@[j].name),
        decreases rec.named@.len() - k,
    {
        let na = rec.named[k];
        if na.kind != NamedKind::Field {
            return None;
        }
        names.push(m.resolve(na.name).to_string());
        k += 1;
    }
    proof {
        assert(strs_view(names@) =~= rec.named@.map_values(|na: NamedArg| m.name_of(na.name)));
    }
    Some(names)
}

// ---------------------------------------------------------------------------
// The structural split
// ---------------------------------------------------------------------------

/// The record call under `measure` when it is `lawof(record(…))`, each of
/// the two resolved one `(%ref self …)` hop, the record with no positional
/// arguments.
pub open spec fn law_record(m: Module, measure: NodeId) -> Option<Call> {
    let r1 = resolve_one_spec(m, measure).0;
    match unary_builtin_arg(m, r1, "lawof"@) {
        Some(arg) => {
            let r2 = resolve_one_spec(m, arg).0;
            if is_builtin_named(m, r2, "record"@) {
                match m.at(r2) {
                    Node::Call(c) => if c.args@.len() == 0 {
                        Some(c)
                    } else {
                        None
                    },
                    _ => None,
                }
            } else {
                None
            }
        },
        None => None,
    }
}

/// The `(name, value)` pairs of a call's named entries.
pub open spec fn field_pairs(c: Call) -> Seq<(Symbol, NodeId)> {
    c.named@.map_values(|na: NamedArg| (na.name, na.value))
}

/// Field `s` is named by the selector.
pub open spec fn is_selected(m: Module, names: Seq<Seq<char>>, s: Symbol) -> bool {
    names.contains(m.name_of(s))
}

pub open spec fn sel_pred(m: Module, names: Seq<Seq<char>>) -> spec_fn((Symbol, NodeId)) -> bool {
    |f: (Symbol, NodeId)| is_selected(m, names, f.0)
}

pub open spec fn non_pred(m: Module, names: Seq<Seq<char>>) -> spec_fn((Symbol, NodeId)) -> bool {
    |f: (Symbol, NodeId)| !is_selected(m, names, f.0)
}

/// The value nodes of a list of fields.
pub open spec fn values(fs: Seq<(Symbol, NodeId)>) -> Seq<NodeId> {
    fs.map_values(|f: (Symbol, NodeId)| f.1)
}

/// Every selector name names a field.
pub open spec fn names_present(m: Module, names: Seq<Seq<char>>, fields: Seq<(Symbol, NodeId)>) -> bool {
    forall|k: int| 0 <= k < names.len() ==> #[trigger] label_in(m, fields, names[k])
}

/// Some field is named `name`.
pub open spec fn label_in(m: Module, fields: Seq<(Symbol, NodeId)>, name: Seq<char>) -> bool {
    exists|j: int| 0 <= j < fields.len() && m.name_of(fields[j].0) == name
}

/// Every field value is a reference node.
pub open spec fn all_refs(m: Module, fs: Seq<(Symbol, NodeId)>) -> bool {
    forall|j: int| 0 <= j < fs.len() ==> #[trigger] m.at(fs[j].1) is Ref
}

/// No binding the non-selected fields reach is a variate the selected
/// fields name: the marginal is closed, so `jointchain(marginal, kernel)`
/// rebuilds the joint.
pub open spec fn marginal_closed(m: Module, sel: Seq<(Symbol, NodeId)>, non: Seq<(Symbol, NodeId)>) -> bool {
    forall|s: Symbol| !(#[trigger] reachable(m, values(non), s) && refers_any(m, values(sel), s))
}

/// The partition of the joint's fields into the SELECTED and the
/// NON-selected ones, in record order, when the structural split applies.
pub open spec fn split_plan(m: Module, names: Seq<Seq<char>>, measure: NodeId) -> Option<
    (Seq<(Symbol, NodeId)>, Seq<(Symbol, NodeId)>),
> {
    match law_record(m, measure) {
        Some(c) => {
            let fields = field_pairs(c);
            let sel = fields.filter(sel_pred(m, names));
            let non = fields.filter(non_pred(m, names));
            if all_fields(c) && fields.len() > 0 && names_present(m, names, fields) && sel.len() > 0
                && non.len() > 0 && all_refs(m, non) && marginal_closed(m, sel, non) {
                Some((sel, non))
            } else {
                None
            }
        },
        None => None,
    }
}

/// Every field value is a node below `len`.
pub open spec fn values_below(fs: Seq<(Symbol, NodeId)>, len: nat) -> bool {
    forall|j: int| 0 <= j < fs.len() ==> (#[trigger] fs[j]).1.0 < len
}

/// The reference a reference node holds.
pub open spec fn ref_at(m: Module, id: NodeId) -> Ref {
    match m.at(id) {
        Node::Ref(r) => r,
        _ => Ref { ns: RefNs::SelfMod, name: Symbol(0) },
    }
}

/// `%field` entries for a list of fields.
pub open spec fn field_args(fs: Seq<(Symbol, NodeId)>) -> Seq<NamedArg> {
    fs.map_values(|f: (Symbol, NodeId)| NamedArg { kind: NamedKind::Field, name: f.0, value: f.1 })
}

/// Node `id` is `record(<fields as %field entries>)`.
pub open spec fn record_of(m: Module, id: NodeId, fs: Seq<(Symbol, NodeId)>) -> bool {
    is_builtin_named(m, id, "record"@) && match m.at(id) {
        Node::Call(c) => c.args@.len() == 0 && c.named@ == field_args(fs) && c.inputs is None,
        _ => false,
    }
}

/// Node `k` is `kernelof(record(<sel>), %specinputs(<non name, non ref>…))`.
pub open spec fn kernel_of(m: Module, k: NodeId, sel: Seq<(Symbol, NodeId)>, non: Seq<(Symbol, NodeId)>) -> bool {
    is_builtin_named(m, k, "kernelof"@) && match m.at(k) {
        Node::Call(c) => c.args@.len() == 1 && c.named@.len() == 0 && record_of(m, c.args@[0], sel)
            && match c.inputs {
            Some(Inputs::Spec(e)) => e@ == non.map_values(
                |f: (Symbol, NodeId)| (f.0, ref_at(m, f.1)),
            ),
            _ => false,
        },
        _ => false,
    }
}

/// Node `g` is `lawof(record(<non>))`.
pub open spec fn marginal_of(m: Module, g: NodeId, non: Seq<(Symbol, NodeId)>) -> bool {
    is_builtin_named(m, g, "lawof"@) && match m.at(g) {
        Node::Call(c) => c.args@.len() == 1 && c.named@.len() == 0 && c.inputs is None && record_of(
            m,
            c.args@[0],
            non,
        ),
        _ => false,
    }
}

/// Whether `name` is one of `selected`.
fn name_is_selected(m: &Module, name: Symbol, selected: &Vec<String>) -> (r: bool)
    requires
        m.wf(),
        name.0 < m.symbols@.len(),
    ensures
        r == is_selected(*m, strs_view(selected@), name),
{
    let text = m.resolve(name);
    let mut k: usize = 0;
    while k < selected.len()
        invariant
            k <= selected@.len(),
            text@ == m.name_of(name),
            forall|j: int| 0 <= j < k ==> (#[trigger] selected@[j])@ != text@,
        decreases selected@.len() - k,
    {
        if str_eq(selected[k].as_str(), text) {
            proof {
                assert(strs_view(selected@)[k as int] == text@);
                assert(strs_view(selected@).contains(text@));
            }
            return true;
        }
        k += 1;
    }
    proof {
        if strs_view(selected@).contains(text@) {
            let j = choose|j: int| 0 <= j < strs_view(selected@).len() && strs_view(selected@)[j] == text@;
            assert(selected@[j]@ == text@);
        }
    }
    false
}

/// Whether some field is named `want`.
fn has_field_named(m: &Module, fields: &Vec<(Symbol, NodeId)>, want: &str) -> (r: bool)
    requires
        m.wf(),
        forall|j: int| 0 <= j < fields@.len() ==> (#[trigger] fields@[j]).0.0 < m.symbols@.len(),
    ensures
        r == label_in(*m, fields@, want@),
{
    let mut j: usize = 0;
    while j < fields.len()
        invariant
            m.wf(),
            forall|i: int| 0 <= i < fields@.len() ==> (#[trigger] fields@[i]).0.0 < m.symbols@.len(),
            j <= fields@.len(),
            forall|i: int| 0 <= i < j ==> #[trigger] m.name_of(fields@[i].0) != want@,
        decreases fields@.len() - j,
    {
        if str_eq(m.resolve(fields[j].0), want) {
            return true;
        }
        j += 1;
    }
    false
}


/// What [`crate::shape::build_record`] promises, read as [`record_of`].
pub proof fn lemma_built_record(m: Module, id: NodeId, fs: Seq<(Symbol, NodeId)>)
    requires
        id.0 < m.nodes@.len(),
        is_builtin_named(m, id, "record"@),
        match m.at(id) {
            Node::Call(c) => c.args@.len() == 0 && c.inputs is None && c.named@.len() == fs.len()
                && forall|k: int|
                0 <= k < fs.len() ==> (#[trigger] c.named@[k]) == (NamedArg {
                    kind: NamedKind::Field,
                    name: fs[k].0,
                    value: fs[k].1,
                }),
            _ => false,
        },
    ensures
        record_of(m, id, fs),
{
    if let Node::Call(c) = m.at(id) {
        assert(c.named@ =~= field_args(fs));
    }
}

/// Growing the arena keeps an old record node's shape.
pub proof fn lemma_record_of_stable(m1: Module, m2: Module, id: NodeId, fs: Seq<(Symbol, NodeId)>)
    requires
        m1.wf(),
        m2.extends(&m1),
        id.0 < m1.nodes@.len(),
        record_of(m1, id, fs),
    ensures
        record_of(m2, id, fs),
{
    assert(m2.nodes@[id.0 as int] == m1.nodes@[id.0 as int]);
    assert(node_wf(m1.nodes@[id.0 as int], id.0 as int, m1.symbols@.len()));
}

/// The facts the split has established once the fields are partitioned.
spec fn partitioned(
    m: Module,
    names: Seq<Seq<char>>,
    measure: NodeId,
    rec: Call,
    fields: Seq<(Symbol, NodeId)>,
    sel: Seq<(Symbol, NodeId)>,
    non: Seq<(Symbol, NodeId)>,
) -> bool {
    &&& law_record(m, measure) == Some(rec)
    &&& fields == field_pairs(rec)
    &&& all_fields(rec)
    &&& fields.len() > 0
    &&& names_present(m, names, fields)
    &&& sel == fields.filter(sel_pred(m, names))
    &&& non == fields.filter(non_pred(m, names))
}

/// The `(kernel, marginal)` structural split of `measure` on the field names
/// `selected_names` (see [`split_plan`]): `kernel` is
/// `kernelof(record(<selected fields>), %specinputs(<non-selected name, ref>…))`
/// and `marginal` is `lawof(record(<non-selected fields>))`, both carrying the
/// fields' value nodes verbatim. `None` for every shape outside the explicit
/// `lawof(record(…))` case: a name naming no field, an empty side, a
/// non-selected value that is not a reference, or a non-selected field that
/// reaches a selected variate (a causally reversed selector).
pub fn split_law_record(m: &mut Module, selected_names: &Vec<String>, measure: NodeId) -> (r: Option<(NodeId, NodeId)>)
    requires
        old(m).wf(),
        measure.0 < old(m).nodes@.len(),
    ensures
        final(m).wf(),
        final(m).extends(old(m)),
        final(m).bindings@ == old(m).bindings@,
        r is None ==> *final(m) == *old(m),
        r is Some ==> final(m).nodes@.len() == old(m).nodes@.len() + 4,
        match r {
            None => split_plan(*old(m), strs_view(selected_names@), measure) is None,
            Some((k, g)) => match split_plan(*old(m), strs_view(selected_names@), measure) {
                Some((sel, non)) => {
                    &&& k.0 < final(m).nodes@.len()
                    &&& g.0 < final(m).nodes@.len()
                    &&& kernel_of(*final(m), k, sel, non)
                    &&& marginal_of(*final(m), g, non)
                    &&& values_below(non, old(m).nodes@.len())
                },
                None => false,
            },
        },
{
    let ghost names = strs_view(selected_names@);
    let ghost m0 = *m;
    let (mr, _) = crate::shape::resolve_ref_one(m, measure);
    let lawof = match crate::shape::expect_builtin_call(m, mr, "lawof") {
        Some(c) => c,
        None => return None,
    };
    if lawof.args.len() != 1 {
        return None;
    }
    let record_arg = lawof.args[0];
    proof {
        assert(node_wf(m.nodes@[mr.0 as int], mr.0 as int, m.symbols@.len()));
        assert(node_children(m.at(mr))[0] == record_arg);
    }
    let (rr, _) = crate::shape::resolve_ref_one(m, record_arg);
    let record = match crate::shape::expect_builtin_call(m, rr, "record") {
        Some(c) => c,
        None => return None,
    };
    if record.args.len() != 0 {
        return None;
    }
    let ghost rec = *record;
    proof {
        assert(law_record(m0, measure) == Some(rec));
        assert(node_wf(m.nodes@[rr.0 as int], rr.0 as int, m.symbols@.len()));
    }
    let mut fields: Vec<(Symbol, NodeId)> = Vec::new();
    let mut i: usize = 0;
    while i < record.named.len()
        invariant
            m.wf(),
            *m == m0,
            rr.0 < m.nodes@.len(),
            m.at(rr) == Node::Call(*record),
            node_wf(m.at(rr), rr.0 as int, m.symbols@.len()),
            record.args@.len() == 0,
            law_record(m0, measure) == Some(*record),
            i <= record.named@.len(),
            fields@ == field_pairs(*record).subrange(0, i as int),
            forall|j: int| 0 <= j < i ==> (#[trigger] record.named@[j]).kind == NamedKind::Field,
        decreases record.named@.len() - i,
    {
        let na = record.named[i];
        if na.kind != NamedKind::Field {
            proof {
                assert(!all_fields(*record));
            }
            return None;
        }
        fields.push((na.name, na.value));
        i += 1;
        proof {
            assert(fields@ =~= field_pairs(*record).subrange(0, i as int));
        }
    }
    proof {
        assert(fields@ =~= field_pairs(rec));
        assert(all_fields(rec));
        assert forall|j: int| 0 <= j < fields@.len() implies (#[trigger] fields@[j]).0.0 < m.symbols@.len()
            && fields@[j].1.0 < m.nodes@.len() by {
            assert(fields@[j] == (rec.named@[j].name, rec.named@[j].value));
            assert(node_children(m.at(rr))[j] == rec.named@[j].value);
        }
    }
    if fields.len() == 0 {
        return None;
    }
    // Every selected name must name a field.
    let mut k: usize = 0;
    while k < selected_names.len()
        invariant
            m.wf(),
            *m == m0,
            names == strs_view(selected_names@),
            law_record(m0, measure) == Some(rec),
            fields@ == field_pairs(rec),
            all_fields(rec),
            fields@.len() > 0,
            forall|j: int| 0 <= j < fields@.len() ==> (#[trigger] fields@[j]).0.0 < m.symbols@.len(),
            k <= selected_names@.len(),
            forall|j: int| 0 <= j < k ==> #[trigger] label_in(m0, fields@, names[j]),
        decreases selected_names@.len() - k,
    {
        if !has_field_named(m, &fields, selected_names[k].as_str()) {
            proof {
                assert(names[k as int] == selected_names@[k as int]@);
                assert(!label_in(m0, fields@, names[k as int]));
                assert(!names_present(m0, names, fields@));
            }
            return None;
        }
        proof {
            assert(names[k as int] == selected_names@[k as int]@);
        }
        k += 1;
    }
    proof {
        assert(names.len() == selected_names@.len());
        assert(names_present(m0, names, fields@));
    }
    // Partition the fields, keeping record order within each side.
    let mut sel: Vec<(Symbol, NodeId)> = Vec::new();
    let mut non: Vec<(Symbol, NodeId)> = Vec::new();
    let mut j: usize = 0;
    while j < fields.len()
        invariant
            m.wf(),
            *m == m0,
            names == strs_view(selected_names@),
            law_record(m0, measure) == Some(rec),
            fields@ == field_pairs(rec),
            all_fields(rec),
            fields@.len() > 0,
            names_present(m0, names, fields@),
            forall|i: int| 0 <= i < fields@.len() ==> (#[trigger] fields@[i]).0.0 < m.symbols@.len(),
            j <= fields@.len(),
            sel@ == fields@.subrange(0, j as int).filter(sel_pred(m0, names)),
            non@ == fields@.subrange(0, j as int).filter(non_pred(m0, names)),
        decreases fields@.len() - j,
    {
        let f = fields[j];
        proof {
            assert(fields@.subrange(0, j + 1) =~= fields@.subrange(0, j as int).push(f));
            fields@.subrange(0, j as int).lemma_filter_push(f, sel_pred(m0, names));
            fields@.subrange(0, j as int).lemma_filter_push(f, non_pred(m0, names));
        }
        if name_is_selected(m, f.0, selected_names) {
            sel.push(f);
        } else {
            non.push(f);
        }
        j += 1;
    }
    proof {
        assert(fields@.subrange(0, fields@.len() as int) =~= fields@);
        assert(partitioned(m0, names, measure, rec, fields@, sel@, non@));
    }
    if sel.len() == 0 || non.len() == 0 {
        return None;
    }
    proof {
        assert forall|i: int| 0 <= i < sel@.len() implies (#[trigger] sel@[i]).0.0 < m.symbols@.len()
            && sel@[i].1.0 < m.nodes@.len() by {
            assert(sel@.contains(sel@[i]));
            fields@.lemma_filter_contains_rev(sel_pred(m0, names), sel@[i]);
            let q = choose|q: int| 0 <= q < fields@.len() && fields@[q] == sel@[i];
        }
        assert forall|i: int| 0 <= i < non@.len() implies (#[trigger] non@[i]).0.0 < m.symbols@.len()
            && non@[i].1.0 < m.nodes@.len() by {
            assert(non@.contains(non@[i]));
            fields@.lemma_filter_contains_rev(non_pred(m0, names), non@[i]);
            let q = choose|q: int| 0 <= q < fields@.len() && fields@[q] == non@[i];
        }
    }
    // The kernel's boundary inputs: each non-selected field by its reference.
    let mut spec_inputs: Vec<(Symbol, Ref)> = Vec::new();
    let mut j: usize = 0;
    while j < non.len()
        invariant
            m.wf(),
            *m == m0,
            partitioned(m0, names, measure, rec, fields@, sel@, non@),
            names == strs_view(selected_names@),
            sel@.len() > 0,
            non@.len() > 0,
            forall|i: int| 0 <= i < non@.len() ==> (#[trigger] non@[i]).0.0 < m.symbols@.len() && non@[i].1.0 < m.nodes@.len(),
            j <= non@.len(),
            spec_inputs@ == non@.subrange(0, j as int).map_values(|f: (Symbol, NodeId)| (f.0, ref_at(m0, f.1))),
            forall|i: int| 0 <= i < j ==> #[trigger] m.at(non@[i].1) is Ref,
        decreases non@.len() - j,
    {
        let (name, value) = non[j];
        match m.node(value) {
            Node::Ref(r) => {
                spec_inputs.push((name, *r));
            },
            _ => {
                proof {
                    assert(!all_refs(m0, non@)) by {
                        assert(!(m.at(non@[j as int].1) is Ref));
                    }
                    assert(split_plan(m0, names, measure) is None);
                }
                return None;
            },
        }
        j += 1;
        proof {
            assert(spec_inputs@ =~= non@.subrange(0, j as int).map_values(|f: (Symbol, NodeId)| (f.0, ref_at(m0, f.1))));
        }
    }
    proof {
        assert(non@.subrange(0, non@.len() as int) =~= non@);
        assert(all_refs(m0, non@));
    }
    // The closed-marginal guard: no non-selected field may reach a variate
    // that a selected field names.
    let mut sel_vals: Vec<NodeId> = Vec::new();
    let mut j: usize = 0;
    while j < sel.len()
        invariant
            j <= sel@.len(),
            sel_vals@ == values(sel@.subrange(0, j as int)),
        decreases sel@.len() - j,
    {
        sel_vals.push(sel[j].1);
        j += 1;
        proof {
            assert(sel_vals@ =~= values(sel@.subrange(0, j as int)));
        }
    }
    let mut non_vals: Vec<NodeId> = Vec::new();
    let mut j: usize = 0;
    while j < non.len()
        invariant
            j <= non@.len(),
            non_vals@ == values(non@.subrange(0, j as int)),
        decreases non@.len() - j,
    {
        non_vals.push(non[j].1);
        j += 1;
        proof {
            assert(non_vals@ =~= values(non@.subrange(0, j as int)));
        }
    }
    proof {
        assert(sel@.subrange(0, sel@.len() as int) =~= sel@);
        assert(non@.subrange(0, non@.len() as int) =~= non@);
        assert forall|i: int| 0 <= i < sel_vals@.len() implies (#[trigger] sel_vals@[i]).0 < m.nodes@.len() by {
            assert(sel_vals@[i] == sel@[i].1);
        }
        assert forall|i: int| 0 <= i < non_vals@.len() implies (#[trigger] non_vals@[i]).0 < m.nodes@.len() by {
            assert(non_vals@[i] == non@[i].1);
        }
    }
    let sel_marks = mark_all(m, &sel_vals);
    let mut reach_marks = mark_all(m, &non_vals);
    proof {
        assert forall|y: Symbol| y.0 < reach_marks@.len() && #[trigger] reach_marks@[y.0 as int] implies reachable(
            *m,
            non_vals@,
            y,
        ) by {
            assert(reaches(*m, non_vals@, y, 0));
        }
    }
    let ghost direct = reach_marks@;
    close_marks(m, &mut reach_marks, Ghost(non_vals@));
    let nsym = m.symbols.len();
    proof {
        assert(*m == m0);
        assert(forall|y: Symbol| y.0 < nsym ==> #[trigger] sel_marks@[y.0 as int] == refers_any(m0, sel_vals@, y));
        assert(forall|y: Symbol| y.0 < nsym && #[trigger] reach_marks@[y.0 as int] ==> reachable(m0, non_vals@, y));
        assert forall|y: Symbol| y.0 < nsym && refers_any(m0, non_vals@, y) implies #[trigger] reach_marks@[y.0 as int] by {
            assert(direct[y.0 as int]);
        }
    }
    let mut i: usize = 0;
    while i < nsym
        invariant
            *m == m0,
            m0 == *old(m),
            m.wf(),
            names == strs_view(selected_names@),
            partitioned(m0, names, measure, rec, fields@, sel@, non@),
            sel@.len() > 0,
            non@.len() > 0,
            all_refs(m0, non@),
            forall|y: Symbol| y.0 < nsym && refers_any(m0, non_vals@, y) ==> #[trigger] reach_marks@[y.0 as int],
            marks_closed(m0, reach_marks@),
            sel_vals@ == values(sel@),
            non_vals@ == values(non@),
            nsym == sel_marks@.len(),
            nsym == reach_marks@.len(),
            forall|y: Symbol| y.0 < nsym ==> #[trigger] sel_marks@[y.0 as int] == refers_any(m0, sel_vals@, y),
            forall|y: Symbol| y.0 < nsym && #[trigger] reach_marks@[y.0 as int] ==> reachable(m0, non_vals@, y),
            i <= nsym,
            forall|y: Symbol| y.0 < i ==> !(sel_marks@[y.0 as int] && #[trigger] reach_marks@[y.0 as int]),
        decreases nsym - i,
    {
        if sel_marks[i] && reach_marks[i] {
            proof {
                let y = Symbol(i);
                assert(y.0 == i);
                assert(sel_marks@[y.0 as int]);
                assert(reach_marks@[y.0 as int]);
                assert(refers_any(m0, sel_vals@, y));
                assert(reachable(m0, non_vals@, y));
                assert(!marginal_closed(m0, sel@, non@));
            }
            return None;
        }
        i += 1;
    }
    proof {
        assert forall|y: Symbol| !(#[trigger] reachable(m0, values(non@), y) && refers_any(m0, values(sel@), y)) by {
            if reachable(m0, non_vals@, y) && refers_any(m0, sel_vals@, y) {
                let k = choose|k: int| 0 <= k < sel_vals@.len() && #[trigger] subtree_refers(m0, sel_vals@[k], y);
                lemma_refers_interned(m0, sel_vals@[k], y);
                let n = choose|n: nat| #[trigger] reaches(m0, non_vals@, y, n);
                lemma_closed_covers(m0, non_vals@, reach_marks@, y, n);
                assert(sel_marks@[y.0 as int]);
            }
        }
        assert(split_plan(m0, names, measure) == Some((sel@, non@)));
    }
    // Build the kernel: kernelof(record(<selected>), %specinputs(<non-selected>)).
    let body = crate::shape::build_record(m, sel.as_slice());
    let ghost m1 = *m;
    let kernelof_sym = m.intern("kernelof");
    let mut kargs: Vec<NodeId> = Vec::new();
    kargs.push(body);
    let kcall = Call {
        head: CallHead::Builtin(kernelof_sym),
        args: kargs,
        named: Vec::new(),
        inputs: Some(Inputs::Spec(spec_inputs)),
    };
    proof {
        assert(crate::ir::call_children(kcall) =~= seq![body]);
        assert forall|j: int| 0 <= j < spec_inputs@.len() implies (#[trigger] spec_inputs@[j]).0.0 < m.symbols@.len()
            && ref_ok(spec_inputs@[j].1, m.symbols@.len()) by {
            let v = non@[j].1;
            assert(spec_inputs@[j] == (non@[j].0, ref_at(m0, v)));
            assert(node_wf(m0.nodes@[v.0 as int], v.0 as int, m0.symbols@.len()));
        }
        assert(node_wf(Node::Call(kcall), m.nodes@.len() as int, m.symbols@.len()));
    }
    let kernel = m.add_node(Node::Call(kcall));
    let ghost m2 = *m;
    // Build the marginal: lawof(record(<non-selected>)).
    let mbody = crate::shape::build_record(m, non.as_slice());
    let ghost m3 = *m;
    proof {
        lemma_built_record(m3, mbody, non@);
    }
    let mut margs: Vec<NodeId> = Vec::new();
    margs.push(mbody);
    let marginal = crate::shape::build_call(m, "lawof", margs.as_slice());
    proof {
        lemma_record_of_stable(m3, *m, mbody, non@);
        crate::term::lemma_extends_trans(m0, m1, *m);
        crate::term::lemma_extends_trans(m1, m2, *m);
        lemma_built_record(m1, body, sel@);
        lemma_record_of_stable(m1, *m, body, sel@);
        assert(m.nodes@[kernel.0 as int] == m2.nodes@[kernel.0 as int]);
        assert(m.at(kernel) == Node::Call(kcall));
        assert(m.name_of(kernelof_sym) == "kernelof"@);
        assert forall|j: int| 0 <= j < non@.len() implies ref_at(*m, (#[trigger] non@[j]).1) == ref_at(m0, non@[j].1) by {
            assert(m.nodes@[non@[j].1.0 as int] == m0.nodes@[non@[j].1.0 as int]);
        }
        assert(non@.map_values(|f: (Symbol, NodeId)| (f.0, ref_at(*m, f.1))) =~= non@.map_values(
            |f: (Symbol, NodeId)| (f.0, ref_at(m0, f.1)),
        ));
        assert(kernel_of(*m, kernel, sel@, non@));
        assert(marginal_of(*m, marginal, non@));
        assert(values_below(non@, m0.nodes@.len()));
    }
    Some((kernel, marginal))
}


/// `disintegrate(selector, M)` with two positional arguments: the split of
/// `M` on the fields the selector picks.
pub open spec fn disintegrate_plan(m: Module, node: NodeId) -> Option<
    (Seq<(Symbol, NodeId)>, Seq<(Symbol, NodeId)>),
> {
    if is_builtin_named(m, node, "disintegrate"@) {
        match m.at(node) {
            Node::Call(c) => if c.args@.len() == 2 {
                match selector_spec(m, c.args@[0]) {
                    Some(names) => split_plan(m, names, c.args@[1]),
                    None => None,
                }
            } else {
                None
            },
            _ => None,
        }
    } else {
        None
    }
}

/// Split `disint_node = disintegrate(selector, lawof(record(field…)))` into
/// its `(kernel, marginal)` pair (see [`split_law_record`]).
pub fn split_disintegrate(m: &mut Module, disint_node: NodeId) -> (r: Option<(NodeId, NodeId)>)
    requires
        old(m).wf(),
        disint_node.0 < old(m).nodes@.len(),
    ensures
        final(m).wf(),
        final(m).extends(old(m)),
        final(m).bindings@ == old(m).bindings@,
        r is None ==> *final(m) == *old(m),
        r is Some ==> final(m).nodes@.len() == old(m).nodes@.len() + 4,
        match r {
            None => disintegrate_plan(*old(m), disint_node) is None,
            Some((k, g)) => match disintegrate_plan(*old(m), disint_node) {
                Some((sel, non)) => {
                    &&& k.0 < final(m).nodes@.len()
                    &&& g.0 < final(m).nodes@.len()
                    &&& kernel_of(*final(m), k, sel, non)
                    &&& marginal_of(*final(m), g, non)
                    &&& values_below(non, old(m).nodes@.len())
                },
                None => false,
            },
        },
{
    let (selector, measure) = {
        let c = match crate::shape::expect_builtin_call(m, disint_node, "disintegrate") {
            Some(c) => c,
            None => return None,
        };
        if c.args.len() != 2 {
            return None;
        }
        proof {
            assert(node_wf(m.nodes@[disint_node.0 as int], disint_node.0 as int, m.symbols@.len()));
            assert(node_children(m.at(disint_node))[0] == c.args@[0]);
            assert(node_children(m.at(disint_node))[1] == c.args@[1]);
        }
        (c.args[0], c.args[1])
    };
    let names = match selector_names(m, selector) {
        Some(v) => v,
        None => return None,
    };
    split_law_record(m, &names, measure)
}

/// The measure and the observed field names of `restrict(M, x)` — `x` an
/// explicit `record(field…)` (resolved one `(%ref self …)` hop), or the
/// keyword splat `restrict(M, a = …, b = …)`.
pub open spec fn restrict_names(m: Module, node: NodeId) -> Option<(NodeId, Seq<Seq<char>>)> {
    if is_builtin_named(m, node, "restrict"@) {
        match m.at(node) {
            Node::Call(c) => if c.args@.len() == 2 && c.named@.len() == 0 {
                match record_names_spec(m, resolve_one_spec(m, c.args@[1]).0) {
                    Some(ns) => Some((c.args@[0], ns)),
                    None => None,
                }
            } else if c.args@.len() == 1 && c.named@.len() > 0 {
                Some((c.args@[0], c.named@.map_values(|na: NamedArg| m.name_of(na.name))))
            } else {
                None
            },
            _ => None,
        }
    } else {
        None
    }
}

/// The split a `restrict(M, x)` desugars through: `M` split on `x`'s names.
pub open spec fn restrict_plan(m: Module, node: NodeId) -> Option<
    (Seq<(Symbol, NodeId)>, Seq<(Symbol, NodeId)>),
> {
    match restrict_names(m, node) {
        Some((measure, names)) => split_plan(m, names, measure),
        None => None,
    }
}

/// Restricting `M` to an observed record splits `M` exactly as
/// [`split_law_record`] does on the record's field names: the restriction has
/// a plan iff that split has one, and then both keep the same selected and
/// non-selected fields, so the kernel and marginal a `restrict` rewrite builds
/// are those the split builds.
pub proof fn law_restrict_splits_as_disintegration(m: Module, node: NodeId, selected: Seq<String>)
    requires
        m.wf(),
        node.0 < m.nodes@.len(),
        restrict_names(m, node) matches Some((measure, names)) && strs_view(selected) == names,
    ensures
        restrict_plan(m, node) == split_plan(m, strs_view(selected), restrict_names(m, node).unwrap().0),
{
}

/// The observed value `x` of a `restrict` call as the desugaring passes it
/// on: the explicit argument, or a `record` of the keyword splat.
pub open spec fn observed_of(m0: Module, node: NodeId, m: Module, x: NodeId) -> bool {
    match m0.at(node) {
        Node::Call(c) => if c.args@.len() == 2 {
            x == c.args@[1]
        } else {
            record_of(m, x, c.named@.map_values(|na: NamedArg| (na.name, na.value)))
        },
        _ => false,
    }
}

/// Node `id` is the plain built-in call `name(args…)`.
pub open spec fn plain_call(m: Module, id: NodeId, name: Seq<char>, args: Seq<NodeId>) -> bool {
    is_builtin_named(m, id, name) && match m.at(id) {
        Node::Call(c) => c.args@ == args && c.named@.len() == 0 && c.inputs is None,
        _ => false,
    }
}

/// Desugar `restrict(M, x)` into `bayesupdate(likelihoodof(kernel, x),
/// marginal)`, where `(kernel, marginal)` is the structural split of `M` on
/// the field names of the observed record `x` (see [`restrict_plan`]).
/// `None` outside the explicit case: a call of another shape (a stray named
/// entry beside two positionals), an `x` that is not a field record, or a
/// split that does not apply.
pub fn rewrite_restrict(m: &mut Module, restrict_node: NodeId) -> (r: Option<NodeId>)
    requires
        old(m).wf(),
        restrict_node.0 < old(m).nodes@.len(),
    ensures
        final(m).wf(),
        final(m).extends(old(m)),
        final(m).bindings@ == old(m).bindings@,
        r is None ==> *final(m) == *old(m),
        match r {
            None => restrict_plan(*old(m), restrict_node) is None,
            Some(p) => match restrict_plan(*old(m), restrict_node) {
                Some((sel, non)) => values_below(non, old(m).nodes@.len()) && exists|
                    l: NodeId,
                    k: NodeId,
                    g: NodeId,
                    x: NodeId,
                |
                    {
                        &&& plain_call(*final(m), p, "bayesupdate"@, seq![l, g])
                        &&& plain_call(*final(m), l, "likelihoodof"@, seq![k, x])
                        &&& kernel_of(*final(m), k, sel, non)
                        &&& marginal_of(*final(m), g, non)
                        &&& observed_of(*old(m), restrict_node, *final(m), x)
                    },
                None => false,
            },
        },
{
    let ghost m0 = *m;
    let c = match crate::shape::expect_builtin_call(m, restrict_node, "restrict") {
        Some(c) => c,
        None => return None,
    };
    proof {
        assert(node_wf(m.nodes@[restrict_node.0 as int], restrict_node.0 as int, m.symbols@.len()));
        assert forall|j: int| 0 <= j < c.args@.len() implies (#[trigger] c.args@[j]).0 < m.nodes@.len() by {
            assert(node_children(m.at(restrict_node))[j] == c.args@[j]);
        }
        assert forall|j: int| 0 <= j < c.named@.len() implies (#[trigger] c.named@[j]).value.0 < m.nodes@.len()
            && c.named@[j].name.0 < m.symbols@.len() by {
            assert(node_children(m.at(restrict_node))[c.args@.len() + j] == c.named@[j].value);
        }
    }
    let explicit = c.args.len() == 2 && c.named.len() == 0;
    let splat = c.args.len() == 1 && c.named.len() != 0;
    if !explicit && !splat {
        return None;
    }
    let measure = c.args[0];
    let explicit_x = if explicit {
        c.args[1]
    } else {
        measure
    };
    let ghost cc = *c;
    // The observed field names, and for the splat form its `(name, value)`
    // pairs, which become the fields of the observed record.
    let mut pairs: Vec<(Symbol, NodeId)> = Vec::new();
    let names = if explicit {
        let (x_resolved, _) = crate::shape::resolve_ref_one(m, c.args[1]);
        match record_field_names(m, x_resolved) {
            Some(v) => v,
            None => return None,
        }
    } else {
        let mut v: Vec<String> = Vec::new();
        let mut i: usize = 0;
        while i < c.named.len()
            invariant
                m.wf(),
                *m == m0,
                forall|j: int| 0 <= j < c.named@.len() ==> (#[trigger] c.named@[j]).value.0 < m.nodes@.len()
                    && c.named@[j].name.0 < m.symbols@.len(),
                i <= c.named@.len(),
                v@.len() == i,
                pairs@ == c.named@.subrange(0, i as int).map_values(|na: NamedArg| (na.name, na.value)),
                forall|j: int| 0 <= j < i ==> (#[trigger] v@[j])@ == m.name_of(c.named@[j].name),
            decreases c.named@.len() - i,
        {
            broadcast use vstd::string::group_string_axioms;

            let na = c.named[i];
            v.push(m.resolve(na.name).to_string());
            pairs.push((na.name, na.value));
            i += 1;
            proof {
                assert(pairs@ =~= c.named@.subrange(0, i as int).map_values(|na: NamedArg| (na.name, na.value)));
            }
        }
        proof {
            assert(strs_view(v@) =~= c.named@.map_values(|na: NamedArg| m.name_of(na.name)));
            assert(c.named@.subrange(0, c.named@.len() as int) =~= c.named@);
        }
        v
    };
    proof {
        assert(restrict_names(m0, restrict_node) == Some((measure, strs_view(names@))));
    }
    let (kernel, marginal) = match split_law_record(m, &names, measure) {
        Some(pair) => pair,
        None => return None,
    };
    let ghost m1 = *m;
    let x = if explicit {
        explicit_x
    } else {
        proof {
            assert forall|j: int| 0 <= j < pairs@.len() implies (#[trigger] pairs@[j]).1.0 < m.nodes@.len()
                && pairs@[j].0.0 < m.symbols@.len() by {
                assert(pairs@[j] == (cc.named@[j].name, cc.named@[j].value));
                assert(m.nodes@.len() >= m0.nodes@.len());
            }
        }
        let rec = crate::shape::build_record(m, pairs.as_slice());
        proof {
            lemma_built_record(*m, rec, pairs@);
        }
        rec
    };
    let ghost m2 = *m;
    let mut largs: Vec<NodeId> = Vec::new();
    largs.push(kernel);
    largs.push(x);
    let likelihood = crate::shape::build_call(m, "likelihoodof", largs.as_slice());
    let ghost m3 = *m;
    proof {
        assert(largs@ =~= seq![kernel, x]);
        assert(plain_call(m3, likelihood, "likelihoodof"@, seq![kernel, x]));
    }
    let mut pargs: Vec<NodeId> = Vec::new();
    pargs.push(likelihood);
    pargs.push(marginal);
    let posterior = crate::shape::build_call(m, "bayesupdate", pargs.as_slice());
    proof {
        crate::term::lemma_extends_trans(m0, m1, m2);
        crate::term::lemma_extends_trans(m1, m2, *m);
        crate::term::lemma_extends_trans(m0, m2, *m);
        let (sel, non) = restrict_plan(m0, restrict_node).unwrap();
        lemma_kernel_of_stable(m1, *m, kernel, sel, non);
        lemma_marginal_of_stable(m1, *m, marginal, non);
        if !explicit {
            lemma_record_of_stable(m2, *m, x, pairs@);
            assert(pairs@ =~= cc.named@.map_values(|na: NamedArg| (na.name, na.value)));
        }
        assert(observed_of(m0, restrict_node, *m, x));
        assert(pargs@ =~= seq![likelihood, marginal]);
        lemma_plain_call_stable(m3, *m, likelihood, "likelihoodof"@, seq![kernel, x]);
        assert(plain_call(*m, posterior, "bayesupdate"@, seq![likelihood, marginal]));
    }
    Some(posterior)
}

/// Growing the arena keeps an old plain call.
pub proof fn lemma_plain_call_stable(m1: Module, m2: Module, id: NodeId, name: Seq<char>, args: Seq<NodeId>)
    requires
        m1.wf(),
        m2.extends(&m1),
        id.0 < m1.nodes@.len(),
        plain_call(m1, id, name, args),
    ensures
        plain_call(m2, id, name, args),
{
    assert(m2.nodes@[id.0 as int] == m1.nodes@[id.0 as int]);
    assert(node_wf(m1.nodes@[id.0 as int], id.0 as int, m1.symbols@.len()));
}

/// Growing the arena keeps an old kernel node's shape.
pub proof fn lemma_kernel_of_stable(
    m1: Module,
    m2: Module,
    k: NodeId,
    sel: Seq<(Symbol, NodeId)>,
    non: Seq<(Symbol, NodeId)>,
)
    requires
        m1.wf(),
        m2.extends(&m1),
        k.0 < m1.nodes@.len(),
        kernel_of(m1, k, sel, non),
        values_below(non, m1.nodes@.len()),
    ensures
        kernel_of(m2, k, sel, non),
{
    assert(m2.nodes@[k.0 as int] == m1.nodes@[k.0 as int]);
    assert(node_wf(m1.nodes@[k.0 as int], k.0 as int, m1.symbols@.len()));
    if let Node::Call(c) = m1.at(k) {
        assert(node_children(m1.at(k))[0] == c.args@[0]);
        lemma_record_of_stable(m1, m2, c.args@[0], sel);
        assert forall|j: int| 0 <= j < non.len() implies ref_at(m2, (#[trigger] non[j]).1) == ref_at(m1, non[j].1) by {
            if non[j].1.0 < m1.nodes@.len() {
                assert(m2.nodes@[non[j].1.0 as int] == m1.nodes@[non[j].1.0 as int]);
            }
        }
        assert(non.map_values(|f: (Symbol, NodeId)| (f.0, ref_at(m2, f.1))) =~= non.map_values(
            |f: (Symbol, NodeId)| (f.0, ref_at(m1, f.1)),
        ));
    }
}

/// Growing the arena keeps an old marginal node's shape.
pub proof fn lemma_marginal_of_stable(m1: Module, m2: Module, g: NodeId, non: Seq<(Symbol, NodeId)>)
    requires
        m1.wf(),
        m2.extends(&m1),
        g.0 < m1.nodes@.len(),
        marginal_of(m1, g, non),
    ensures
        marginal_of(m2, g, non),
{
    assert(m2.nodes@[g.0 as int] == m1.nodes@[g.0 as int]);
    assert(node_wf(m1.nodes@[g.0 as int], g.0 as int, m1.symbols@.len()));
    if let Node::Call(c) = m1.at(g) {
        assert(node_children(m1.at(g))[0] == c.args@[0]);
        lemma_record_of_stable(m1, m2, c.args@[0], non);
    }
}

} // verus!
