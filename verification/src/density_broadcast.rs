//! Independent observations share one density body: the body is lowered once
//! at a fresh cell point, closed over its free references as explicit
//! arguments, and broadcast over the observations and summed.

use vstd::prelude::*;
use vstd::string::*;
use crate::ir::{copy_type, node_children, node_wf, ref_ok, type_view, BindingId, Call, CallHead, Inputs, Module, NamedArg, NamedKind, Node, NodeId, Phase, Ref, RefNs, Scalar, Symbol, Type, TypeV};
use crate::refuse::RefuseError;
use crate::shape::{build_call, chain_spec, construct_name, is_builtin_named, resolve_one_spec, resolve_ref_chain};
use crate::term::{inputs_view, rewrite, term};
use crate::tree::{leaf_map_ok, map_tree};
use crate::disintegrate::plain_call;
use crate::text::{decimal, decimal_string};

verus! {

// ---------------------------------------------------------------------------
// Free references of a density body
// ---------------------------------------------------------------------------

/// The reference node `x` holds when it names a binding or a local
/// placeholder (a capture candidate).
pub open spec fn capture_ref(m: Module, x: NodeId) -> Option<Ref> {
    if x.0 < m.nodes@.len() {
        match m.at(x) {
            Node::Ref(r) => match r.ns {
                RefNs::Local | RefNs::SelfMod => Some(r),
                _ => None,
            },
            _ => None,
        }
    } else {
        None
    }
}

/// The nodes of the capture region of `id` in visiting order: the node,
/// then the regions of its children from the last to the first; a
/// reification (a call with boundary inputs) is visited but not entered.
pub open spec fn region(m: Module, id: NodeId) -> Seq<NodeId>
    decreases id.0, 1nat, 0nat,
{
    if id.0 >= m.nodes@.len() {
        seq![]
    } else {
        match m.at(id) {
            Node::Call(c) => if c.inputs is Some {
                seq![id]
            } else {
                seq![id] + kids_region(m, id, node_children(m.at(id)).len())
            },
            _ => seq![id],
        }
    }
}

/// The regions of children `n-1` down to `0` of `id`.
pub open spec fn kids_region(m: Module, id: NodeId, n: nat) -> Seq<NodeId>
    decreases id.0, 0nat, n,
{
    if n == 0 || id.0 >= m.nodes@.len() {
        seq![]
    } else {
        let ch = node_children(m.at(id));
        (if n <= ch.len() && ch[n - 1].0 < id.0 {
            region(m, ch[n - 1])
        } else {
            seq![]
        }) + kids_region(m, id, (n - 1) as nat)
    }
}

/// `acc` already holds reference `r`.
pub open spec fn holds_ref(acc: Seq<(Ref, NodeId)>, r: Ref) -> bool {
    exists|k: int| 0 <= k < acc.len() && (#[trigger] acc[k]).0 == r
}

/// Extend `acc` by the first occurrence of each capture reference along
/// `s` that `acc` does not hold yet, with the node where it occurs.
pub open spec fn collect(m: Module, acc: Seq<(Ref, NodeId)>, s: Seq<NodeId>) -> Seq<(Ref, NodeId)>
    decreases s.len(),
{
    if s.len() == 0 {
        acc
    } else {
        let next = match capture_ref(m, s[0]) {
            Some(r) => if holds_ref(acc, r) {
                acc
            } else {
                acc.push((r, s[0]))
            },
            None => acc,
        };
        collect(m, next, s.drop_first())
    }
}

/// Every capture reference along `s` is held by `acc`.
pub open spec fn covered(m: Module, acc: Seq<(Ref, NodeId)>, s: Seq<NodeId>) -> bool {
    forall|k: int| 0 <= k < s.len() ==> (#[trigger] capture_ref(m, s[k]) matches Some(r) ==> holds_ref(acc, r))
}

proof fn lemma_collect_append(m: Module, acc: Seq<(Ref, NodeId)>, s: Seq<NodeId>, t: Seq<NodeId>)
    ensures
        collect(m, acc, s + t) == collect(m, collect(m, acc, s), t),
    decreases s.len(),
{
    if s.len() > 0 {
        let next = match capture_ref(m, s[0]) {
            Some(r) => if holds_ref(acc, r) {
                acc
            } else {
                acc.push((r, s[0]))
            },
            None => acc,
        };
        assert((s + t).drop_first() =~= s.drop_first() + t);
        assert((s + t)[0] == s[0]);
        lemma_collect_append(m, next, s.drop_first(), t);
    } else {
        assert(s + t =~= t);
    }
}

/// Collecting keeps what `acc` held and holds everything it passed.
proof fn lemma_collect_grows(m: Module, acc: Seq<(Ref, NodeId)>, s: Seq<NodeId>)
    ensures
        collect(m, acc, s).len() >= acc.len(),
        collect(m, acc, s).subrange(0, acc.len() as int) == acc,
        covered(m, collect(m, acc, s), s),
    decreases s.len(),
{
    if s.len() > 0 {
        let next = match capture_ref(m, s[0]) {
            Some(r) => if holds_ref(acc, r) {
                acc
            } else {
                acc.push((r, s[0]))
            },
            None => acc,
        };
        lemma_collect_grows(m, next, s.drop_first());
        let out = collect(m, next, s.drop_first());
        assert(out.subrange(0, acc.len() as int) =~= next.subrange(0, acc.len() as int));
        assert(next.subrange(0, acc.len() as int) =~= acc);
        if let Some(r) = capture_ref(m, s[0]) {
            assert(holds_ref(next, r)) by {
                if !holds_ref(acc, r) {
                    assert(next[acc.len() as int].0 == r);
                }
            }
            let k = choose|k: int| 0 <= k < next.len() && (#[trigger] next[k]).0 == r;
            assert(out[k] == next[k]);
        }
        assert forall|k: int| 0 <= k < s.len() implies (#[trigger] capture_ref(m, s[k]) matches Some(r) ==> holds_ref(out, r)) by {
            if k > 0 {
                assert(s[k] == s.drop_first()[k - 1]);
            }
        }
    } else {
        assert(acc.subrange(0, acc.len() as int) =~= acc);
    }
}

/// Collecting what is already held changes nothing.
proof fn lemma_collect_covered(m: Module, acc: Seq<(Ref, NodeId)>, s: Seq<NodeId>)
    requires
        covered(m, acc, s),
    ensures
        collect(m, acc, s) == acc,
    decreases s.len(),
{
    if s.len() > 0 {
        assert(capture_ref(m, s[0]) matches Some(r) ==> holds_ref(acc, r));
        assert forall|k: int| 0 <= k < s.drop_first().len() implies (#[trigger] capture_ref(m, s.drop_first()[k]) matches Some(r) ==> holds_ref(acc, r)) by {
            assert(s.drop_first()[k] == s[k + 1]);
        }
        lemma_collect_covered(m, acc, s.drop_first());
    }
}

/// A held reference stays held when more is held.
proof fn lemma_covered_mono(m: Module, a: Seq<(Ref, NodeId)>, b: Seq<(Ref, NodeId)>, s: Seq<NodeId>)
    requires
        covered(m, a, s),
        b.len() >= a.len(),
        b.subrange(0, a.len() as int) == a,
    ensures
        covered(m, b, s),
{
    assert forall|k: int| 0 <= k < s.len() implies (#[trigger] capture_ref(m, s[k]) matches Some(r) ==> holds_ref(b, r)) by {
        if let Some(r) = capture_ref(m, s[k]) {
            let j = choose|j: int| 0 <= j < a.len() && (#[trigger] a[j]).0 == r;
            assert(b[j] == b.subrange(0, a.len() as int)[j]);
        }
    }
}

/// Whether `acc` already holds `r`.
fn holds(acc: &Vec<(Ref, NodeId)>, r: Ref) -> (b: bool)
    ensures
        b == holds_ref(acc@, r),
{
    let mut k: usize = 0;
    while k < acc.len()
        invariant
            k <= acc@.len(),
            forall|j: int| 0 <= j < k ==> (#[trigger] acc@[j]).0 != r,
        decreases acc@.len() - k,
    {
        if acc[k].0 == r {
            return true;
        }
        k += 1;
    }
    false
}

/// The capture walk: `seen` marks the nodes whose region `result` already
/// covers.
fn capture_walk(m: &Module, id: NodeId, seen: &mut Vec<bool>, result: &mut Vec<(Ref, NodeId)>)
    requires
        m.wf(),
        id.0 < m.nodes@.len(),
        old(seen)@.len() == m.nodes@.len(),
        forall|x: NodeId| x.0 < m.nodes@.len() && #[trigger] old(seen)@[x.0 as int] ==> covered(*m, old(result)@, region(*m, x)),
    ensures
        final(seen)@.len() == m.nodes@.len(),
        forall|x: NodeId| x.0 < m.nodes@.len() && #[trigger] final(seen)@[x.0 as int] ==> covered(*m, final(result)@, region(*m, x)),
        final(result)@ == collect(*m, old(result)@, region(*m, id)),
    decreases id.0,
{
    let ghost r0 = result@;
    if seen[id.0] {
        proof {
            lemma_collect_covered(*m, r0, region(*m, id));
        }
        return;
    }
    proof {
        assert(node_wf(m.nodes@[id.0 as int], id.0 as int, m.symbols@.len()));
    }
    let ghost seen0 = seen@;
    match m.node(id) {
        Node::Ref(r) => {
            if r.ns == RefNs::Local || r.ns == RefNs::SelfMod {
                if !holds(result, *r) {
                    result.push((*r, id));
                }
            }
            proof {
                reveal_with_fuel(collect, 2);
                assert(region(*m, id) =~= seq![id]);
                assert(seq![id].drop_first() =~= Seq::<NodeId>::empty());
                lemma_collect_grows(*m, r0, region(*m, id));
                assert forall|x: NodeId| x.0 < m.nodes@.len() && #[trigger] seen@[x.0 as int] implies covered(*m, result@, region(*m, x)) by {
                    lemma_covered_mono(*m, r0, result@, region(*m, x));
                }
            }
        },
        Node::Call(c) => {
            if c.inputs.is_none() {
                let children = m.children(id);
                let ghost after_id = result@;
                proof {
                    reveal_with_fuel(collect, 2);
                    assert(capture_ref(*m, id) is None);
                    assert(seq![id].drop_first() =~= Seq::<NodeId>::empty());
                    assert(collect(*m, r0, seq![id]) == r0);
                    lemma_collect_append(*m, r0, seq![id], kids_region(*m, id, children@.len() as nat));
                }
                let mut j: usize = children.len();
                while j > 0
                    invariant
                        m.wf(),
                        id.0 < m.nodes@.len(),
                        children@ == node_children(m.at(id)),
                        m.at(id) == Node::Call(*c),
                        c.inputs is None,
                        forall|k: int| 0 <= k < children@.len() ==> (#[trigger] children@[k]).0 < id.0,
                        j <= children@.len(),
                        seen@.len() == m.nodes@.len(),
                        forall|x: NodeId| x.0 < m.nodes@.len() && #[trigger] seen@[x.0 as int] ==> covered(*m, result@, region(*m, x)),
                        collect(*m, after_id, kids_region(*m, id, children@.len() as nat)) == collect(
                            *m,
                            result@,
                            kids_region(*m, id, j as nat),
                        ),
                    decreases j,
                {
                    let child = children[j - 1];
                    let ghost before = result@;
                    proof {
                        assert(kids_region(*m, id, j as nat) == region(*m, child) + kids_region(*m, id, (j - 1) as nat));
                        lemma_collect_append(*m, before, region(*m, child), kids_region(*m, id, (j - 1) as nat));
                    }
                    capture_walk(m, child, seen, result);
                    j -= 1;
                }
                proof {
                    assert(region(*m, id) == seq![id] + kids_region(*m, id, children@.len() as nat));
                }
            } else {
                proof {
                    reveal_with_fuel(collect, 2);
                    assert(region(*m, id) =~= seq![id]);
                    assert(seq![id].drop_first() =~= Seq::<NodeId>::empty());
                    assert forall|x: NodeId| x.0 < m.nodes@.len() && #[trigger] seen@[x.0 as int] implies covered(*m, result@, region(*m, x)) by {
                    }
                }
            }
        },
        _ => {
            proof {
                reveal_with_fuel(collect, 2);
                assert(region(*m, id) =~= seq![id]);
                assert(seq![id].drop_first() =~= Seq::<NodeId>::empty());
            }
        },
    }
    let ghost r1 = result@;
    proof {
        lemma_collect_grows(*m, r0, region(*m, id));
    }
    seen.set(id.0, true);
    proof {
        assert forall|x: NodeId| x.0 < m.nodes@.len() && #[trigger] seen@[x.0 as int] implies covered(*m, r1, region(*m, x)) by {
            if x.0 == id.0 {
                assert(x == id);
            }
        }
    }
}

/// The free references of a density body: each distinct binding or local
/// reference in the capture region of `root` (see [`region`]), in order of
/// first occurrence, with the node where it first occurs.
pub fn captures(m: &Module, root: NodeId) -> (r: Vec<(Ref, NodeId)>)
    requires
        m.wf(),
        root.0 < m.nodes@.len(),
    ensures
        r@ == collect(*m, Seq::empty(), region(*m, root)),
{
    let mut seen: Vec<bool> = crate::disintegrate::no_marks(m.nodes.len());
    let mut result: Vec<(Ref, NodeId)> = Vec::new();
    capture_walk(m, root, &mut seen, &mut result);
    result
}


// ---------------------------------------------------------------------------
// The cell point
// ---------------------------------------------------------------------------

/// The name text of the cell-point placeholder with serial `n`.
pub open spec fn point_text(n: nat) -> Seq<char> {
    "_density_point_"@ + decimal(n) + "_"@
}

/// The boundary keyword of the cell point with serial `n`.
pub open spec fn label_text(n: nat) -> Seq<char> {
    "density_point_"@ + decimal(n)
}

/// The name text of node `x` when it is a local placeholder reference.
pub open spec fn local_name_at(m: Module, x: NodeId) -> Option<Seq<char>> {
    match m.at(x) {
        Node::Ref(r) => if r.ns == RefNs::Local {
            Some(m.name_of(r.name))
        } else {
            None
        },
        _ => None,
    }
}

/// Some local placeholder reference of the arena is named `t`.
pub open spec fn local_named(m: Module, t: Seq<char>) -> bool {
    exists|x: NodeId| x.0 < m.nodes@.len() && #[trigger] local_name_at(m, x) == Some(t)
}

/// `n` is the first serial, counting from the arena's size, whose point
/// name no local placeholder of the arena uses.
pub open spec fn fresh_serial(m: Module, n: nat) -> bool {
    &&& m.nodes@.len() <= n
    &&& !local_named(m, point_text(n))
    &&& forall|k: nat| m.nodes@.len() <= k < n ==> #[trigger] local_named(m, point_text(k))
}

proof fn lemma_point_text_injective(a: nat, b: nat)
    requires
        point_text(a) == point_text(b),
    ensures
        a == b,
{
    reveal_strlit("_density_point_");
    reveal_strlit("_");
    let pa = point_text(a);
    let pb = point_text(b);
    assert(pa.len() == 15 + decimal(a).len() + 1);
    assert(pb.len() == 15 + decimal(b).len() + 1);
    assert(pa.subrange(15, pa.len() - 1) =~= decimal(a));
    assert(pb.subrange(15, pb.len() - 1) =~= decimal(b));
    crate::text::lemma_decimal_injective(a, b);
}

fn point_name(serial: u128) -> (s: String)
    ensures
        s@ == point_text(serial as nat),
{
    let mut s = String::from_str("_density_point_");
    let d = decimal_string(serial);
    s.append(d.as_str());
    s.append("_");
    s
}

fn label_name(serial: u128) -> (s: String)
    ensures
        s@ == label_text(serial as nat),
{
    let mut s = String::from_str("density_point_");
    let d = decimal_string(serial);
    s.append(d.as_str());
    s
}

/// A fresh local placeholder of type `cell` for the density cell point:
/// `_density_point_<n>_` for the first serial `n` (see [`fresh_serial`]),
/// allocated as a reference node, with the boundary keyword
/// `density_point_<n>`. Returns `(keyword, reference, node)`.
pub fn placeholder(m: &mut Module, cell: Type) -> (r: (Symbol, Ref, NodeId))
    requires
        old(m).wf(),
    ensures
        final(m).wf(),
        final(m).extends(old(m)),
        final(m).bindings@ == old(m).bindings@,
        final(m).nodes@.len() == old(m).nodes@.len() + 1,
        r.2.0 == old(m).nodes@.len(),
        final(m).at(r.2) == Node::Ref(r.1),
        final(m).types@[r.2.0 as int] == Some(cell),
        r.1.ns == RefNs::Local,
        r.0.0 < final(m).symbols@.len(),
        r.1.name.0 < final(m).symbols@.len(),
        exists|n: nat|
            #[trigger] fresh_serial(*old(m), n) && final(m).name_of(r.1.name) == point_text(n) && final(m).name_of(r.0)
                == label_text(n),
{
    let ghost m0 = *m;
    let ns0 = m.symbols.len();
    let len0 = m.nodes.len();
    // The symbols local placeholders of the arena use.
    let mut used = crate::disintegrate::no_marks(ns0);
    let mut i: usize = 0;
    while i < len0
        invariant
            m.wf(),
            *m == m0,
            len0 == m.nodes@.len(),
            ns0 == m.symbols@.len(),
            i <= len0,
            used@.len() == ns0,
            forall|y: Symbol| y.0 < ns0 ==> (#[trigger] used@[y.0 as int] <==> exists|x: NodeId|
                x.0 < i && #[trigger] m.at(x) == Node::Ref(Ref { ns: RefNs::Local, name: y })),
        decreases len0 - i,
    {
        let ghost u0 = used@;
        proof {
            assert(node_wf(m.nodes@[i as int], i as int, m.symbols@.len()));
        }
        if let Node::Ref(r) = m.node(NodeId(i)) {
            if r.ns == RefNs::Local {
                used.set(r.name.0, true);
            }
        }
        proof {
            assert forall|y: Symbol| y.0 < ns0 implies (#[trigger] used@[y.0 as int] <==> exists|x: NodeId|
                x.0 < i + 1 && #[trigger] m.at(x) == Node::Ref(Ref { ns: RefNs::Local, name: y })) by {
                if exists|x: NodeId| x.0 < i + 1 && #[trigger] m.at(x) == Node::Ref(Ref { ns: RefNs::Local, name: y }) {
                    let x = choose|x: NodeId| x.0 < i + 1 && #[trigger] m.at(x) == Node::Ref(Ref { ns: RefNs::Local, name: y });
                    if x.0 == i {
                        assert(x == NodeId(i));
                    }
                }
                if used@[y.0 as int] && !u0[y.0 as int] {
                    assert(m.at(NodeId(i)) == Node::Ref(Ref { ns: RefNs::Local, name: y }));
                }
            }
        }
        i += 1;
    }
    proof {
        assert forall|t: Seq<char>| #[trigger] local_named(m0, t) implies exists|y: Symbol|
            y.0 < ns0 && used@[y.0 as int] && m0.name_of(y) == t by {
            let x = choose|x: NodeId| x.0 < m0.nodes@.len() && #[trigger] local_name_at(m0, x) == Some(t);
            if let Node::Ref(r) = m0.at(x) {
                assert(node_wf(m0.nodes@[x.0 as int], x.0 as int, m0.symbols@.len()));
                assert(m0.at(x) == Node::Ref(Ref { ns: RefNs::Local, name: r.name }));
                assert(used@[r.name.0 as int]);
            }
        }
    }
    let mut serial: u128 = len0 as u128;
    let ghost mut hits: Set<int> = Set::empty();
    let mut name = Symbol(0);
    loop
        invariant
            m0.wf(),
            m.wf(),
            m.extends(&m0),
            m.nodes@ == m0.nodes@,
            m.types@ == m0.types@,
            m.phases@ == m0.phases@,
            m.bindings@ == m0.bindings@,
            len0 == m0.nodes@.len(),
            ns0 == m0.symbols@.len(),
            used@.len() == ns0,
            forall|y: Symbol| y.0 < ns0 ==> (#[trigger] used@[y.0 as int] <==> exists|x: NodeId|
                x.0 < len0 && #[trigger] m0.at(x) == Node::Ref(Ref { ns: RefNs::Local, name: y })),
            forall|t: Seq<char>| #[trigger] local_named(m0, t) ==> exists|y: Symbol|
                y.0 < ns0 && used@[y.0 as int] && m0.name_of(y) == t,
            len0 <= serial,
            serial - len0 == hits.len(),
            hits.finite(),
            hits.subset_of(vstd::set_lib::set_int_range(0, ns0 as int)),
            forall|h: int| #[trigger] hits.contains(h) ==> exists|k: nat|
                len0 <= k < serial && m0.name_of(Symbol(h as usize)) == #[trigger] point_text(k),
            forall|k: nat| len0 <= k < serial ==> #[trigger] local_named(m0, point_text(k)),
        ensures
            m.wf(),
            m.extends(&m0),
            m.nodes@ == m0.nodes@,
            m.types@ == m0.types@,
            m.bindings@ == m0.bindings@,
            name.0 < m.symbols@.len(),
            m.name_of(name) == point_text(serial as nat),
            fresh_serial(m0, serial as nat),
        decreases ns0 - hits.len(),
    {
        let text = point_name(serial);
        name = m.intern(text.as_str());
        let hit = name.0 < used.len() && used[name.0];
        if !hit {
            proof {
                assert(!local_named(m0, point_text(serial as nat))) by {
                    if local_named(m0, point_text(serial as nat)) {
                        let y = choose|y: Symbol| y.0 < ns0 && used@[y.0 as int] && m0.name_of(y) == point_text(serial as nat);
                        assert(m.name_of(y) == m0.name_of(y));
                        if y != name {
                            assert(m.symbols@[y.0 as int]@ != m.symbols@[name.0 as int]@);
                        }
                    }
                }
            }
            break;
        }
        proof {
            assert(m0.name_of(name) == m.name_of(name));
            let y = name;
            assert(used@[y.0 as int]);
            let x = choose|x: NodeId| x.0 < len0 && #[trigger] m0.at(x) == Node::Ref(Ref { ns: RefNs::Local, name: y });
            assert(local_name_at(m0, x) == Some(point_text(serial as nat)));
            assert(local_named(m0, point_text(serial as nat)));
            assert(!hits.contains(name.0 as int)) by {
                if hits.contains(name.0 as int) {
                    let k = choose|k: nat| len0 <= k < serial && m0.name_of(Symbol(name.0 as int as usize)) == #[trigger] point_text(k);
                    assert(Symbol(name.0 as int as usize) == name);
                    lemma_point_text_injective(k, serial as nat);
                }
            }
            let h2 = hits.insert(name.0 as int);
            vstd::set::axiom_set_insert_len(hits, name.0 as int);
            vstd::set_lib::lemma_int_range(0, ns0 as int);
            vstd::set_lib::lemma_len_subset(h2, vstd::set_lib::set_int_range(0, ns0 as int));
            assert forall|h: int| #[trigger] h2.contains(h) implies exists|k: nat|
                len0 <= k < serial + 1 && m0.name_of(Symbol(h as usize)) == #[trigger] point_text(k) by {
                if h == name.0 as int {
                    assert(Symbol(h as usize) == name);
                    assert(m0.name_of(Symbol(h as usize)) == point_text(serial as nat));
                } else {
                    let k = choose|k: nat| len0 <= k < serial && m0.name_of(Symbol(h as usize)) == #[trigger] point_text(k);
                }
            }
            hits = h2;
        }
        serial = serial + 1;
    }
    let point_ref = Ref { ns: RefNs::Local, name };
    let point = m.add_node(Node::Ref(point_ref));
    m.set_type(point, cell);
    let ghost mp = *m;
    let label_text_s = label_name(serial);
    let label = m.intern(label_text_s.as_str());
    proof {
        assert(m.name_of(name) == mp.name_of(name));
        assert(m.nodes@[point.0 as int] == mp.nodes@[point.0 as int]);
        assert(fresh_serial(m0, serial as nat));
    }
    (label, point_ref, point)
}


// ---------------------------------------------------------------------------
// The cell input of a broadcast
// ---------------------------------------------------------------------------

/// The type a broadcast reads for `values`: its own inferred type, else that
/// of its one-hop resolution.
pub open spec fn values_type(m: Module, values: NodeId) -> Option<Type> {
    match m.types@[values.0 as int] {
        Some(t) => Some(t),
        None => m.types@[resolve_one_spec(m, values).0.0 as int],
    }
}

/// A broadcast runs over a one-dimensional array or over a table.
pub open spec fn broadcastable(t: Option<Type>) -> bool {
    match t {
        Some(Type::Array { shape, .. }) => shape@.len() == 1,
        Some(Type::Table { .. }) => true,
        _ => false,
    }
}

/// Node `point` is a fresh local placeholder `rf` of type `tv`, with
/// boundary keyword `label`, named for a serial no local placeholder of `m0`
/// uses.
pub open spec fn cell_point(m0: Module, m: Module, point: NodeId, rf: Ref, label: Symbol, tv: TypeV) -> bool {
    &&& point.0 >= m0.nodes@.len()
    &&& point.0 < m.nodes@.len()
    &&& m.at(point) == Node::Ref(rf)
    &&& rf.ns == RefNs::Local
    &&& (m.types@[point.0 as int] matches Some(t) && type_view(t) == tv)
    &&& exists|n: nat|
        m0.nodes@.len() <= n && !#[trigger] local_named(m0, point_text(n)) && m.name_of(rf.name) == point_text(n)
            && m.name_of(label) == label_text(n)
}

/// The value of the first named entry called `name`, from entry `k` on.
pub open spec fn first_named(named: Seq<NamedArg>, name: Symbol, k: nat) -> Option<NodeId>
    decreases named.len() - k,
{
    if k >= named.len() {
        None
    } else if named[k as int].name == name {
        Some(named[k as int].value)
    } else {
        first_named(named, name, k + 1)
    }
}

/// The column argument of a table broadcast: the column's entry in the
/// table literal `values` resolves to, else `get(values, "<column>")`.
pub open spec fn column_arg(m0: Module, m: Module, values: NodeId, name: Symbol, col: NodeId) -> bool {
    let resolved = resolve_one_spec(m0, values).0;
    match crate::canon::flatten::builtin_call_named(m0, resolved, "table"@) {
        Some(c) if first_named(c.named@, name, 0) is Some => col == first_named(c.named@, name, 0).unwrap(),
        _ => exists|key: NodeId|
            {
                &&& plain_call(m, col, "get"@, seq![values, key])
                &&& key.0 < m.nodes@.len()
                &&& (m.at(key) matches Node::Lit(Scalar::Str(s)) && s@ == m0.name_of(name))
            },
    }
}

/// What [`cell_input`] builds over an array or a table.
pub open spec fn cell_ok(
    m0: Module,
    m: Module,
    values: NodeId,
    point: NodeId,
    in0: Seq<(Symbol, Ref)>,
    ins: Seq<(Symbol, Ref)>,
    args0: Seq<NodeId>,
    args: Seq<NodeId>,
) -> bool {
    match values_type(m0, values) {
        Some(Type::Array { elem, .. }) => exists|label: Symbol, rf: Ref|
            {
                &&& ins == in0.push((label, rf))
                &&& args == args0.push(values)
                &&& #[trigger] cell_point(m0, m, point, rf, label, type_view(*elem))
            },
        Some(Type::Table { columns }) => {
            let n = columns@.len();
            &&& ins.len() == in0.len() + n
            &&& ins.subrange(0, in0.len() as int) == in0
            &&& args.len() == args0.len() + n
            &&& args.subrange(0, args0.len() as int) == args0
            &&& is_builtin_named(m, point, "record"@)
            &&& match m.at(point) {
                Node::Call(c) => {
                    &&& c.args@.len() == 0
                    &&& c.inputs is None
                    &&& c.named@.len() == n
                    &&& forall|i: int|
                        0 <= i < n ==> {
                            &&& (#[trigger] c.named@[i]).kind == NamedKind::Field
                            &&& c.named@[i].name == columns@[i].0
                            &&& cell_point(
                                m0,
                                m,
                                c.named@[i].value,
                                ins[in0.len() + i].1,
                                ins[in0.len() + i].0,
                                type_view(columns@[i].1),
                            )
                            &&& column_arg(m0, m, values, columns@[i].0, args[args0.len() + i])
                        }
                },
                _ => false,
            }
        },
        _ => false,
    }
}

pub open spec fn cell_refusal_reason() -> Seq<char> {
    "density broadcast needs a one-dimensional array or table"@
}


proof fn lemma_local_named_grow(m0: Module, m1: Module, t: Seq<char>)
    requires
        m0.wf(),
        m1.extends(&m0),
        local_named(m0, t),
    ensures
        local_named(m1, t),
{
    let x = choose|x: NodeId| x.0 < m0.nodes@.len() && #[trigger] local_name_at(m0, x) == Some(t);
    assert(m1.nodes@[x.0 as int] == m0.nodes@[x.0 as int]);
    assert(node_wf(m0.nodes@[x.0 as int], x.0 as int, m0.symbols@.len()));
    assert(local_name_at(m1, x) == Some(t));
}

proof fn lemma_cell_point_stable(m0: Module, m1: Module, m2: Module, point: NodeId, rf: Ref, label: Symbol, tv: TypeV)
    requires
        m1.wf(),
        m2.extends(&m1),
        label.0 < m1.symbols@.len(),
        cell_point(m0, m1, point, rf, label, tv),
    ensures
        cell_point(m0, m2, point, rf, label, tv),
{
    assert(m2.nodes@[point.0 as int] == m1.nodes@[point.0 as int]);
    assert(m2.types@[point.0 as int] == m1.types@[point.0 as int]);
    assert(node_wf(m1.nodes@[point.0 as int], point.0 as int, m1.symbols@.len()));
    assert(m2.name_of(rf.name) == m1.name_of(rf.name));
    assert(m2.name_of(label) == m1.name_of(label));
}

proof fn lemma_column_arg_stable(m0: Module, m1: Module, m2: Module, values: NodeId, name: Symbol, col: NodeId)
    requires
        m1.wf(),
        m2.extends(&m1),
        col.0 < m1.nodes@.len(),
        column_arg(m0, m1, values, name, col),
    ensures
        column_arg(m0, m2, values, name, col),
{
    let resolved = resolve_one_spec(m0, values).0;
    match crate::canon::flatten::builtin_call_named(m0, resolved, "table"@) {
        Some(c) if first_named(c.named@, name, 0) is Some => {},
        _ => {
            let key = choose|key: NodeId|
                {
                    &&& plain_call(m1, col, "get"@, seq![values, key])
                    &&& key.0 < m1.nodes@.len()
                    &&& (m1.at(key) matches Node::Lit(Scalar::Str(s)) && s@ == m0.name_of(name))
                };
            crate::disintegrate::lemma_plain_call_stable(m1, m2, col, "get"@, seq![values, key]);
            assert(m2.nodes@[key.0 as int] == m1.nodes@[key.0 as int]);
        },
    }
}

/// The first named entry called `name`, from entry `k` on.
fn find_named(named: &Vec<NamedArg>, name: Symbol) -> (r: Option<NodeId>)
    ensures
        r == first_named(named@, name, 0),
{
    let mut k: usize = 0;
    while k < named.len()
        invariant
            k <= named@.len(),
            first_named(named@, name, 0) == first_named(named@, name, k as nat),
        decreases named@.len() - k,
    {
        if named[k].name == name {
            return Some(named[k].value);
        }
        k += 1;
    }
    None
}

/// The cell point of a broadcast over `values`: for a one-dimensional array,
/// one placeholder of the element type, with `values` itself as the
/// argument; for a table, one placeholder per column and a record of them,
/// each column passed as its entry of the table literal `values` resolves
/// to, else as `get(values, "<column>")`. Placeholders are appended to
/// `inputs` and arguments to `args`; any other type refuses.
pub fn cell_input(
    m: &mut Module,
    values: NodeId,
    inputs: &mut Vec<(Symbol, Ref)>,
    args: &mut Vec<NodeId>,
) -> (r: Result<NodeId, RefuseError>)
    requires
        old(m).wf(),
        values.0 < old(m).nodes@.len(),
        values_type(*old(m), values) matches Some(Type::Table { columns }) ==> forall|i: int|
            0 <= i < columns@.len() ==> (#[trigger] columns@[i]).0.0 < old(m).symbols@.len(),
    ensures
        final(m).wf(),
        final(m).extends(old(m)),
        final(m).bindings@ == old(m).bindings@,
        match r {
            Ok(point) => {
                &&& broadcastable(values_type(*old(m), values))
                &&& point.0 < final(m).nodes@.len()
                &&& cell_ok(*old(m), *final(m), values, point, old(inputs)@, final(inputs)@, old(args)@, final(args)@)
                &&& forall|k: int|
                    old(inputs)@.len() <= k < final(inputs)@.len() ==> (#[trigger] final(inputs)@[k]).0.0
                        < final(m).symbols@.len() && final(inputs)@[k].1.name.0 < final(m).symbols@.len()
                &&& forall|k: int|
                    old(args)@.len() <= k < final(args)@.len() ==> (#[trigger] final(args)@[k]).0 < final(m).nodes@.len()
            },
            Err(e) => {
                &&& !broadcastable(values_type(*old(m), values))
                &&& *final(m) == *old(m)
                &&& final(inputs)@ == old(inputs)@
                &&& final(args)@ == old(args)@
                &&& e.node == values
                &&& e.construct@ == construct_name(*old(m), values)
                &&& e.reason@ == cell_refusal_reason()
            },
        },
{
    let ghost m0 = *m;
    let ghost in0 = inputs@;
    let ghost args0 = args@;
    let (resolved, _) = crate::shape::resolve_ref_one(m, values);
    let ty: Option<Type> = match m.type_of(values) {
        Some(t) => Some(copy_type(t)),
        None => match m.type_of(resolved) {
            Some(t) => Some(copy_type(t)),
            None => None,
        },
    };
    proof {
        assert(ty is Some <==> values_type(m0, values) is Some);
        if ty is Some {
            assert(type_view(ty.unwrap()) == type_view(values_type(m0, values).unwrap()));
        }
    }
    match ty {
        Some(Type::Array { shape, elem }) => {
            if shape.len() != 1 {
                proof {
                    reveal_strlit("density broadcast needs a one-dimensional array or table");
                    let vt = values_type(m0, values).unwrap();
                    if let Type::Array { shape: s2, .. } = vt {
                        assert(s2@ == shape@);
                    }
                }
                return Err(crate::shape::refuse(values, m, "density broadcast needs a one-dimensional array or table"));
            }
            let (label, reference, value) = placeholder(m, *elem);
            inputs.push((label, reference));
            args.push(values);
            proof {
                assert(inputs@[in0.len() as int] == (label, reference));
                assert(args@[args0.len() as int] == values);
                assert(inputs@.len() == in0.len() + 1);
                assert(args@.len() == args0.len() + 1);
                let vt = values_type(m0, values).unwrap();
                if let Type::Array { shape: s2, elem: e2 } = vt {
                    assert(s2@ == shape@);
                    assert(type_view(*e2) == type_view(*elem));
                    let n = choose|n: nat| #[trigger] fresh_serial(m0, n) && m.name_of(reference.name) == point_text(n) && m.name_of(label) == label_text(n);
                    assert(cell_point(m0, *m, value, reference, label, type_view(*e2)));
                }
            }
            proof {
                assert forall|k: int| in0.len() <= k < inputs@.len() implies (#[trigger] inputs@[k]).0.0 < m.symbols@.len()
                    && inputs@[k].1.name.0 < m.symbols@.len() by {
                    assert(k == in0.len());
                }
                assert forall|k: int| args0.len() <= k < args@.len() implies (#[trigger] args@[k]).0 < m.nodes@.len() by {
                    assert(k == args0.len());
                }
            }
            Ok(value)
        },
        Some(Type::Table { columns }) => {
            let ghost tcols = match values_type(m0, values) {
                Some(Type::Table { columns: c }) => c@,
                _ => columns@,
            };
            proof {
                if let Some(Type::Table { columns: c }) = values_type(m0, values) {
                    let a = type_view(Type::Table { columns: c });
                    let b = type_view(Type::Table { columns });
                    assert(a == b);
                    if let TypeV::Table { columns: ac } = a {
                        if let TypeV::Table { columns: bc } = b {
                            assert(ac.len() == c@.len());
                            assert(bc.len() == columns@.len());
                            assert forall|j: int| 0 <= j < c@.len() implies c@[j].0 == columns@[j].0 && type_view(
                                c@[j].1,
                            ) == type_view(columns@[j].1) by {
                                assert(ac[j] == bc[j]);
                            }
                        }
                    }
                }
            }
            let visible: Option<Vec<NamedArg>> = match crate::shape::expect_builtin_call(m, resolved, "table") {
                Some(c) => Some(crate::ir::copy_named(&c.named)),
                None => None,
            };
            let mut fields: Vec<NamedArg> = Vec::new();
            let mut i: usize = 0;
            while i < columns.len()
                invariant
                    m0.wf(),
                    m.wf(),
                    m.extends(&m0),
                    m.bindings@ == m0.bindings@,
                    values.0 < m0.nodes@.len(),
                    resolved == resolve_one_spec(m0, values).0,
                    tcols.len() == columns@.len(),
                    forall|j: int| 0 <= j < tcols.len() ==> (#[trigger] tcols[j]).0 == columns@[j].0 && type_view(tcols[j].1) == type_view(columns@[j].1) && tcols[j].0.0 < m0.symbols@.len(),
                    match crate::canon::flatten::builtin_call_named(m0, resolved, "table"@) {
                        Some(c) => visible matches Some(v) && v@ == c.named@,
                        None => visible is None,
                    },
                    i <= columns@.len(),
                    inputs@.len() == in0.len() + i,
                    inputs@.subrange(0, in0.len() as int) == in0,
                    args@.len() == args0.len() + i,
                    args@.subrange(0, args0.len() as int) == args0,
                    fields@.len() == i,
                    forall|j: int|
                        0 <= j < i ==> {
                            &&& (#[trigger] fields@[j]).kind == NamedKind::Field
                            &&& fields@[j].name == tcols[j].0
                            &&& fields@[j].value.0 < m.nodes@.len()
                            &&& cell_point(m0, *m, fields@[j].value, inputs@[in0.len() + j].1, inputs@[in0.len() + j].0, type_view(tcols[j].1))
                            &&& inputs@[in0.len() + j].0.0 < m.symbols@.len()
                            &&& inputs@[in0.len() + j].1.name.0 < m.symbols@.len()
                            &&& args@[args0.len() + j].0 < m.nodes@.len()
                            &&& column_arg(m0, *m, values, tcols[j].0, args@[args0.len() + j])
                        },
                decreases columns@.len() - i,
            {
                let name = columns[i].0;
                let cty = copy_type(&columns[i].1);
                proof {
                    assert(tcols[i as int].0 == name);
                }
                let ghost mb = *m;
                let ghost fb = fields@;
                let ghost ib = inputs@;
                let ghost ab = args@;
                let (label, reference, value) = placeholder(m, cty);
                inputs.push((label, reference));
                let ghost mp = *m;
                let found = match &visible {
                    Some(xs) => find_named(xs, name),
                    None => None,
                };
                let column = match found {
                    Some(v) => v,
                    None => {
                        let text = m.resolve(name).to_string();
                        let key = m.add_node(Node::Lit(Scalar::Str(text)));
                        let ghost mk = *m;
                        let mut gargs: Vec<NodeId> = Vec::new();
                        gargs.push(values);
                        gargs.push(key);
                        let g = crate::shape::build_call(m, "get", gargs.as_slice());
                        proof {
                            broadcast use vstd::string::group_string_axioms;
                            assert(gargs@ =~= seq![values, key]);
                            assert(m.nodes@[key.0 as int] == mk.nodes@[key.0 as int]);
                            assert(m0.name_of(name) == mb.name_of(name));
                            assert(plain_call(*m, g, "get"@, seq![values, key]));
                        }
                        g
                    },
                };
                args.push(column);
                fields.push(NamedArg { kind: NamedKind::Field, name, value });
                proof {
                    let n = choose|n: nat| #[trigger] fresh_serial(mb, n) && mp.name_of(reference.name) == point_text(n) && mp.name_of(label) == label_text(n);
                    assert(!local_named(m0, point_text(n))) by {
                        if local_named(m0, point_text(n)) {
                            lemma_local_named_grow(m0, mb, point_text(n));
                        }
                    }
                    assert(cell_point(m0, mp, value, reference, label, type_view(columns@[i as int].1)));
                    lemma_cell_point_stable(m0, mp, *m, value, reference, label, type_view(columns@[i as int].1));
                    crate::term::lemma_extends_trans(m0, mb, *m);
                    if found is Some {
                        assert(visible is Some);
                        assert(column_arg(m0, *m, values, name, column));
                        assert(column.0 < m.nodes@.len()) by {
                            let c = crate::canon::flatten::builtin_call_named(m0, resolved, "table"@).unwrap();
                            assert(node_wf(m0.nodes@[resolved.0 as int], resolved.0 as int, m0.symbols@.len()));
                            assert forall|q: int| 0 <= q < c.named@.len() implies (#[trigger] c.named@[q]).value.0 < resolved.0 by {
                                assert(node_children(m0.at(resolved))[c.args@.len() + q + (if c.head is User { 1int } else { 0int })] == c.named@[q].value);
                            }
                            lemma_first_named_below(c.named@, name, 0, resolved.0 as int);
                        }
                    }
                    assert forall|j: int|
                        0 <= j < i + 1 implies {
                            &&& (#[trigger] fields@[j]).kind == NamedKind::Field
                            &&& fields@[j].name == tcols[j].0
                            &&& fields@[j].value.0 < m.nodes@.len()
                            &&& cell_point(m0, *m, fields@[j].value, inputs@[in0.len() + j].1, inputs@[in0.len() + j].0, type_view(tcols[j].1))
                            &&& inputs@[in0.len() + j].0.0 < m.symbols@.len()
                            &&& inputs@[in0.len() + j].1.name.0 < m.symbols@.len()
                            &&& args@[args0.len() + j].0 < m.nodes@.len()
                            &&& column_arg(m0, *m, values, tcols[j].0, args@[args0.len() + j])
                        } by {
                        if j < i {
                            assert(fields@[j] == fb[j]);
                            assert(inputs@[in0.len() + j] == ib[in0.len() + j]);
                            assert(args@[args0.len() + j] == ab[args0.len() + j]);
                            lemma_cell_point_stable(m0, mb, *m, fb[j].value, ib[in0.len() + j].1, ib[in0.len() + j].0, type_view(tcols[j].1));
                            lemma_column_arg_stable(m0, mb, *m, values, tcols[j].0, ab[args0.len() + j]);
                        } else {
                            assert(inputs@[in0.len() + j] == (label, reference));
                            assert(args@[args0.len() + j] == column);
                        }
                    }
                    assert(inputs@.subrange(0, in0.len() as int) =~= in0) by {
                        assert(ib.subrange(0, in0.len() as int) == in0);
                    }
                    assert(args@.subrange(0, args0.len() as int) =~= args0) by {
                        assert(ab.subrange(0, args0.len() as int) == args0);
                    }
                }
                i += 1;
            }
            let rec = m.intern("record");
            let ghost mr = *m;
            let call = Call { head: CallHead::Builtin(rec), args: Vec::new(), named: fields, inputs: None };
            proof {
                assert(crate::ir::call_children(call) =~= fields@.map_values(|na: NamedArg| na.value));
                assert forall|k: int| 0 <= k < call.named@.len() implies (#[trigger] call.named@[k]).name.0 < m.symbols@.len() by {
                    assert(call.named@[k].name == tcols[k].0);
                }
                assert(crate::ir::node_wf(Node::Call(call), m.nodes@.len() as int, m.symbols@.len()));
            }
            let point = m.add_node(Node::Call(call));
            proof {
                crate::term::lemma_extends_trans(m0, mr, *m);
                let vt = values_type(m0, values).unwrap();
                assert forall|j: int|
                    0 <= j < fields@.len() implies {
                        &&& cell_point(m0, *m, fields@[j].value, inputs@[in0.len() + j].1, inputs@[in0.len() + j].0, type_view(tcols[j].1))
                        &&& column_arg(m0, *m, values, tcols[j].0, args@[args0.len() + j])
                    } by {
                    lemma_cell_point_stable(m0, mr, *m, fields@[j].value, inputs@[in0.len() + j].1, inputs@[in0.len() + j].0, type_view(tcols[j].1));
                    lemma_column_arg_stable(m0, mr, *m, values, tcols[j].0, args@[args0.len() + j]);
                }
                assert(m.name_of(rec) == "record"@);
                assert forall|k: int| in0.len() <= k < inputs@.len() implies (#[trigger] inputs@[k]).0.0 < m.symbols@.len()
                    && inputs@[k].1.name.0 < m.symbols@.len() by {
                    let j = k - in0.len();
                    assert(fields@[j].kind == NamedKind::Field);
                }
                assert forall|k: int| args0.len() <= k < args@.len() implies (#[trigger] args@[k]).0 < m.nodes@.len() by {
                    let j = k - args0.len();
                    assert(fields@[j].kind == NamedKind::Field);
                }
            }
            Ok(point)
        },
        _ => {
            proof {
                reveal_strlit("density broadcast needs a one-dimensional array or table");
                assert(!broadcastable(values_type(m0, values))) by {
                    match values_type(m0, values) {
                        Some(Type::Array { .. }) => assert(false),
                        Some(Type::Table { .. }) => assert(false),
                        _ => {},
                    }
                }
            }
            Err(crate::shape::refuse(values, m, "density broadcast needs a one-dimensional array or table"))
        },
    }
}

proof fn lemma_first_named_below(named: Seq<NamedArg>, name: Symbol, k: nat, bound: int)
    requires
        forall|q: int| 0 <= q < named.len() ==> (#[trigger] named[q]).value.0 < bound,
    ensures
        first_named(named, name, k) matches Some(x) ==> x.0 < bound,
    decreases named.len() - k,
{
    if k < named.len() {
        lemma_first_named_below(named, name, k + 1, bound);
    }
}


// ---------------------------------------------------------------------------
// The shared density body
// ---------------------------------------------------------------------------

/// Every entry of `acc` is a capture reference with the node holding it.
pub open spec fn sound_captures(m: Module, acc: Seq<(Ref, NodeId)>) -> bool {
    forall|k: int| 0 <= k < acc.len() ==> capture_ref(m, (#[trigger] acc[k]).1) == Some(acc[k].0)
}

proof fn lemma_collect_sound(m: Module, acc: Seq<(Ref, NodeId)>, s: Seq<NodeId>)
    requires
        sound_captures(m, acc),
    ensures
        sound_captures(m, collect(m, acc, s)),
    decreases s.len(),
{
    if s.len() > 0 {
        let next = match capture_ref(m, s[0]) {
            Some(r) => if holds_ref(acc, r) {
                acc
            } else {
                acc.push((r, s[0]))
            },
            None => acc,
        };
        assert(sound_captures(m, next)) by {
            assert forall|k: int| 0 <= k < next.len() implies capture_ref(m, (#[trigger] next[k]).1) == Some(next[k].0) by {
                if k < acc.len() {
                    assert(next[k] == acc[k]);
                }
            }
        }
        lemma_collect_sound(m, next, s.drop_first());
    }
}

/// `ins` already binds reference `r` at some boundary input.
pub open spec fn bound_ref(ins: Seq<(Symbol, Ref)>, r: Ref) -> bool {
    exists|j: int| 0 <= j < ins.len() && (#[trigger] ins[j]).1 == r
}

/// The node a capture's value resolves to through the bindings it names.
pub open spec fn capture_target(m: Module, c: (Ref, NodeId)) -> NodeId {
    chain_spec(m, c.1, None, m.bindings@.len() as nat).0
}

/// A capture that stays global: a binding reference whose value resolves
/// to a node of fixed phase (a closed support set, a fixed constant).
pub open spec fn stays_global(m: Module, c: (Ref, NodeId)) -> bool {
    c.0.ns == RefNs::SelfMod && m.phases@[capture_target(m, c).0 as int] == Some(Phase::Fixed)
}

pub open spec fn lift_pred(m: Module, in0: Seq<(Symbol, Ref)>) -> spec_fn((Ref, NodeId)) -> bool {
    |c: (Ref, NodeId)| !bound_ref(in0, c.0) && !stays_global(m, c)
}

/// The captures of `body` the shared density lifts to boundary inputs, in
/// capture order: those no boundary input of `in0` binds and that do not
/// stay global.
pub open spec fn lifted(m: Module, in0: Seq<(Symbol, Ref)>, body: NodeId) -> Seq<(Ref, NodeId)> {
    collect(m, Seq::empty(), region(m, body)).filter(lift_pred(m, in0))
}

/// The type a lifted capture carries: that of its value, else of what the
/// value resolves to, else `%any`.
pub open spec fn capture_type(m: Module, c: (Ref, NodeId)) -> TypeV {
    match m.types@[c.1.0 as int] {
        Some(t) => type_view(t),
        None => match m.types@[capture_target(m, c).0 as int] {
            Some(t) => type_view(t),
            None => TypeV::Any,
        },
    }
}

/// The stand-in of reference `r`: the node paired with its first
/// occurrence in `pairs`, from entry `k` on.
pub open spec fn stand_in(pairs: Seq<(Ref, NodeId)>, r: Ref, k: nat) -> Option<NodeId>
    decreases pairs.len() - k,
{
    if k >= pairs.len() {
        None
    } else if pairs[k as int].0 == r {
        Some(pairs[k as int].1)
    } else {
        stand_in(pairs, r, k + 1)
    }
}

/// The leaf map that closes the shared body: a reference with a stand-in
/// becomes it, a reification is kept whole, anything else is rebuilt.
pub open spec fn lift_map(m0: Module, pairs: Seq<(Ref, NodeId)>) -> spec_fn(NodeId) -> Option<NodeId> {
    |x: NodeId|
        if x.0 < m0.nodes@.len() {
            match m0.at(x) {
                Node::Ref(r) => stand_in(pairs, r, 0),
                Node::Call(c) => if c.inputs is Some {
                    Some(x)
                } else {
                    None
                },
                _ => None,
            }
        } else {
            None
        }
}

/// Node `v` is `vector(a)` for a node `a` holding reference `r`, typed `tv`.
pub open spec fn vector_of_ref(m: Module, v: NodeId, r: Ref, tv: TypeV) -> bool {
    exists|a: NodeId|
        {
            &&& #[trigger] plain_call(m, v, "vector"@, seq![a])
            &&& a.0 < m.nodes@.len()
            &&& m.at(a) == Node::Ref(r)
            &&& (m.types@[a.0 as int] matches Some(t) && type_view(t) == tv)
        }
}

proof fn lemma_vector_of_ref_stable(m1: Module, m2: Module, v: NodeId, r: Ref, tv: TypeV)
    requires
        m1.wf(),
        m2.extends(&m1),
        v.0 < m1.nodes@.len(),
        vector_of_ref(m1, v, r, tv),
    ensures
        vector_of_ref(m2, v, r, tv),
{
    let a = choose|a: NodeId|
        {
            &&& #[trigger] plain_call(m1, v, "vector"@, seq![a])
            &&& a.0 < m1.nodes@.len()
            &&& m1.at(a) == Node::Ref(r)
            &&& (m1.types@[a.0 as int] matches Some(t) && type_view(t) == tv)
        };
    crate::disintegrate::lemma_plain_call_stable(m1, m2, v, "vector"@, seq![a]);
    assert(m2.nodes@[a.0 as int] == m1.nodes@[a.0 as int]);
    assert(m2.types@[a.0 as int] == m1.types@[a.0 as int]);
}

/// [`shared_density`] with its parts named: `mapped` the broadcast,
/// `function` the reified body `fbody`, `ins` its boundary inputs,
/// `actuals` the singleton arguments and `pairs` the stand-ins.
pub open spec fn shared_density_parts(
    m0: Module,
    m: Module,
    body: NodeId,
    in0: Seq<(Symbol, Ref)>,
    args0: Seq<NodeId>,
    r: NodeId,
    mapped: NodeId,
    function: NodeId,
    fbody: NodeId,
    ins: Seq<(Symbol, Ref)>,
    actuals: Seq<NodeId>,
    pairs: Seq<(Ref, NodeId)>,
) -> bool {
    let lifts = lifted(m0, in0, body);
    let n = lifts.len();
    &&& plain_call(m, r, "sum"@, seq![mapped])
    &&& plain_call(m, mapped, "broadcast"@, seq![function] + args0 + actuals)
    &&& is_builtin_named(m, function, "functionof"@)
    &&& (m.at(function) matches Node::Call(c) && c.args@ == seq![fbody] && c.named@.len() == 0 && inputs_view(c.inputs) == Some(Some(ins)))
    &&& ins.len() == in0.len() + n
    &&& ins.subrange(0, in0.len() as int) == in0
    &&& actuals.len() == n
    &&& pairs.len() == n
    &&& forall|k: int|
        0 <= k < n ==> {
            &&& (#[trigger] pairs[k]).0 == lifts[k].0
            &&& cell_point(m0, m, pairs[k].1, ins[in0.len() + k].1, ins[in0.len() + k].0, capture_type(m0, lifts[k]))
            &&& vector_of_ref(m, actuals[k], lifts[k].0, capture_type(m0, lifts[k]))
        }
    &&& term(m, fbody) == rewrite(m, body, lift_map(m0, pairs))
}

/// What [`broadcast_density_sum`] builds over the density `body` at the
/// cell point: `sum(broadcast(functionof(body'), args0…, vector(x)…))`, where
/// each lifted capture `x` gets a fresh local placeholder as a new boundary
/// input after `in0`, `body'` is `body` with each lifted reference replaced
/// by its placeholder (reifications kept whole), and `vector(x)` passes the
/// captured reference itself as a singleton argument.
pub open spec fn shared_density(
    m0: Module,
    m: Module,
    body: NodeId,
    in0: Seq<(Symbol, Ref)>,
    args0: Seq<NodeId>,
    r: NodeId,
) -> bool {
    exists|mapped: NodeId, function: NodeId, fbody: NodeId, ins: Seq<(Symbol, Ref)>, actuals: Seq<NodeId>, pairs: Seq<(Ref, NodeId)>|
        #[trigger] shared_density_parts(m0, m, body, in0, args0, r, mapped, function, fbody, ins, actuals, pairs)
}

/// Whether some boundary input of `ins` already binds `r`.
fn holds_input(ins: &Vec<(Symbol, Ref)>, r: Ref) -> (b: bool)
    ensures
        b == bound_ref(ins@, r),
{
    let mut j: usize = 0;
    while j < ins.len()
        invariant
            j <= ins@.len(),
            forall|k: int| 0 <= k < j ==> (#[trigger] ins@[k]).1 != r,
        decreases ins@.len() - j,
    {
        if ins[j].1 == r {
            return true;
        }
        j += 1;
    }
    false
}

/// The first stand-in of `r` among `pairs`.
fn find_stand_in(pairs: &Vec<(Ref, NodeId)>, r: Ref) -> (x: Option<NodeId>)
    ensures
        x == stand_in(pairs@, r, 0),
{
    let mut k: usize = 0;
    while k < pairs.len()
        invariant
            k <= pairs@.len(),
            stand_in(pairs@, r, 0) == stand_in(pairs@, r, k as nat),
        decreases pairs@.len() - k,
    {
        if pairs[k].0 == r {
            return Some(pairs[k].1);
        }
        k += 1;
    }
    None
}


proof fn lemma_stand_in_member(pairs: Seq<(Ref, NodeId)>, r: Ref, k: nat)
    ensures
        stand_in(pairs, r, k) matches Some(x) ==> exists|q: int| 0 <= q < pairs.len() && (#[trigger] pairs[q]).1 == x,
    decreases pairs.len() - k,
{
    if k < pairs.len() && pairs[k as int].0 != r {
        lemma_stand_in_member(pairs, r, k + 1);
    }
}

/// Close the density `body`, lowered once at the cell point, over its free
/// references and sum it over the observations: each capture of `body` (see
/// [`captures`]) that `inputs` does not bind and that does not stay global
/// becomes a fresh placeholder boundary input, whose actual argument is the
/// singleton `vector(<capture>)`; the body with those references replaced
/// is reified as `functionof` over the inputs, broadcast over `args`, and
/// summed. See [`shared_density`].
pub fn broadcast_density_sum(
    m: &mut Module,
    body: NodeId,
    inputs: Vec<(Symbol, Ref)>,
    args: Vec<NodeId>,
) -> (r: NodeId)
    requires
        old(m).wf(),
        body.0 < old(m).nodes@.len(),
        forall|j: int| 0 <= j < args@.len() ==> (#[trigger] args@[j]).0 < old(m).nodes@.len(),
        forall|j: int|
            0 <= j < inputs@.len() ==> (#[trigger] inputs@[j]).0.0 < old(m).symbols@.len() && ref_ok(
                inputs@[j].1,
                old(m).symbols@.len(),
            ),
    ensures
        final(m).wf(),
        final(m).extends(old(m)),
        final(m).bindings@ == old(m).bindings@,
        r.0 < final(m).nodes@.len(),
        shared_density(*old(m), *final(m), body, inputs@, args@, r),
{
    let ghost m0 = *m;
    let ghost in0 = inputs@;
    let ghost args0 = args@;
    let len0 = m.nodes.len();
    let mut inputs = inputs;
    let mut args = args;
    let caps = captures(m, body);
    proof {
        lemma_collect_sound(m0, Seq::empty(), region(m0, body));
    }
    let ghost pred = lift_pred(m0, in0);
    // Which captures are lifted, read off the arena as given.
    let mut plan: Vec<(Ref, NodeId)> = Vec::new();
    let mut plan_types: Vec<Type> = Vec::new();
    let mut i: usize = 0;
    while i < caps.len()
        invariant
            *m == m0,
            m0.wf(),
            inputs@ == in0,
            caps@ == collect(m0, Seq::empty(), region(m0, body)),
            sound_captures(m0, caps@),
            pred == lift_pred(m0, in0),
            i <= caps@.len(),
            plan@ == caps@.subrange(0, i as int).filter(pred),
            plan_types@.len() == plan@.len(),
            forall|k: int| 0 <= k < plan@.len() ==> capture_ref(m0, (#[trigger] plan@[k]).1) == Some(plan@[k].0),
            forall|k: int| 0 <= k < plan@.len() ==> type_view(#[trigger] plan_types@[k]) == capture_type(m0, plan@[k]),
        decreases caps@.len() - i,
    {
        let (reference, value) = caps[i];
        proof {
            assert(capture_ref(m0, caps@[i as int].1) == Some(caps@[i as int].0));
        }
        let bound = holds_input(&inputs, reference);
        let (resolved, _) = resolve_ref_chain(m, value);
        let global = reference.ns == RefNs::SelfMod && match m.phase_of(resolved) {
            Some(Phase::Fixed) => true,
            _ => false,
        };
        proof {
            caps@.subrange(0, i as int).lemma_filter_push(caps@[i as int], pred);
            assert(caps@.subrange(0, i as int + 1) =~= caps@.subrange(0, i as int).push(caps@[i as int]));
            assert(pred(caps@[i as int]) == (!bound && !global));
        }
        if !bound && !global {
            let ty = match m.type_of(value) {
                Some(t) => copy_type(t),
                None => match m.type_of(resolved) {
                    Some(t) => copy_type(t),
                    None => Type::Any,
                },
            };
            plan.push((reference, value));
            plan_types.push(ty);
        }
        i += 1;
    }
    let ghost lifts = plan@;
    proof {
        assert(caps@.subrange(0, caps@.len() as int) =~= caps@);
        assert(lifts == lifted(m0, in0, body));
    }
    // A fresh placeholder and a singleton argument per lifted capture.
    let mut pairs: Vec<(Ref, NodeId)> = Vec::new();
    let ghost mut actuals: Seq<NodeId> = Seq::empty();
    let mut j: usize = 0;
    while j < plan.len()
        invariant
            m0.wf(),
            m.wf(),
            m.extends(&m0),
            m.bindings@ == m0.bindings@,
            len0 == m0.nodes@.len(),
            body.0 < m0.nodes@.len(),
            plan@ == lifts,
            plan_types@.len() == lifts.len(),
            forall|k: int| 0 <= k < lifts.len() ==> capture_ref(m0, (#[trigger] lifts[k]).1) == Some(lifts[k].0),
            forall|k: int| 0 <= k < lifts.len() ==> type_view(#[trigger] plan_types@[k]) == capture_type(m0, lifts[k]),
            j <= lifts.len(),
            inputs@.len() == in0.len() + j,
            inputs@.subrange(0, in0.len() as int) == in0,
            args@ == args0 + actuals,
            actuals.len() == j,
            pairs@.len() == j,
            forall|q: int|
                0 <= q < inputs@.len() ==> (#[trigger] inputs@[q]).0.0 < m.symbols@.len() && ref_ok(
                    inputs@[q].1,
                    m.symbols@.len(),
                ),
            forall|q: int| 0 <= q < args@.len() ==> (#[trigger] args@[q]).0 < m.nodes@.len(),
            forall|k: int|
                0 <= k < j ==> {
                    &&& (#[trigger] pairs@[k]).0 == lifts[k].0
                    &&& pairs@[k].1.0 < m.nodes@.len()
                    &&& cell_point(m0, *m, pairs@[k].1, inputs@[in0.len() + k].1, inputs@[in0.len() + k].0, capture_type(m0, lifts[k]))
                    &&& vector_of_ref(*m, actuals[k], lifts[k].0, capture_type(m0, lifts[k]))
                },
        decreases lifts.len() - j,
    {
        let reference = plan[j].0;
        let ty1 = copy_type(&plan_types[j]);
        let ty2 = copy_type(&plan_types[j]);
        let ghost mb = *m;
        let ghost ib = inputs@;
        let ghost pb = pairs@;
        let ghost tv = capture_type(m0, lifts[j as int]);
        let (label, local, replacement) = placeholder(m, ty1);
        let ghost mp = *m;
        inputs.push((label, local));
        pairs.push((reference, replacement));
        proof {
            let x = lifts[j as int].1;
            assert(node_wf(m0.nodes@[x.0 as int], x.0 as int, m0.symbols@.len()));
            assert(m0.at(x) == Node::Ref(reference));
        }
        let actual = m.add_node(Node::Ref(reference));
        m.set_type(actual, ty2);
        let ghost ma = *m;
        let mut va: Vec<NodeId> = Vec::new();
        va.push(actual);
        let v = build_call(m, "vector", va.as_slice());
        args.push(v);
        proof {
            crate::term::lemma_extends_trans(m0, mb, mp);
            assert(ma.extends(&mp));
            crate::term::lemma_extends_trans(m0, mp, ma);
            crate::term::lemma_extends_trans(m0, ma, *m);
            crate::term::lemma_extends_trans(mb, ma, *m);
            crate::term::lemma_extends_trans(mp, ma, *m);
            let ghost a_old = actuals;
            actuals = actuals.push(v);
            assert(args@ =~= args0 + actuals);
            // The new placeholder is fresh with respect to the arena as given.
            let n = choose|n: nat| #[trigger] fresh_serial(mb, n) && mp.name_of(local.name) == point_text(n) && mp.name_of(label) == label_text(n);
            assert(!local_named(m0, point_text(n))) by {
                if local_named(m0, point_text(n)) {
                    lemma_local_named_grow(m0, mb, point_text(n));
                }
            }
            assert(cell_point(m0, mp, replacement, local, label, tv));
            lemma_cell_point_stable(m0, mp, *m, replacement, local, label, tv);
            assert(vector_of_ref(*m, v, reference, tv)) by {
                assert(m.nodes@[actual.0 as int] == ma.nodes@[actual.0 as int]);
                assert(m.types@[actual.0 as int] == ma.types@[actual.0 as int]);
                assert(va@ =~= seq![actual]);
                assert(plain_call(*m, v, "vector"@, seq![actual]));
            }
            assert forall|k: int|
                0 <= k < j + 1 implies {
                    &&& (#[trigger] pairs@[k]).0 == lifts[k].0
                    &&& pairs@[k].1.0 < m.nodes@.len()
                    &&& cell_point(m0, *m, pairs@[k].1, inputs@[in0.len() + k].1, inputs@[in0.len() + k].0, capture_type(m0, lifts[k]))
                    &&& vector_of_ref(*m, actuals[k], lifts[k].0, capture_type(m0, lifts[k]))
                } by {
                if k < j {
                    assert(pairs@[k] == pb[k]);
                    assert(inputs@[in0.len() + k] == ib[in0.len() + k]);
                    assert(actuals[k] == a_old[k]);
                    lemma_cell_point_stable(m0, mb, *m, pb[k].1, ib[in0.len() + k].1, ib[in0.len() + k].0, capture_type(m0, lifts[k]));
                    lemma_vector_of_ref_stable(mb, *m, a_old[k], lifts[k].0, capture_type(m0, lifts[k]));
                } else {
                    assert(inputs@[in0.len() + k] == (label, local));
                }
            }
            assert(inputs@.subrange(0, in0.len() as int) =~= in0) by {
                assert(ib.subrange(0, in0.len() as int) == in0);
            }
        }
        j += 1;
    }
    // Replace each lifted reference by its placeholder, keeping reifications whole.
    let ghost mm = *m;
    let ghost gp = pairs@;
    let ghost g = lift_map(m0, gp);
    let ghost bound = mm.nodes@.len();
    let pref = &pairs;
    let gm0: Ghost<Module> = Ghost(m0);
    let f = |mq: &Module, id: NodeId| -> (x: Option<NodeId>)
        requires
            mq.wf(),
            mq.extends(&gm0@),
            gm0@.wf(),
            len0 == gm0@.nodes@.len(),
            id.0 < mq.nodes@.len(),
        ensures
            x == lift_map(gm0@, pref@)(id),
        {
            if id.0 >= len0 {
                None
            } else {
                proof {
                    assert(mq.nodes@[id.0 as int] == gm0@.nodes@[id.0 as int]);
                }
                match mq.node(id) {
                    Node::Ref(reference) => find_stand_in(pref, *reference),
                    Node::Call(c) => if c.inputs.is_some() {
                        Some(id)
                    } else {
                        None
                    },
                    _ => None,
                }
            }
        };
    proof {
        assert forall|x: NodeId| #[trigger] g(x) is Some implies g(x).unwrap().0 < bound by {
            if x.0 < m0.nodes@.len() {
                if let Node::Ref(rr) = m0.at(x) {
                    lemma_stand_in_member(gp, rr, 0);
                    let q = choose|q: int| 0 <= q < gp.len() && (#[trigger] gp[q]).1 == g(x).unwrap();
                    assert(gp[q] == pairs@[q]);
                }
            }
        }
        assert(leaf_map_ok(f, mm, bound, g)) by {
            assert forall|mq: Module, id: NodeId|
                mq.wf() && mq.extends(&mm) && id.0 < bound implies call_requires(f, (&mq, id)) by {
                crate::term::lemma_extends_trans(m0, mm, mq);
            }
            assert forall|mq: Module, id: NodeId, x: Option<NodeId>|
                mq.extends(&mm) && id.0 < bound && call_ensures(f, (&mq, id), x) implies x == g(id) by {
                crate::term::lemma_extends_trans(m0, mm, mq);
            }
        }
    }
    let fbody = map_tree(m, body, &f, Ghost(bound), Ghost(g));
    let ghost mf = *m;
    let fsym = m.intern("functionof");
    let ghost ins = inputs@;
    let mut fargs: Vec<NodeId> = Vec::new();
    fargs.push(fbody);
    let call = Call { head: CallHead::Builtin(fsym), args: fargs, named: Vec::new(), inputs: Some(Inputs::Spec(inputs)) };
    proof {
        assert(crate::ir::call_children(call) =~= seq![fbody]);
        assert(crate::ir::node_wf(Node::Call(call), m.nodes@.len() as int, m.symbols@.len()));
    }
    let function = m.add_node(Node::Call(call));
    let ghost mfn = *m;
    args.insert(0, function);
    let mapped = build_call(m, "broadcast", args.as_slice());
    let ghost mb2 = *m;
    let mut sargs: Vec<NodeId> = Vec::new();
    sargs.push(mapped);
    let r = build_call(m, "sum", sargs.as_slice());
    proof {
        crate::term::lemma_extends_trans(m0, mm, mf);
        crate::term::lemma_extends_trans(mm, mf, *m);
        crate::term::lemma_extends_trans(m0, mm, *m);
        crate::term::lemma_extends_trans(mf, mfn, *m);
        assert(args@ =~= seq![function] + args0 + actuals);
        assert(sargs@ =~= seq![mapped]);
        crate::disintegrate::lemma_plain_call_stable(mb2, *m, mapped, "broadcast"@, seq![function] + args0 + actuals);
        assert(m.nodes@[function.0 as int] == mfn.nodes@[function.0 as int]);
        crate::term::lemma_term_stable(mf, *m, fbody);
        crate::term::lemma_rewrite_stable(mm, *m, body, g);
        assert forall|k: int|
            0 <= k < lifts.len() implies {
                &&& (#[trigger] gp[k]).0 == lifts[k].0
                &&& cell_point(m0, *m, gp[k].1, ins[in0.len() + k].1, ins[in0.len() + k].0, capture_type(m0, lifts[k]))
                &&& vector_of_ref(*m, actuals[k], lifts[k].0, capture_type(m0, lifts[k]))
            } by {
            assert(ins[in0.len() + k].0.0 < mm.symbols@.len());
            lemma_cell_point_stable(m0, mm, *m, gp[k].1, ins[in0.len() + k].1, ins[in0.len() + k].0, capture_type(m0, lifts[k]));
            assert(actuals[k].0 < mm.nodes@.len()) by {
                assert(args0.len() + k < (args0 + actuals).len());
                assert((args0 + actuals)[args0.len() + k] == actuals[k]);
            }
            lemma_vector_of_ref_stable(mm, *m, actuals[k], lifts[k].0, capture_type(m0, lifts[k]));
        }
        assert(shared_density_parts(m0, *m, body, in0, args0, r, mapped, function, fbody, ins, actuals, gp));
    }
    r
}


// ---------------------------------------------------------------------------
// A broadcast kernel applied at one cell
// ---------------------------------------------------------------------------

/// The keyword arguments among `named` that name `name`.
pub open spec fn keyword_hits(named: Seq<(Symbol, NodeId)>, name: Symbol) -> Seq<(Symbol, NodeId)> {
    named.filter(|p: (Symbol, NodeId)| p.0 == name)
}

/// The value bound to kernel input `i`: its positional argument when no
/// keyword names the input, else its only keyword argument.
pub open spec fn bound_value(pos: Seq<NodeId>, named: Seq<(Symbol, NodeId)>, names: Seq<Symbol>, i: int) -> Option<NodeId> {
    let hits = keyword_hits(named, names[i]);
    if i < pos.len() {
        if hits.len() == 0 {
            Some(pos[i])
        } else {
            None
        }
    } else if hits.len() == 1 {
        Some(hits[0].1)
    } else {
        None
    }
}

/// The arguments bind each kernel input exactly once: no positional
/// argument to a keyword-only boundary, as many arguments as inputs, and
/// each input bound by one of them.
pub open spec fn binds_once(auto: bool, pos: Seq<NodeId>, named: Seq<(Symbol, NodeId)>, names: Seq<Symbol>) -> bool {
    &&& !(auto && pos.len() > 0)
    &&& pos.len() + named.len() == names.len()
    &&& forall|i: int| 0 <= i < names.len() ==> #[trigger] bound_value(pos, named, names, i) is Some
}

/// The values bound to the kernel inputs, in input order.
pub open spec fn bound_values(pos: Seq<NodeId>, named: Seq<(Symbol, NodeId)>, names: Seq<Symbol>) -> Seq<NodeId> {
    Seq::new(names.len(), |i: int| bound_value(pos, named, names, i).unwrap())
}

/// A kernel's arguments are taken in the order of its inputs: where the
/// arguments bind each input once, the value bound to the `i`-th input is the
/// `i`-th positional argument when there is one (and no keyword names that
/// input), else the one keyword argument named after it.
pub proof fn law_kernel_args_follow_input_order(
    auto: bool,
    pos: Seq<NodeId>,
    named: Seq<(Symbol, NodeId)>,
    names: Seq<Symbol>,
    i: int,
)
    requires
        binds_once(auto, pos, named, names),
        0 <= i < names.len(),
    ensures
        i < pos.len() ==> keyword_hits(named, names[i]).len() == 0 && bound_values(pos, named, names)[i] == pos[i],
        i >= pos.len() ==> keyword_hits(named, names[i]).len() == 1 && bound_values(pos, named, names)[i]
            == keyword_hits(named, names[i])[0].1,
{
    assert(bound_value(pos, named, names, i) is Some);
}

/// The type an argument carries: its own, else that of what it resolves to.
pub open spec fn arg_type(m: Module, v: NodeId) -> Option<Type> {
    match m.types@[v.0 as int] {
        Some(t) => Some(t),
        None => m.types@[chain_spec(m, v, None, m.bindings@.len() as nat).0.0 as int],
    }
}

/// An argument varies by cell: it is typed as an array or a table.
pub open spec fn cellwise(m: Module, v: NodeId) -> bool {
    arg_type(m, v) matches Some(Type::Array { .. }) || arg_type(m, v) matches Some(Type::Table { .. })
}

/// How many boundary inputs the cell of `v` takes.
pub open spec fn cell_width(m: Module, v: NodeId) -> nat {
    match values_type(m, v) {
        Some(Type::Array { .. }) => 1,
        Some(Type::Table { columns }) => columns@.len(),
        _ => 0,
    }
}

/// The boundary inputs the cells of the first `i` values take.
pub open spec fn cell_offset(m: Module, vs: Seq<NodeId>, i: nat) -> nat
    decreases i,
{
    if i == 0 || i > vs.len() {
        0
    } else {
        cell_offset(m, vs, (i - 1) as nat) + if cellwise(m, vs[i - 1]) {
            cell_width(m, vs[i - 1])
        } else {
            0
        }
    }
}

/// The first value, from `k` on, that varies by cell but cannot be
/// broadcast.
pub open spec fn first_unbroadcastable(m: Module, vs: Seq<NodeId>, k: nat) -> Option<nat>
    decreases vs.len() - k,
{
    if k >= vs.len() {
        None
    } else if cellwise(m, vs[k as int]) && !broadcastable(values_type(m, vs[k as int])) {
        Some(k)
    } else {
        first_unbroadcastable(m, vs, k + 1)
    }
}

/// Every table type of the arena names interned columns.
pub open spec fn table_types_interned(m: Module) -> bool {
    forall|i: int|
        0 <= i < m.nodes@.len() ==> (#[trigger] m.types@[i] matches Some(Type::Table { columns }) ==> forall|k: int|
            0 <= k < columns@.len() ==> (#[trigger] columns@[k]).0.0 < m.symbols@.len())
}

pub open spec fn binding_refusal_reason() -> Seq<char> {
    "broadcast arguments must bind each kernel input once"@
}

/// What [`kernel_cell_application`] builds: the application
/// `head(input = arg, …)` of the kernel with one keyword argument per input,
/// each the bound value, or, for a value that varies by cell, its cell
/// point (see [`cell_ok`]), whose boundary inputs and arguments follow those
/// of the values before it.
pub open spec fn cell_application(
    m0: Module,
    m: Module,
    head: NodeId,
    vs: Seq<NodeId>,
    names: Seq<Symbol>,
    app: NodeId,
    ins: Seq<(Symbol, Ref)>,
    args: Seq<NodeId>,
) -> bool {
    &&& ins.len() == cell_offset(m0, vs, vs.len())
    &&& args.len() == cell_offset(m0, vs, vs.len())
    &&& app.0 < m.nodes@.len()
    &&& match m.at(app) {
        Node::Call(c) => {
            &&& c.head == CallHead::User(head)
            &&& c.args@.len() == 0
            &&& c.inputs is None
            &&& c.named@.len() == vs.len()
            &&& forall|i: int|
                0 <= i < vs.len() ==> {
                    &&& (#[trigger] c.named@[i]).kind == NamedKind::Kwarg
                    &&& c.named@[i].name == names[i]
                    &&& if cellwise(m0, vs[i]) {
                        &&& broadcastable(values_type(m0, vs[i]))
                        &&& cell_ok(
                            m0,
                            m,
                            vs[i],
                            c.named@[i].value,
                            ins.subrange(0, cell_offset(m0, vs, i as nat) as int),
                            ins.subrange(0, cell_offset(m0, vs, (i + 1) as nat) as int),
                            args.subrange(0, cell_offset(m0, vs, i as nat) as int),
                            args.subrange(0, cell_offset(m0, vs, (i + 1) as nat) as int),
                        )
                    } else {
                        c.named@[i].value == vs[i]
                    }
                }
        },
        _ => false,
    }
}


pub proof fn lemma_values_type_rebase(m0: Module, mi: Module, v: NodeId)
    requires
        m0.wf(),
        mi.wf(),
        mi.extends(&m0),
        mi.bindings@ == m0.bindings@,
        v.0 < m0.nodes@.len(),
    ensures
        values_type(mi, v) == values_type(m0, v),
        resolve_one_spec(mi, v) == resolve_one_spec(m0, v),
        resolve_one_spec(m0, v).0.0 < m0.nodes@.len(),
{
    assert(mi.nodes@[v.0 as int] == m0.nodes@[v.0 as int]);
    assert(mi.types@[v.0 as int] == m0.types@[v.0 as int]);
    assert forall|b: BindingId| #[trigger] mi.live(b) == m0.live(b) && (mi.live(b) ==> mi.bind(b) == m0.bind(b)) by {}
    if let Some(name) = crate::shape::self_ref_name(m0, v) {
        if mi.has_binding_named(name) {
            let b = choose|b: BindingId| mi.live(b) && #[trigger] mi.bind(b).name == name;
            assert(m0.live(b) && m0.bind(b).name == name);
        }
        if m0.has_binding_named(name) {
            let b = choose|b: BindingId| m0.live(b) && #[trigger] m0.bind(b).name == name;
            assert(mi.live(b) && mi.bind(b).name == name);
        }
        assert(mi.has_binding_named(name) == m0.has_binding_named(name));
        if m0.has_binding_named(name) {
            let b = choose|b: BindingId| m0.live(b) && #[trigger] m0.bind(b).name == name;
            assert(m0.binding_wf(m0.bind(b)));
            assert(mi.types@[m0.bind(b).rhs.0 as int] == m0.types@[m0.bind(b).rhs.0 as int]);
        }
    }
}

proof fn lemma_cell_point_rebase(m0: Module, mi: Module, m: Module, point: NodeId, rf: Ref, label: Symbol, tv: TypeV)
    requires
        m0.wf(),
        mi.extends(&m0),
        cell_point(mi, m, point, rf, label, tv),
    ensures
        cell_point(m0, m, point, rf, label, tv),
{
    let n = choose|n: nat|
        mi.nodes@.len() <= n && !#[trigger] local_named(mi, point_text(n)) && m.name_of(rf.name) == point_text(n)
            && m.name_of(label) == label_text(n);
    assert(!local_named(m0, point_text(n))) by {
        if local_named(m0, point_text(n)) {
            lemma_local_named_grow(m0, mi, point_text(n));
        }
    }
}

proof fn lemma_column_arg_rebase(m0: Module, mi: Module, m: Module, values: NodeId, name: Symbol, col: NodeId)
    requires
        m0.wf(),
        mi.wf(),
        mi.extends(&m0),
        mi.bindings@ == m0.bindings@,
        values.0 < m0.nodes@.len(),
        name.0 < m0.symbols@.len(),
        column_arg(mi, m, values, name, col),
    ensures
        column_arg(m0, m, values, name, col),
{
    lemma_values_type_rebase(m0, mi, values);
    let resolved = resolve_one_spec(m0, values).0;
    assert(mi.nodes@[resolved.0 as int] == m0.nodes@[resolved.0 as int]);
    assert(node_wf(m0.nodes@[resolved.0 as int], resolved.0 as int, m0.symbols@.len()));
    if let Node::Call(c) = m0.at(resolved) {
        if let CallHead::Builtin(h) = c.head {
            assert(mi.name_of(h) == m0.name_of(h));
        }
    }
    assert(crate::canon::flatten::builtin_call_named(mi, resolved, "table"@)
        == crate::canon::flatten::builtin_call_named(m0, resolved, "table"@));
    assert(mi.name_of(name) == m0.name_of(name));
}

/// What a cell point says of the arena as given holds of any older arena
/// with the same bindings, and keeps holding as the arena grows.
proof fn lemma_cell_ok_rebase(
    m0: Module,
    mi: Module,
    m1: Module,
    m2: Module,
    values: NodeId,
    point: NodeId,
    in0: Seq<(Symbol, Ref)>,
    ins: Seq<(Symbol, Ref)>,
    args0: Seq<NodeId>,
    args: Seq<NodeId>,
)
    requires
        m0.wf(),
        mi.wf(),
        mi.extends(&m0),
        mi.bindings@ == m0.bindings@,
        m1.wf(),
        m2.extends(&m1),
        values.0 < m0.nodes@.len(),
        point.0 < m1.nodes@.len(),
        table_types_interned(m0),
        forall|k: int| 0 <= k < ins.len() ==> (#[trigger] ins[k]).0.0 < m1.symbols@.len(),
        forall|k: int| 0 <= k < args.len() ==> (#[trigger] args[k]).0 < m1.nodes@.len(),
        cell_ok(mi, m1, values, point, in0, ins, args0, args),
    ensures
        cell_ok(m0, m2, values, point, in0, ins, args0, args),
{
    lemma_values_type_rebase(m0, mi, values);
    assert(m2.nodes@[point.0 as int] == m1.nodes@[point.0 as int]);
    match values_type(m0, values) {
        Some(Type::Array { elem, .. }) => {
            let (label, rf) = choose|label: Symbol, rf: Ref|
                {
                    &&& ins == in0.push((label, rf))
                    &&& args == args0.push(values)
                    &&& #[trigger] cell_point(mi, m1, point, rf, label, type_view(*elem))
                };
            assert(ins[ins.len() - 1] == (label, rf));
            lemma_cell_point_stable(mi, m1, m2, point, rf, label, type_view(*elem));
            lemma_cell_point_rebase(m0, mi, m2, point, rf, label, type_view(*elem));
        },
        Some(Type::Table { columns }) => {
            let resolved = resolve_one_spec(m0, values).0;
            let src = if m0.types@[values.0 as int] is Some { values } else { resolved };
            assert(m0.types@[src.0 as int] == Some(Type::Table { columns }));
            assert(forall|k: int| 0 <= k < columns@.len() ==> (#[trigger] columns@[k]).0.0 < m0.symbols@.len());
            if let Node::Call(c) = m1.at(point) {
                if let CallHead::Builtin(h) = c.head {
                    assert(node_wf(m1.nodes@[point.0 as int], point.0 as int, m1.symbols@.len()));
                    assert(m2.name_of(h) == m1.name_of(h));
                }
                assert forall|i: int| 0 <= i < columns@.len() implies {
                    &&& cell_point(
                        m0,
                        m2,
                        c.named@[i].value,
                        ins[in0.len() + i].1,
                        ins[in0.len() + i].0,
                        type_view(columns@[i].1),
                    )
                    &&& column_arg(m0, m2, values, columns@[i].0, args[args0.len() + i])
                } by {
                    assert(cell_point(
                        mi,
                        m1,
                        c.named@[i].value,
                        ins[in0.len() + i].1,
                        ins[in0.len() + i].0,
                        type_view(columns@[i].1),
                    ));
                    lemma_cell_point_stable(mi, m1, m2, c.named@[i].value, ins[in0.len() + i].1, ins[in0.len() + i].0, type_view(columns@[i].1));
                    lemma_cell_point_rebase(m0, mi, m2, c.named@[i].value, ins[in0.len() + i].1, ins[in0.len() + i].0, type_view(columns@[i].1));
                    assert(column_arg(mi, m1, values, columns@[i].0, args[args0.len() + i]));
                    lemma_column_arg_stable(mi, m1, m2, values, columns@[i].0, args[args0.len() + i]);
                    lemma_column_arg_rebase(m0, mi, m2, values, columns@[i].0, args[args0.len() + i]);
                }
            }
        },
        _ => {},
    }
}


proof fn lemma_chain_rebase(m0: Module, mi: Module, v: NodeId, last: Option<BindingId>, fuel: nat)
    requires
        m0.wf(),
        mi.wf(),
        mi.extends(&m0),
        mi.bindings@ == m0.bindings@,
        v.0 < m0.nodes@.len(),
    ensures
        chain_spec(mi, v, last, fuel) == chain_spec(m0, v, last, fuel),
        chain_spec(m0, v, last, fuel).0.0 < m0.nodes@.len(),
    decreases fuel,
{
    lemma_values_type_rebase(m0, mi, v);
    let (next, b) = resolve_one_spec(m0, v);
    if fuel > 0 && b is Some {
        lemma_chain_rebase(m0, mi, next, b, (fuel - 1) as nat);
    }
}

/// The value bound to kernel input `i` (see [`bound_value`]).
fn bind_input(pos: &Vec<NodeId>, named: &Vec<(Symbol, NodeId)>, names: &Vec<Symbol>, i: usize) -> (r: Option<NodeId>)
    requires
        i < names@.len(),
    ensures
        r == bound_value(pos@, named@, names@, i as int),
{
    let name = names[i];
    let ghost pred = |p: (Symbol, NodeId)| p.0 == name;
    proof {
        assert(pred =~= (|p: (Symbol, NodeId)| p.0 == names@[i as int]));
        assert(keyword_hits(named@, names@[i as int]) == named@.filter(pred));
    }
    let mut first: Option<NodeId> = None;
    let mut count: usize = 0;
    let mut k: usize = 0;
    while k < named.len()
        invariant
            pred == (|p: (Symbol, NodeId)| p.0 == name),
            k <= named@.len(),
            count == named@.subrange(0, k as int).filter(pred).len(),
            count <= k,
            first == (if count > 0 {
                Some(named@.subrange(0, k as int).filter(pred)[0].1)
            } else {
                None
            }),
        decreases named@.len() - k,
    {
        let ghost before = named@.subrange(0, k as int).filter(pred);
        proof {
            named@.subrange(0, k as int).lemma_filter_push(named@[k as int], pred);
            assert(named@.subrange(0, k as int + 1) =~= named@.subrange(0, k as int).push(named@[k as int]));
        }
        if named[k].0 == name {
            if count == 0 {
                first = Some(named[k].1);
            }
            count += 1;
            proof {
                assert(named@.subrange(0, k as int + 1).filter(pred) == before.push(named@[k as int]));
                if count > 1 {
                    assert(before.push(named@[k as int])[0] == before[0]);
                }
            }
        }
        k += 1;
    }
    proof {
        assert(named@.subrange(0, named@.len() as int) =~= named@);
        assert(names@[i as int] == name);
        assert(keyword_hits(named@, names@[i as int]) == named@.filter(pred));
    }
    if i < pos.len() {
        if count == 0 {
            Some(pos[i])
        } else {
            None
        }
    } else if count == 1 {
        first
    } else {
        None
    }
}

/// Whether argument `v` varies by cell (see [`cellwise`]).
fn varies_by_cell(m: &Module, v: NodeId) -> (b: bool)
    requires
        m.wf(),
        v.0 < m.nodes@.len(),
    ensures
        b == cellwise(*m, v),
{
    let (resolved, _) = crate::shape::resolve_ref_chain(m, v);
    let t = match m.type_of(v) {
        Some(t) => Some(t),
        None => m.type_of(resolved),
    };
    match t {
        Some(Type::Array { .. }) => true,
        Some(Type::Table { .. }) => true,
        _ => false,
    }
}


/// Apply the broadcast kernel `head` at one cell: bind each kernel input
/// (named by `names`; keyword-only when `auto`) to its positional argument
/// or its one keyword argument, replace each argument that varies by cell
/// by its cell point (see [`cell_input`]), and build the application
/// `head(input = arg, …)`. Returns the application with the boundary inputs
/// and arguments of the cells (see [`cell_application`]), to be lowered as
/// a density at the cell and, when some argument varies, closed by
/// [`broadcast_density_sum`]. Refuses arguments that do not bind each input
/// exactly once, and the first varying argument that cannot be broadcast.
pub fn kernel_cell_application(
    m: &mut Module,
    head: NodeId,
    auto: bool,
    names: &Vec<Symbol>,
    positional: &Vec<NodeId>,
    named: &Vec<(Symbol, NodeId)>,
) -> (r: Result<(NodeId, Vec<(Symbol, Ref)>, Vec<NodeId>), RefuseError>)
    requires
        old(m).wf(),
        head.0 < old(m).nodes@.len(),
        table_types_interned(*old(m)),
        forall|k: int| 0 <= k < names@.len() ==> (#[trigger] names@[k]).0 < old(m).symbols@.len(),
        forall|k: int| 0 <= k < positional@.len() ==> (#[trigger] positional@[k]).0 < old(m).nodes@.len(),
        forall|k: int| 0 <= k < named@.len() ==> (#[trigger] named@[k]).1.0 < old(m).nodes@.len(),
    ensures
        final(m).wf(),
        final(m).extends(old(m)),
        final(m).bindings@ == old(m).bindings@,
        match r {
            Ok((app, ins, args)) => {
                &&& binds_once(auto, positional@, named@, names@)
                &&& first_unbroadcastable(*old(m), bound_values(positional@, named@, names@), 0) is None
                &&& cell_application(*old(m), *final(m), head, bound_values(positional@, named@, names@), names@, app, ins@, args@)
            },
            Err(e) => if !binds_once(auto, positional@, named@, names@) {
                &&& e.node == head
                &&& e.construct@ == construct_name(*old(m), head)
                &&& e.reason@ == binding_refusal_reason()
                &&& *final(m) == *old(m)
            } else {
                let vs = bound_values(positional@, named@, names@);
                &&& first_unbroadcastable(*old(m), vs, 0) matches Some(k)
                &&& e.node == vs[k as int]
                &&& e.construct@ == construct_name(*old(m), vs[k as int])
                &&& e.reason@ == cell_refusal_reason()
            },
        },
{
    let ghost m0 = *m;
    proof {
        reveal_strlit("broadcast arguments must bind each kernel input once");
    }
    if (auto && positional.len() > 0) || positional.len() > names.len() || named.len() != names.len() - positional.len() {
        return Err(crate::shape::refuse(head, m, "broadcast arguments must bind each kernel input once"));
    }
    let mut bound: Vec<NodeId> = Vec::new();
    let mut i: usize = 0;
    while i < names.len()
        invariant
            *m == m0,
            m0.wf(),
            head.0 < m0.nodes@.len(),
            i <= names@.len(),
            bound@.len() == i,
            forall|j: int| 0 <= j < i ==> #[trigger] bound_value(positional@, named@, names@, j) == Some(bound@[j]),
        decreases names@.len() - i,
    {
        match bind_input(positional, named, names, i) {
            Some(v) => {
                bound.push(v);
            },
            None => {
                proof {
                    assert(bound_value(positional@, named@, names@, i as int) is None);
                    assert(!binds_once(auto, positional@, named@, names@));
                }
                return Err(crate::shape::refuse(head, m, "broadcast arguments must bind each kernel input once"));
            },
        }
        i += 1;
    }
    let ghost vs = bound@;
    proof {
        assert(binds_once(auto, positional@, named@, names@));
        assert(vs =~= bound_values(positional@, named@, names@));
        assert forall|j: int| 0 <= j < vs.len() implies (#[trigger] vs[j]).0 < m0.nodes@.len() by {
            assert(bound_value(positional@, named@, names@, j) == Some(vs[j]));
            if j >= positional@.len() {
                let hits = keyword_hits(named@, names@[j]);
                assert(hits.len() == 1);
                named@.lemma_filter_contains_rev(|p: (Symbol, NodeId)| p.0 == names@[j], hits[0]);
            }
        }
    }
    let mut inputs: Vec<(Symbol, Ref)> = Vec::new();
    let mut args: Vec<NodeId> = Vec::new();
    let mut kw: Vec<NamedArg> = Vec::new();
    let mut i: usize = 0;
    while i < bound.len()
        invariant
            m0 == *old(m),
            binds_once(auto, positional@, named@, names@),
            vs == bound_values(positional@, named@, names@),
            m0.wf(),
            m.wf(),
            m.extends(&m0),
            m.bindings@ == m0.bindings@,
            table_types_interned(m0),
            head.0 < m0.nodes@.len(),
            bound@ == vs,
            names@.len() == vs.len(),
            forall|k: int| 0 <= k < names@.len() ==> (#[trigger] names@[k]).0 < m0.symbols@.len(),
            forall|j: int| 0 <= j < vs.len() ==> (#[trigger] vs[j]).0 < m0.nodes@.len(),
            i <= vs.len(),
            first_unbroadcastable(m0, vs, 0) == first_unbroadcastable(m0, vs, i as nat),
            inputs@.len() == cell_offset(m0, vs, i as nat),
            args@.len() == cell_offset(m0, vs, i as nat),
            forall|k: int| 0 <= k < inputs@.len() ==> (#[trigger] inputs@[k]).0.0 < m.symbols@.len() && inputs@[k].1.name.0 < m.symbols@.len(),
            forall|k: int| 0 <= k < args@.len() ==> (#[trigger] args@[k]).0 < m.nodes@.len(),
            kw@.len() == i,
            forall|j: int|
                0 <= j < i ==> {
                    &&& (#[trigger] kw@[j]).kind == NamedKind::Kwarg
                    &&& kw@[j].name == names@[j]
                    &&& kw@[j].value.0 < m.nodes@.len()
                    &&& if cellwise(m0, vs[j]) {
                        &&& broadcastable(values_type(m0, vs[j]))
                        &&& cell_ok(
                            m0,
                            *m,
                            vs[j],
                            kw@[j].value,
                            inputs@.subrange(0, cell_offset(m0, vs, j as nat) as int),
                            inputs@.subrange(0, cell_offset(m0, vs, (j + 1) as nat) as int),
                            args@.subrange(0, cell_offset(m0, vs, j as nat) as int),
                            args@.subrange(0, cell_offset(m0, vs, (j + 1) as nat) as int),
                        )
                    } else {
                        kw@[j].value == vs[j]
                    }
                },
        decreases vs.len() - i,
    {
        let value = bound[i];
        let ghost mi = *m;
        let ghost ib = inputs@;
        let ghost ab = args@;
        let ghost kb = kw@;
        proof {
            lemma_chain_rebase(m0, mi, value, None, m0.bindings@.len() as nat);
            assert(mi.types@[value.0 as int] == m0.types@[value.0 as int]);
            let t = chain_spec(m0, value, None, m0.bindings@.len() as nat).0;
            assert(mi.types@[t.0 as int] == m0.types@[t.0 as int]);
            lemma_values_type_rebase(m0, mi, value);
        }
        let varies = varies_by_cell(m, value);
        let arg = if varies {
            proof {
                assert(values_type(mi, value) == values_type(m0, value));
                let r1 = resolve_one_spec(m0, value).0;
                assert(mi.types@[r1.0 as int] == m0.types@[r1.0 as int]);
                if let Some(Type::Table { columns }) = values_type(m0, value) {
                    let src = if m0.types@[value.0 as int] is Some { value } else { r1 };
                    assert(m0.types@[src.0 as int] == Some(Type::Table { columns }));
                }
            }
            match cell_input(m, value, &mut inputs, &mut args) {
                Ok(p) => p,
                Err(e) => {
                    proof {
                        assert(*m == mi);
                        assert(cellwise(m0, value));
                        assert(first_unbroadcastable(m0, vs, i as nat) == Some(i as nat));
                        crate::density::lemma_construct_name_stable(m0, mi, value);
                    }
                    return Err(e);
                },
            }
        } else {
            value
        };
        kw.push(NamedArg { kind: NamedKind::Kwarg, name: names[i], value: arg });
        proof {
            assert(first_unbroadcastable(m0, vs, i as nat) == first_unbroadcastable(m0, vs, (i + 1) as nat));
            let oi = cell_offset(m0, vs, i as nat);
            let oi1 = cell_offset(m0, vs, (i + 1) as nat);
            if varies {
                assert(values_type(mi, value) == values_type(m0, value));
                assert(inputs@.len() == oi1) by {
                    match values_type(m0, value) {
                        Some(Type::Table { columns }) => {},
                        _ => {},
                    }
                }
                assert(args@.len() == oi1) by {
                    match values_type(m0, value) {
                        Some(Type::Table { columns }) => {},
                        _ => {},
                    }
                }
                assert(inputs@.subrange(0, oi as int) == ib) by {
                    match values_type(m0, value) {
                        Some(Type::Array { .. }) => {
                            assert(inputs@.subrange(0, oi as int) =~= ib);
                        },
                        _ => {},
                    }
                }
                assert(args@.subrange(0, oi as int) == ab) by {
                    match values_type(m0, value) {
                        Some(Type::Array { .. }) => {
                            assert(args@.subrange(0, oi as int) =~= ab);
                        },
                        _ => {},
                    }
                }
                assert(inputs@.subrange(0, oi1 as int) =~= inputs@);
                assert(args@.subrange(0, oi1 as int) =~= args@);
                lemma_cell_ok_rebase(m0, mi, *m, *m, value, arg, ib, inputs@, ab, args@);
            } else {
                assert(inputs@ == ib);
                assert(args@ == ab);
            }
            assert forall|j: int|
                0 <= j < i + 1 implies {
                    &&& (#[trigger] kw@[j]).kind == NamedKind::Kwarg
                    &&& kw@[j].name == names@[j]
                    &&& kw@[j].value.0 < m.nodes@.len()
                    &&& if cellwise(m0, vs[j]) {
                        &&& broadcastable(values_type(m0, vs[j]))
                        &&& cell_ok(
                            m0,
                            *m,
                            vs[j],
                            kw@[j].value,
                            inputs@.subrange(0, cell_offset(m0, vs, j as nat) as int),
                            inputs@.subrange(0, cell_offset(m0, vs, (j + 1) as nat) as int),
                            args@.subrange(0, cell_offset(m0, vs, j as nat) as int),
                            args@.subrange(0, cell_offset(m0, vs, (j + 1) as nat) as int),
                        )
                    } else {
                        kw@[j].value == vs[j]
                    }
                } by {
                if j < i {
                    assert(kw@[j] == kb[j]);
                    lemma_offset_mono(m0, vs, (j + 1) as nat, i as nat);
                    lemma_offset_mono(m0, vs, j as nat, (j + 1) as nat);
                    if cellwise(m0, vs[j]) {
                        let a = cell_offset(m0, vs, j as nat) as int;
                        let b = cell_offset(m0, vs, (j + 1) as nat) as int;
                        assert(inputs@.subrange(0, a) =~= ib.subrange(0, a));
                        assert(inputs@.subrange(0, b) =~= ib.subrange(0, b));
                        assert(args@.subrange(0, a) =~= ab.subrange(0, a));
                        assert(args@.subrange(0, b) =~= ab.subrange(0, b));
                        lemma_cell_ok_rebase(m0, m0, mi, *m, vs[j], kb[j].value, ib.subrange(0, a), ib.subrange(0, b), ab.subrange(0, a), ab.subrange(0, b));
                    }
                }
            }
        }
        i += 1;
    }
    let call = Call { head: CallHead::User(head), args: Vec::new(), named: kw, inputs: None };
    proof {
        assert(crate::ir::call_children(call) =~= seq![head] + call.named@.map_values(|na: NamedArg| na.value));
        assert(crate::ir::node_wf(Node::Call(call), m.nodes@.len() as int, m.symbols@.len()));
    }
    let ghost mb = *m;
    let app = m.add_node(Node::Call(call));
    proof {
        assert forall|j: int| 0 <= j < vs.len() && cellwise(m0, vs[j]) implies cell_ok(
            m0,
            *m,
            vs[j],
            call.named@[j].value,
            inputs@.subrange(0, cell_offset(m0, vs, j as nat) as int),
            inputs@.subrange(0, cell_offset(m0, vs, (j + 1) as nat) as int),
            args@.subrange(0, cell_offset(m0, vs, j as nat) as int),
            args@.subrange(0, cell_offset(m0, vs, (j + 1) as nat) as int),
        ) by {
            assert(call.named@[j] == kw@[j]);
            lemma_offset_mono(m0, vs, (j + 1) as nat, vs.len());
            lemma_offset_mono(m0, vs, j as nat, (j + 1) as nat);
            lemma_cell_ok_rebase(
                m0,
                m0,
                mb,
                *m,
                vs[j],
                kw@[j].value,
                inputs@.subrange(0, cell_offset(m0, vs, j as nat) as int),
                inputs@.subrange(0, cell_offset(m0, vs, (j + 1) as nat) as int),
                args@.subrange(0, cell_offset(m0, vs, j as nat) as int),
                args@.subrange(0, cell_offset(m0, vs, (j + 1) as nat) as int),
            );
        }
        assert(cell_application(m0, *m, head, vs, names@, app, inputs@, args@));
    }
    Ok((app, inputs, args))
}

proof fn lemma_offset_mono(m: Module, vs: Seq<NodeId>, a: nat, b: nat)
    requires
        a <= b <= vs.len(),
    ensures
        cell_offset(m, vs, a) <= cell_offset(m, vs, b),
    decreases b - a,
{
    if a < b {
        lemma_offset_mono(m, vs, a, (b - 1) as nat);
    }
}

} // verus!
