//! The density of a kernel broadcast `broadcast(K, data…)`: the per-cell
//! constructor records are zipped with the observations and scored cell by
//! cell, `sum(broadcast(builtin_logdensityof, K, records, obs))`.

use vstd::prelude::*;
use crate::density::plain_args;
use crate::disintegrate::plain_call;
use crate::ir::{node_wf, Call, CallHead, Module, NamedArg, NamedKind, Node, NodeId, RefNs, Symbol};
use crate::projection::refused;
use crate::refuse::RefuseError;
use crate::shape::{build_call, is_builtin_named};

verus! {

/// Node `t` is `sum(broadcast(builtin_logdensityof, K, kernel_input, obs))`
/// with `K` the constructor constant `ctor`.
pub open spec fn broadcast_density_at(m: Module, t: NodeId, ctor: Symbol, kernel_input: NodeId, obs: NodeId) -> bool {
    &&& t.0 < m.nodes@.len()
    &&& plain_args(m, t, "sum"@) matches Some(a) && a.len() == 1 && a[0].0 < m.nodes@.len() && (plain_args(
        m,
        a[0],
        "broadcast"@,
    ) matches Some(b) && b.len() == 4 && b[0].0 < m.nodes@.len() && b[1].0 < m.nodes@.len() && (m.at(b[0]) matches Node::Const(
        s,
    ) && m.name_of(s) == "builtin_logdensityof"@) && m.at(b[1]) == Node::Const(ctor) && b[2] == kernel_input && b[3]
        == obs)
}

/// Emit `sum(broadcast(builtin_logdensityof, K, kernel_input, obs))`, the
/// kernel-broadcast density over the per-cell constructor records
/// `kernel_input`.
pub fn emit_kernel_broadcast_density(m: &mut Module, ctor_sym: Symbol, kernel_input: NodeId, obs: NodeId) -> (r: NodeId)
    requires
        old(m).wf(),
        ctor_sym.0 < old(m).symbols@.len(),
        kernel_input.0 < old(m).nodes@.len(),
        obs.0 < old(m).nodes@.len(),
    ensures
        final(m).wf(),
        final(m).extends(old(m)),
        final(m).bindings@ == old(m).bindings@,
        crate::density::untyped_growth(*old(m), *final(m)),
        broadcast_density_at(*final(m), r, ctor_sym, kernel_input, obs),
{
    let broadcast_sym = m.intern("broadcast");
    let kernel = m.add_node(Node::Const(ctor_sym));
    let ldo_sym = m.intern("builtin_logdensityof");
    let ldo_head = m.add_node(Node::Const(ldo_sym));
    let mut args: Vec<NodeId> = Vec::new();
    args.push(ldo_head);
    args.push(kernel);
    args.push(kernel_input);
    args.push(obs);
    let call = Call { head: CallHead::Builtin(broadcast_sym), args, named: Vec::new(), inputs: None };
    proof {
        assert(crate::ir::call_children(call) =~= seq![ldo_head, kernel, kernel_input, obs]);
    }
    let per_cell = m.add_node(Node::Call(call));
    let ghost mp = *m;
    let mut sargs: Vec<NodeId> = Vec::new();
    sargs.push(per_cell);
    let t = build_call(m, "sum", sargs.as_slice());
    proof {
        assert(sargs@ =~= seq![per_cell]);
        assert(m.nodes@[per_cell.0 as int] == mp.nodes@[per_cell.0 as int]);
        assert(m.nodes@[ldo_head.0 as int] == mp.nodes@[ldo_head.0 as int]);
        assert(m.nodes@[kernel.0 as int] == mp.nodes@[kernel.0 as int]);
        assert(m.name_of(broadcast_sym) == mp.name_of(broadcast_sym));
        assert(m.name_of(ldo_sym) == mp.name_of(ldo_sym));
        assert(plain_call(*m, per_cell, "broadcast"@, seq![ldo_head, kernel, kernel_input, obs]));
    }
    t
}

/// The constructor a broadcast head names: a bare built-in constant, or a
/// member of a standard module.
pub open spec fn broadcast_head_ctor(m: Module, head: NodeId) -> Option<Symbol> {
    match m.at(head) {
        Node::Const(s) => Some(s),
        Node::Ref(r) => if r.ns is Module {
            Some(r.name)
        } else {
            None
        },
        _ => None,
    }
}

/// The per-cell record fields of a broadcast with positional data `pos` and
/// named data `named`: each positional argument named by the parameter in
/// its position, then each named argument under its own name.
pub open spec fn cell_fields(
    m: Module,
    pos: Seq<NodeId>,
    named: Seq<NamedArg>,
    params: Seq<Seq<char>>,
    fields: Seq<(Symbol, NodeId)>,
) -> bool {
    &&& fields.len() == pos.len() + named.len()
    &&& forall|i: int| 0 <= i < pos.len() ==> m.name_of((#[trigger] fields[i]).0) == params[i] && fields[i].1 == pos[i]
    &&& forall|j: int|
        0 <= j < named.len() ==> #[trigger] fields[pos.len() + j] == (named[j].name, named[j].value)
}

/// Node `ki` is `broadcast(record, f₁ = a₁, …)` over the keyword fields
/// `fields`: the array of per-cell constructor records.
pub open spec fn cell_records(m: Module, ki: NodeId, fields: Seq<(Symbol, NodeId)>) -> bool {
    &&& ki.0 < m.nodes@.len()
    &&& is_builtin_named(m, ki, "broadcast"@)
    &&& m.at(ki) matches Node::Call(c) && c.args@.len() == 1 && c.args@[0].0 < m.nodes@.len() && (m.at(
        c.args@[0],
    ) matches Node::Const(s) && m.name_of(s) == "record"@) && c.inputs is None && c.named@ == fields.map_values(
        |p: (Symbol, NodeId)| NamedArg { kind: NamedKind::Kwarg, name: p.0, value: p.1 },
    )
}

pub open spec fn value_broadcast_reason() -> Seq<char> {
    "broadcast head is not a distribution constructor (value-broadcast used as a measure)"@
}

pub open spec fn unknown_constructor_reason() -> Seq<char> {
    "broadcast head is not a known distribution constructor"@
}

pub open spec fn too_many_positional_reason() -> Seq<char> {
    "broadcast has more positional data-args than the constructor has parameters"@
}

/// What [`lower_broadcast_kernel`] makes of the measure
/// `broadcast(K, data…)` at `measure` of `m0` (the arena grown to `m`) scored
/// at `obs`, with `params` the parameter names of the constructor `K` names:
/// the kernel-broadcast density over the per-cell records of the data
/// ([`cell_records`], [`broadcast_density_at`]); refused when `measure` is no
/// broadcast, has no head, its head names no constructor, the constructor
/// is unknown, or there are more positional data than parameters.
pub open spec fn kernel_broadcast(
    m0: Module,
    m: Module,
    measure: NodeId,
    obs: NodeId,
    params: Option<Seq<Seq<char>>>,
    r: Result<NodeId, RefuseError>,
) -> bool {
    match crate::canon::flatten::builtin_call_named(m0, measure, "broadcast"@) {
        None => refused(m0, r, measure, "expected broadcast"@),
        Some(c) => if c.args@.len() == 0 {
            refused(m0, r, measure, "broadcast has no head argument"@)
        } else {
            match broadcast_head_ctor(m0, c.args@[0]) {
                None => refused(m0, r, measure, value_broadcast_reason()),
                Some(ctor) => match params {
                    None => refused(m0, r, measure, unknown_constructor_reason()),
                    Some(ps) => if c.args@.len() - 1 > ps.len() {
                        refused(m0, r, measure, too_many_positional_reason())
                    } else {
                        r matches Ok(t) && exists|ki: NodeId, fields: Seq<(Symbol, NodeId)>|
                            #[trigger] cell_records(m, ki, fields) && cell_fields(
                                m,
                                c.args@.subrange(1, c.args@.len() as int),
                                c.named@,
                                ps,
                                fields,
                            ) && broadcast_density_at(m, t, ctor, ki, obs)
                    },
                },
            }
        },
    }
}

/// Lower `logdensityof(broadcast(K, data…), obs)` for a kernel broadcast
/// (see [`kernel_broadcast`]); `params` are the parameter names of the
/// constructor the head names, if it is one.
pub fn lower_broadcast_kernel(
    m: &mut Module,
    measure: NodeId,
    obs: NodeId,
    params: &Option<Vec<String>>,
) -> (r: Result<NodeId, RefuseError>)
    requires
        old(m).wf(),
        measure.0 < old(m).nodes@.len(),
        obs.0 < old(m).nodes@.len(),
    ensures
        final(m).wf(),
        final(m).extends(old(m)),
        final(m).bindings@ == old(m).bindings@,
        crate::density::untyped_growth(*old(m), *final(m)),
        kernel_broadcast(*old(m), *final(m), measure, obs, crate::density::opt_strs(*params), r),
{
    let ghost m0 = *m;
    proof {
        assert(node_wf(m.nodes@[measure.0 as int], measure.0 as int, m.symbols@.len()));
    }
    let c = match crate::shape::expect_builtin_call(m, measure, "broadcast") {
        Some(c) => c,
        None => {
            return Err(crate::shape::refuse(measure, m, "expected broadcast"));
        },
    };
    if c.args.len() == 0 {
        return Err(crate::shape::refuse(measure, m, "broadcast has no head argument"));
    }
    let head = c.args[0];
    proof {
        assert(crate::ir::node_children(m.at(measure))[0] == c.args@[0]);
        assert(node_wf(m.nodes@[head.0 as int], head.0 as int, m.symbols@.len()));
        assert(c.head is Builtin);
    }
    let mut pos_args: Vec<NodeId> = Vec::new();
    let mut i: usize = 1;
    while i < c.args.len()
        invariant
            m.wf(),
            measure.0 < m.nodes@.len(),
            m.at(measure) == Node::Call(*c),
            c.head is Builtin,
            1 <= i <= c.args@.len(),
            pos_args@ == c.args@.subrange(1, i as int),
            forall|q: int| 0 <= q < pos_args@.len() ==> (#[trigger] pos_args@[q]).0 < m.nodes@.len(),
        decreases c.args@.len() - i,
    {
        proof {
            assert(node_wf(m.nodes@[measure.0 as int], measure.0 as int, m.symbols@.len()));
            assert(crate::ir::node_children(m.at(measure))[i as int] == c.args@[i as int]);
        }
        pos_args.push(c.args[i]);
        i += 1;
        proof {
            assert(pos_args@ =~= c.args@.subrange(1, i as int));
        }
    }
    let mut kw_args: Vec<(Symbol, NodeId)> = Vec::new();
    let mut j: usize = 0;
    while j < c.named.len()
        invariant
            m.wf(),
            measure.0 < m.nodes@.len(),
            m.at(measure) == Node::Call(*c),
            j <= c.named@.len(),
            kw_args@.len() == j,
            forall|q: int| 0 <= q < j ==> #[trigger] kw_args@[q] == (c.named@[q].name, c.named@[q].value),
            forall|q: int|
                0 <= q < kw_args@.len() ==> (#[trigger] kw_args@[q]).0.0 < m.symbols@.len() && kw_args@[q].1.0
                    < m.nodes@.len(),
        decreases c.named@.len() - j,
    {
        proof {
            assert(node_wf(m.nodes@[measure.0 as int], measure.0 as int, m.symbols@.len()));
            let off = crate::ir::call_children(*c).len() - c.named@.len();
            assert(crate::ir::node_children(m.at(measure))[off + j] == c.named@[j as int].value);
        }
        kw_args.push((c.named[j].name, c.named[j].value));
        j += 1;
    }
    let ctor_sym = match m.node(head) {
        Node::Const(sym) => *sym,
        Node::Ref(r) => {
            match r.ns {
                RefNs::Module(_) => r.name,
                _ => {
                    return Err(
                        crate::shape::refuse(
                            measure,
                            m,
                            "broadcast head is not a distribution constructor (value-broadcast used as a measure)",
                        ),
                    );
                },
            }
        },
        _ => {
            return Err(
                crate::shape::refuse(
                    measure,
                    m,
                    "broadcast head is not a distribution constructor (value-broadcast used as a measure)",
                ),
            );
        },
    };
    let param_names = match params {
        Some(ps) => ps,
        None => {
            return Err(crate::shape::refuse(measure, m, "broadcast head is not a known distribution constructor"));
        },
    };
    if pos_args.len() > param_names.len() {
        return Err(
            crate::shape::refuse(
                measure,
                m,
                "broadcast has more positional data-args than the constructor has parameters",
            ),
        );
    }
    let ghost ps = crate::disintegrate::strs_view(param_names@);
    let ghost pos = pos_args@;
    let mut fields: Vec<(Symbol, NodeId)> = Vec::new();
    let mut k: usize = 0;
    while k < pos_args.len()
        invariant
            m0.wf(),
            m.wf(),
            m.extends(&m0),
            m.bindings@ == m0.bindings@,
            crate::density::untyped_growth(m0, *m),
            pos == pos_args@,
            pos_args@.len() <= param_names@.len(),
            ps == crate::disintegrate::strs_view(param_names@),
            forall|q: int| 0 <= q < pos_args@.len() ==> (#[trigger] pos_args@[q]).0 < m0.nodes@.len(),
            k <= pos_args@.len(),
            fields@.len() == k,
            forall|q: int|
                0 <= q < k ==> m.name_of((#[trigger] fields@[q]).0) == ps[q] && fields@[q].1 == pos[q],
            forall|q: int|
                0 <= q < fields@.len() ==> (#[trigger] fields@[q]).0.0 < m.symbols@.len() && fields@[q].1.0
                    < m.nodes@.len(),
        decreases pos_args@.len() - k,
    {
        let ghost before = *m;
        let name = m.intern(param_names[k].as_str());
        proof {
            assert forall|q: int| 0 <= q < k implies m.name_of((#[trigger] fields@[q]).0) == before.name_of(
                fields@[q].0,
            ) by {
                assert(fields@[q].0.0 < before.symbols@.len());
            }
            crate::term::lemma_extends_trans(m0, before, *m);
        }
        fields.push((name, pos_args[k]));
        k += 1;
    }
    let ghost npos = fields@.len();
    let mut q: usize = 0;
    while q < kw_args.len()
        invariant
            m0.wf(),
            m.wf(),
            m.extends(&m0),
            crate::density::untyped_growth(m0, *m),
            fields@.len() == npos + q,
            q <= kw_args@.len(),
            forall|z: int| 0 <= z < npos ==> m.name_of((#[trigger] fields@[z]).0) == ps[z] && fields@[z].1 == pos[z],
            forall|z: int| 0 <= z < q ==> #[trigger] fields@[npos + z] == kw_args@[z],
            forall|z: int|
                0 <= z < kw_args@.len() ==> (#[trigger] kw_args@[z]).0.0 < m.symbols@.len() && kw_args@[z].1.0
                    < m.nodes@.len(),
            forall|z: int|
                0 <= z < fields@.len() ==> (#[trigger] fields@[z]).0.0 < m.symbols@.len() && fields@[z].1.0
                    < m.nodes@.len(),
        decreases kw_args@.len() - q,
    {
        fields.push(kw_args[q]);
        q += 1;
    }
    let ghost mf = *m;
    let broadcast_sym = m.intern("broadcast");
    let record_sym = m.intern("record");
    let record_head = m.add_node(Node::Const(record_sym));
    let mut record_kwargs: Vec<NamedArg> = Vec::new();
    let mut z: usize = 0;
    while z < fields.len()
        invariant
            z <= fields@.len(),
            record_kwargs@ == fields@.subrange(0, z as int).map_values(
                |p: (Symbol, NodeId)| NamedArg { kind: NamedKind::Kwarg, name: p.0, value: p.1 },
            ),
        decreases fields@.len() - z,
    {
        record_kwargs.push(NamedArg { kind: NamedKind::Kwarg, name: fields[z].0, value: fields[z].1 });
        z += 1;
        proof {
            assert(record_kwargs@ =~= fields@.subrange(0, z as int).map_values(
                |p: (Symbol, NodeId)| NamedArg { kind: NamedKind::Kwarg, name: p.0, value: p.1 },
            ));
        }
    }
    proof {
        assert(fields@.subrange(0, fields@.len() as int) =~= fields@);
    }
    let mut hargs: Vec<NodeId> = Vec::new();
    hargs.push(record_head);
    let call = Call { head: CallHead::Builtin(broadcast_sym), args: hargs, named: record_kwargs, inputs: None };
    proof {
        let ch = crate::ir::call_children(call);
        assert forall|w: int| 0 <= w < ch.len() implies (#[trigger] ch[w]).0 < m.nodes@.len() by {
            if w == 0 {
                assert(ch[0] == record_head);
            } else {
                assert(ch[w] == record_kwargs@[w - 1].value);
                assert(record_kwargs@[w - 1].value == fields@[w - 1].1);
            }
        }
        assert forall|w: int| 0 <= w < call.named@.len() implies (#[trigger] call.named@[w]).name.0 < m.symbols@.len() by {
            assert(call.named@[w].name == fields@[w].0);
        }
    }
    let kernel_inputs = m.add_node(Node::Call(call));
    let ghost mk = *m;
    proof {
        assert(ctor_sym.0 < m0.symbols@.len()) by {
            assert(node_wf(m0.nodes@[head.0 as int], head.0 as int, m0.symbols@.len()));
        }
    }
    let t = emit_kernel_broadcast_density(m, ctor_sym, kernel_inputs, obs);
    proof {
        crate::term::lemma_extends_trans(mf, mk, *m);
        crate::term::lemma_extends_trans(m0, mf, *m);
        crate::term::lemma_extends_trans(m0, mf, mk);
        crate::density::lemma_untyped_trans(m0, mk, *m);
        assert(m.nodes@[kernel_inputs.0 as int] == mk.nodes@[kernel_inputs.0 as int]);
        assert(m.nodes@[record_head.0 as int] == mk.nodes@[record_head.0 as int]);
        assert(m.name_of(broadcast_sym) == mk.name_of(broadcast_sym));
        assert(m.name_of(record_sym) == mk.name_of(record_sym));
        assert forall|w: int| 0 <= w < npos implies m.name_of((#[trigger] fields@[w]).0) == ps[w] by {
            assert(fields@[w].0.0 < mf.symbols@.len());
            assert(m.name_of(fields@[w].0) == mf.name_of(fields@[w].0));
        }
        assert forall|w: int| 0 <= w < c.named@.len() implies #[trigger] fields@[pos.len() + w] == (
            c.named@[w].name,
            c.named@[w].value,
        ) by {
            assert(fields@[npos + w] == kw_args@[w]);
        }
        assert(pos =~= c.args@.subrange(1, c.args@.len() as int));
        assert(cell_fields(*m, c.args@.subrange(1, c.args@.len() as int), c.named@, ps, fields@));
        assert(cell_records(*m, kernel_inputs, fields@));
    }
    Ok(t)
}

/// Node `w` is `arg` inside `depth` nested `vector(…)` calls.
pub open spec fn vector_wrapped(m: Module, w: NodeId, arg: NodeId, depth: nat) -> bool
    decreases depth,
{
    if depth == 0 {
        w == arg
    } else {
        plain_args(m, w, "vector"@) matches Some(a) && a.len() == 1 && a[0].0 < m.nodes@.len() && vector_wrapped(
            m,
            a[0],
            arg,
            (depth - 1) as nat,
        )
    }
}

proof fn lemma_vector_wrapped_stable(m1: Module, m2: Module, w: NodeId, arg: NodeId, depth: nat)
    requires
        m1.wf(),
        m2.extends(&m1),
        w.0 < m1.nodes@.len(),
        vector_wrapped(m1, w, arg, depth),
    ensures
        vector_wrapped(m2, w, arg, depth),
    decreases depth,
{
    if depth > 0 {
        assert(m2.nodes@[w.0 as int] == m1.nodes@[w.0 as int]);
        assert(node_wf(m1.nodes@[w.0 as int], w.0 as int, m1.symbols@.len()));
        if let Node::Call(c) = m1.at(w) {
            if let CallHead::Builtin(s) = c.head {
                assert(m2.name_of(s) == m1.name_of(s));
            }
        }
        let a = plain_args(m1, w, "vector"@).unwrap();
        lemma_vector_wrapped_stable(m1, m2, a[0], arg, (depth - 1) as nat);
    }
}

/// The size-one kernel-parameter array of records `broadcast(record, p =
/// vector^depth(arg), …)` over the keyword arguments `kwargs`, one size-one
/// axis per flattened `iid` layer.
pub fn singleton_kernel_input(m: &mut Module, kwargs: &Vec<(Symbol, NodeId)>, depth: usize) -> (r: NodeId)
    requires
        old(m).wf(),
        depth >= 1,
        forall|k: int|
            0 <= k < kwargs@.len() ==> (#[trigger] kwargs@[k]).0.0 < old(m).symbols@.len() && kwargs@[k].1.0
                < old(m).nodes@.len(),
    ensures
        final(m).wf(),
        final(m).extends(old(m)),
        final(m).bindings@ == old(m).bindings@,
        exists|fields: Seq<(Symbol, NodeId)>|
            #[trigger] cell_records(*final(m), r, fields) && fields.len() == kwargs@.len() && forall|k: int|
                0 <= k < fields.len() ==> (#[trigger] fields[k]).0 == kwargs@[k].0 && vector_wrapped(
                    *final(m),
                    fields[k].1,
                    kwargs@[k].1,
                    depth as nat,
                ),
{
    let ghost m0 = *m;
    let broadcast_sym = m.intern("broadcast");
    let record_sym = m.intern("record");
    let record_head = m.add_node(Node::Const(record_sym));
    let mut record_kwargs: Vec<NamedArg> = Vec::new();
    let mut k: usize = 0;
    while k < kwargs.len()
        invariant
            m0.wf(),
            m.wf(),
            m.extends(&m0),
            m.bindings@ == m0.bindings@,
            broadcast_sym.0 < m.symbols@.len(),
            record_head.0 < m.nodes@.len(),
            m.name_of(broadcast_sym) == "broadcast"@,
            m.at(record_head) == Node::Const(record_sym),
            m.name_of(record_sym) == "record"@,
            depth >= 1,
            forall|q: int|
                0 <= q < kwargs@.len() ==> (#[trigger] kwargs@[q]).0.0 < m0.symbols@.len() && kwargs@[q].1.0
                    < m0.nodes@.len(),
            k <= kwargs@.len(),
            record_kwargs@.len() == k,
            forall|q: int|
                0 <= q < k ==> (#[trigger] record_kwargs@[q]).kind == NamedKind::Kwarg && record_kwargs@[q].name
                    == kwargs@[q].0 && record_kwargs@[q].value.0 < m.nodes@.len() && vector_wrapped(
                    *m,
                    record_kwargs@[q].value,
                    kwargs@[q].1,
                    depth as nat,
                ),
        decreases kwargs@.len() - k,
    {
        let ghost mk = *m;
        let (name, value) = kwargs[k];
        let mut wrapped = value;
        let mut d: usize = 0;
        while d < depth
            invariant
                mk.wf(),
                m.wf(),
                m.extends(&mk),
                m.bindings@ == mk.bindings@,
                value.0 < mk.nodes@.len(),
                d <= depth,
                wrapped.0 < m.nodes@.len(),
                vector_wrapped(*m, wrapped, value, d as nat),
            decreases depth - d,
        {
            let ghost before = *m;
            let mut va: Vec<NodeId> = Vec::new();
            va.push(wrapped);
            let w2 = build_call(m, "vector", va.as_slice());
            proof {
                assert(va@ =~= seq![wrapped]);
                assert(plain_call(*m, w2, "vector"@, seq![wrapped]));
                lemma_vector_wrapped_stable(before, *m, wrapped, value, d as nat);
                crate::term::lemma_extends_trans(mk, before, *m);
            }
            wrapped = w2;
            d += 1;
        }
        proof {
            assert forall|q: int| 0 <= q < k implies vector_wrapped(
                *m,
                (#[trigger] record_kwargs@[q]).value,
                kwargs@[q].1,
                depth as nat,
            ) by {
                lemma_vector_wrapped_stable(mk, *m, record_kwargs@[q].value, kwargs@[q].1, depth as nat);
            }
            crate::term::lemma_extends_trans(m0, mk, *m);
            assert(m.nodes@[record_head.0 as int] == mk.nodes@[record_head.0 as int]);
            assert(m.name_of(broadcast_sym) == mk.name_of(broadcast_sym));
            assert(m.name_of(record_sym) == mk.name_of(record_sym));
        }
        record_kwargs.push(NamedArg { kind: NamedKind::Kwarg, name, value: wrapped });
        k += 1;
    }
    let mut hargs: Vec<NodeId> = Vec::new();
    hargs.push(record_head);
    let ghost fields = record_kwargs@.map_values(|na: NamedArg| (na.name, na.value));
    let call = Call { head: CallHead::Builtin(broadcast_sym), args: hargs, named: record_kwargs, inputs: None };
    proof {
        let ch = crate::ir::call_children(call);
        assert forall|w: int| 0 <= w < ch.len() implies (#[trigger] ch[w]).0 < m.nodes@.len() by {
            if w == 0 {
                assert(ch[0] == record_head);
            } else {
                assert(ch[w] == call.named@[w - 1].value);
            }
        }
        assert forall|w: int| 0 <= w < call.named@.len() implies (#[trigger] call.named@[w]).name.0 < m.symbols@.len() by {
            assert(call.named@[w].name == kwargs@[w].0);
        }
    }
    let ghost mb = *m;
    let r = m.add_node(Node::Call(call));
    proof {
        assert(m.nodes@[record_head.0 as int] == mb.nodes@[record_head.0 as int]);
        assert(m.name_of(broadcast_sym) == mb.name_of(broadcast_sym));
        assert(m.name_of(record_sym) == mb.name_of(record_sym));
        assert(call.named@ =~= fields.map_values(
            |p: (Symbol, NodeId)| NamedArg { kind: NamedKind::Kwarg, name: p.0, value: p.1 },
        ));
        assert forall|q: int| 0 <= q < fields.len() implies (#[trigger] fields[q]).0 == kwargs@[q].0 && vector_wrapped(
            *m,
            fields[q].1,
            kwargs@[q].1,
            depth as nat,
        ) by {
            lemma_vector_wrapped_stable(mb, *m, call.named@[q].value, kwargs@[q].1, depth as nat);
        }
        assert(cell_records(*m, r, fields));
    }
    r
}

} // verus!

