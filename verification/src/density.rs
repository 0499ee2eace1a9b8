//! The density of a primitive distribution constructor: the constructor
//! call read as its kernel and keyword arguments, and the
//! `builtin_logdensityof(kernel, kernel_input, point)` term that scores it.

use vstd::prelude::*;
use crate::disintegrate::{plain_call, strs_view};
use crate::ir::{node_wf, Call, CallHead, Module, NamedArg, NamedKind, Node, NodeId, Scalar, Symbol, Type};
use crate::refuse::RefuseError;
use crate::shape::{build_call, build_record, construct_name, is_builtin_named};

verus! {

/// The structural kind of a variate type, for the conservative check that
/// a measure is scored at a point of its own kind.
#[derive(Clone, Copy, PartialEq, Eq, Structural, Debug)]
pub enum VariateKind {
    Scalar,
    Vector,
    Record,
    Table,
}

/// The kind of a variate type; none for an unknown or non-variate type.
pub open spec fn variate_kind_spec(t: Type) -> Option<VariateKind> {
    match t {
        Type::Scalar(_) => Some(VariateKind::Scalar),
        Type::Array { .. } => Some(VariateKind::Vector),
        Type::Record(_) => Some(VariateKind::Record),
        Type::Table { .. } => Some(VariateKind::Table),
        _ => None,
    }
}

/// The kind of a variate type (see [`variate_kind_spec`]).
pub fn variate_kind(t: &Type) -> (r: Option<VariateKind>)
    ensures
        r == variate_kind_spec(*t),
{
    match t {
        Type::Scalar(_) => Some(VariateKind::Scalar),
        Type::Array { .. } => Some(VariateKind::Vector),
        Type::Record(_) => Some(VariateKind::Record),
        Type::Table { .. } => Some(VariateKind::Table),
        _ => None,
    }
}

// ---------------------------------------------------------------------------
// Reading a constructor call
// ---------------------------------------------------------------------------

/// The named entries of a call as `(name, value)` pairs, when every one of
/// them is a keyword argument.
pub open spec fn kwarg_pairs(c: Call) -> Option<Seq<(Symbol, NodeId)>> {
    if forall|k: int| 0 <= k < c.named@.len() ==> (#[trigger] c.named@[k]).kind == NamedKind::Kwarg {
        Some(c.named@.map_values(|na: NamedArg| (na.name, na.value)))
    } else {
        None
    }
}

/// The field names of a record type.
pub open spec fn record_type_names(m: Module, t: Option<Type>) -> Option<Seq<Seq<char>>> {
    match t {
        Some(Type::Record(fields)) => Some(fields@.map_values(|f: (Symbol, Type)| m.name_of(f.0))),
        _ => None,
    }
}

/// Every field symbol of the record type of node `id` is interned.
pub open spec fn record_type_interned(m: Module, id: NodeId) -> bool {
    m.types@[id.0 as int] matches Some(Type::Record(fields)) ==> forall|k: int|
        0 <= k < fields@.len() ==> (#[trigger] fields@[k]).0.0 < m.symbols@.len()
}

/// A call with a single positional argument types it, if as a record, with
/// interned field names.
pub open spec fn lone_arg_interned(m: Module, node: NodeId) -> bool {
    match m.at(node) {
        Node::Call(c) => c.args@.len() == 1 ==> record_type_interned(m, c.args@[0]),
        _ => true,
    }
}

/// A single positional argument typed as a record whose field names are
/// exactly the constructor's parameter names spreads over the parameters.
pub open spec fn splats(m: Module, c: Call, params: Seq<Seq<char>>) -> bool {
    &&& c.args@.len() == 1
    &&& c.named@.len() == 0
    &&& record_type_names(m, m.types@[c.args@[0].0 as int]) matches Some(ns) && ns.to_set() == params.to_set()
}

/// Some keyword argument names a parameter that one of the first `n`
/// positional arguments already binds.
pub open spec fn double_bind(m: Module, kws: Seq<(Symbol, NodeId)>, params: Seq<Seq<char>>, n: nat) -> bool {
    exists|j: int, i: int| 0 <= j < kws.len() && 0 <= i < n && #[trigger] m.name_of(kws[j].0) == #[trigger] params[i]
}

/// Node `g` is `get(arg, "<p>")`.
pub open spec fn getter(m: Module, g: NodeId, arg: NodeId, p: Seq<char>) -> bool {
    exists|key: NodeId|
        plain_call(m, g, "get"@, seq![arg, key]) && key.0 < m.nodes@.len() && (#[trigger] m.at(key) matches Node::Lit(
            Scalar::Str(s),
        ) && s@ == p)
}

/// What [`split_kernel_constructor`] returns for node `node` of `m0` given
/// the constructor's ordered parameter names `params` (none when its head
/// is not a known distribution constructor), read in the grown arena `m`:
/// a built-in call whose named entries are all keyword arguments reads as
/// its head and its arguments by name. Keyword arguments are taken as
/// written; positional ones bind to the parameters in order, except that a
/// lone record argument whose field names are the parameters spreads as
/// `get(arg, "<param>")` per parameter. More positional arguments than
/// parameters, or a keyword naming a parameter bound positionally, read as
/// nothing.
pub open spec fn kernel_split(
    m0: Module,
    m: Module,
    node: NodeId,
    params: Option<Seq<Seq<char>>>,
    r: Option<(Symbol, Seq<(Symbol, NodeId)>)>,
) -> bool {
    match m0.at(node) {
        Node::Call(c) => match c.head {
            CallHead::Builtin(sym) => match kwarg_pairs(c) {
                Some(kws) => {
                    let pos = c.args@;
                    if pos.len() == 0 {
                        r == Some((sym, kws))
                    } else {
                        match params {
                            None => r is None,
                            Some(ps) => if splats(m0, c, ps) {
                                r matches Some((s, args)) && s == sym && args.len() == ps.len() && forall|i: int|
                                    0 <= i < ps.len() ==> m.name_of((#[trigger] args[i]).0) == ps[i] && getter(
                                        m,
                                        args[i].1,
                                        pos[0],
                                        ps[i],
                                    )
                            } else if pos.len() > ps.len() || double_bind(m0, kws, ps, pos.len()) {
                                r is None
                            } else {
                                r matches Some((s, args)) && s == sym && args.len() == pos.len() + kws.len()
                                    && (forall|i: int|
                                    0 <= i < pos.len() ==> m.name_of((#[trigger] args[i]).0) == ps[i]
                                        && args[i].1 == pos[i]) && args.subrange(pos.len() as int, args.len() as int)
                                    == kws
                            },
                        }
                    }
                },
                None => r is None,
            },
            CallHead::User(_) => r is None,
        },
        _ => r is None,
    }
}

/// `t` is one of `ts`.
fn contains_text(ts: &Vec<String>, t: &str) -> (b: bool)
    ensures
        b == strs_view(ts@).contains(t@),
{
    let mut k: usize = 0;
    while k < ts.len()
        invariant
            k <= ts@.len(),
            forall|q: int| 0 <= q < k ==> ts@[q]@ != t@,
        decreases ts@.len() - k,
    {
        if crate::ir::str_eq(ts[k].as_str(), t) {
            proof {
                assert(strs_view(ts@)[k as int] == t@);
            }
            return true;
        }
        k += 1;
    }
    proof {
        if strs_view(ts@).contains(t@) {
            let q = choose|q: int| 0 <= q < strs_view(ts@).len() && strs_view(ts@)[q] == t@;
            assert(ts@[q]@ == t@);
        }
    }
    false
}

/// Two lists of names hold the same set of names.
fn same_name_set(a: &Vec<String>, b: &Vec<String>) -> (r: bool)
    ensures
        r == (strs_view(a@).to_set() == strs_view(b@).to_set()),
{
    let mut i: usize = 0;
    while i < a.len()
        invariant
            i <= a@.len(),
            forall|q: int| 0 <= q < i ==> strs_view(b@).contains(#[trigger] strs_view(a@)[q]),
        decreases a@.len() - i,
    {
        if !contains_text(b, a[i].as_str()) {
            proof {
                assert(!strs_view(b@).to_set().contains(strs_view(a@)[i as int]));
                assert(strs_view(a@).to_set().contains(strs_view(a@)[i as int]));
            }
            return false;
        }
        i += 1;
    }
    let mut j: usize = 0;
    while j < b.len()
        invariant
            j <= b@.len(),
            forall|q: int| 0 <= q < a@.len() ==> strs_view(b@).contains(#[trigger] strs_view(a@)[q]),
            forall|q: int| 0 <= q < j ==> strs_view(a@).contains(#[trigger] strs_view(b@)[q]),
        decreases b@.len() - j,
    {
        if !contains_text(a, b[j].as_str()) {
            proof {
                assert(!strs_view(a@).to_set().contains(strs_view(b@)[j as int]));
                assert(strs_view(b@).to_set().contains(strs_view(b@)[j as int]));
            }
            return false;
        }
        j += 1;
    }
    proof {
        assert(strs_view(a@).to_set() =~= strs_view(b@).to_set()) by {
            assert forall|t: Seq<char>| strs_view(a@).to_set().contains(t) implies strs_view(b@).to_set().contains(t) by {
                let q = choose|q: int| 0 <= q < strs_view(a@).len() && strs_view(a@)[q] == t;
            }
            assert forall|t: Seq<char>| strs_view(b@).to_set().contains(t) implies strs_view(a@).to_set().contains(t) by {
                let q = choose|q: int| 0 <= q < strs_view(b@).len() && strs_view(b@)[q] == t;
            }
        }
    }
    true
}


pub open spec fn opt_strs(p: Option<Vec<String>>) -> Option<Seq<Seq<char>>> {
    match p {
        Some(v) => Some(strs_view(v@)),
        None => None,
    }
}

pub open spec fn split_view(r: Option<(Symbol, Vec<(Symbol, NodeId)>)>) -> Option<(Symbol, Seq<(Symbol, NodeId)>)> {
    match r {
        Some((s, v)) => Some((s, v@)),
        None => None,
    }
}

/// Every `(name, value)` pair names an interned symbol and a node of `m`.
/// The nodes `m` has beyond `m0` carry no type.
pub open spec fn untyped_growth(m0: Module, m: Module) -> bool {
    forall|i: int| m0.nodes@.len() <= i < m.nodes@.len() ==> (#[trigger] m.types@[i]) is None
}

pub open spec fn pairs_in(m: Module, v: Seq<(Symbol, NodeId)>) -> bool {
    forall|k: int| 0 <= k < v.len() ==> (#[trigger] v[k]).0.0 < m.symbols@.len() && v[k].1.0 < m.nodes@.len()
}

/// The named entries of `c` as keyword pairs (see [`kwarg_pairs`]).
fn keyword_pairs(c: &Call) -> (r: Option<Vec<(Symbol, NodeId)>>)
    ensures
        match r {
            Some(v) => kwarg_pairs(*c) == Some(v@),
            None => kwarg_pairs(*c) is None,
        },
{
    let mut kwargs: Vec<(Symbol, NodeId)> = Vec::new();
    let mut k: usize = 0;
    while k < c.named.len()
        invariant
            k <= c.named@.len(),
            kwargs@ == c.named@.subrange(0, k as int).map_values(|na: NamedArg| (na.name, na.value)),
            forall|q: int| 0 <= q < k ==> (#[trigger] c.named@[q]).kind == NamedKind::Kwarg,
        decreases c.named@.len() - k,
    {
        if c.named[k].kind != NamedKind::Kwarg {
            return None;
        }
        kwargs.push((c.named[k].name, c.named[k].value));
        proof {
            assert(c.named@.subrange(0, k as int + 1).map_values(|na: NamedArg| (na.name, na.value))
                =~= c.named@.subrange(0, k as int).map_values(|na: NamedArg| (na.name, na.value)).push(
                (c.named@[k as int].name, c.named@[k as int].value),
            ));
        }
        k += 1;
    }
    proof {
        assert(c.named@.subrange(0, c.named@.len() as int) =~= c.named@);
    }
    Some(kwargs)
}

/// The texts of the field names of a record type.
fn field_texts(m: &Module, fields: &Vec<(Symbol, Type)>) -> (r: Vec<String>)
    requires
        forall|k: int| 0 <= k < fields@.len() ==> (#[trigger] fields@[k]).0.0 < m.symbols@.len(),
    ensures
        strs_view(r@) == fields@.map_values(|f: (Symbol, Type)| m.name_of(f.0)),
{
    broadcast use vstd::string::group_string_axioms;

    let mut names: Vec<String> = Vec::new();
    let mut k: usize = 0;
    while k < fields.len()
        invariant
            forall|q: int| 0 <= q < fields@.len() ==> (#[trigger] fields@[q]).0.0 < m.symbols@.len(),
            k <= fields@.len(),
            strs_view(names@) == fields@.subrange(0, k as int).map_values(|f: (Symbol, Type)| m.name_of(f.0)),
        decreases fields@.len() - k,
    {
        let text = m.resolve(fields[k].0).to_string();
        let ghost before = names@;
        names.push(text);
        proof {
            assert(text@ == m.name_of(fields@[k as int].0));
            assert(strs_view(names@) =~= strs_view(before).push(text@));
            assert(strs_view(names@) =~= fields@.subrange(0, k as int + 1).map_values(
                |f: (Symbol, Type)| m.name_of(f.0),
            ));
        }
        k += 1;
    }
    proof {
        assert(fields@.subrange(0, fields@.len() as int) =~= fields@);
    }
    names
}

/// `get(arg, "<p>")` for each parameter `p`, named by the parameter.
fn spread_record(m: &mut Module, arg: NodeId, ps: &Vec<String>) -> (args: Vec<(Symbol, NodeId)>)
    requires
        old(m).wf(),
        arg.0 < old(m).nodes@.len(),
    ensures
        final(m).wf(),
        final(m).extends(old(m)),
        final(m).bindings@ == old(m).bindings@,
        untyped_growth(*old(m), *final(m)),
        args@.len() == ps@.len(),
        pairs_in(*final(m), args@),
        forall|q: int|
            0 <= q < ps@.len() ==> final(m).name_of((#[trigger] args@[q]).0) == ps@[q]@ && getter(
                *final(m),
                args@[q].1,
                arg,
                ps@[q]@,
            ),
{
    let ghost m0 = *m;
    let mut args: Vec<(Symbol, NodeId)> = Vec::new();
    let mut i: usize = 0;
    while i < ps.len()
        invariant
            m0.wf(),
            m.wf(),
            m.extends(&m0),
            m.bindings@ == m0.bindings@,
            untyped_growth(m0, *m),
            arg.0 < m0.nodes@.len(),
            i <= ps@.len(),
            args@.len() == i,
            pairs_in(*m, args@),
            forall|q: int|
                0 <= q < i ==> m.name_of((#[trigger] args@[q]).0) == ps@[q]@ && getter(*m, args@[q].1, arg, ps@[q]@),
        decreases ps@.len() - i,
    {
        let ghost mi = *m;
        let pc = ps[i].clone();
        let ghost pcv = pc@;
        let key = m.add_node(Node::Lit(Scalar::Str(pc)));
        let mut ga: Vec<NodeId> = Vec::new();
        ga.push(arg);
        ga.push(key);
        let ghost mk = *m;
        let g = build_call(m, "get", ga.as_slice());
        let ghost mg = *m;
        let p = m.intern(ps[i].as_str());
        args.push((p, g));
        proof {
            crate::term::lemma_extends_trans(mi, mk, mg);
            crate::term::lemma_extends_trans(mi, mg, *m);
            crate::term::lemma_extends_trans(m0, mi, *m);
            assert(ga@ =~= seq![arg, key]);
            assert(plain_call(mg, g, "get"@, seq![arg, key]));
            crate::disintegrate::lemma_plain_call_stable(mg, *m, g, "get"@, seq![arg, key]);
            assert(m.nodes@[key.0 as int] == mk.nodes@[key.0 as int]);
            assert(pcv == ps@[i as int]@);
            assert(m.at(key) matches Node::Lit(Scalar::Str(s)) && s@ == ps@[i as int]@);
            assert(getter(*m, g, arg, ps@[i as int]@));
            assert forall|q: int| 0 <= q < i + 1 implies m.name_of((#[trigger] args@[q]).0) == ps@[q]@ && getter(
                *m,
                args@[q].1,
                arg,
                ps@[q]@,
            ) by {
                if q < i {
                    let key2 = choose|key2: NodeId|
                        plain_call(mi, args@[q].1, "get"@, seq![arg, key2]) && key2.0 < mi.nodes@.len() && (
                        #[trigger] mi.at(key2) matches Node::Lit(Scalar::Str(s)) && s@ == ps@[q]@);
                    crate::disintegrate::lemma_plain_call_stable(mi, *m, args@[q].1, "get"@, seq![arg, key2]);
                    assert(m.nodes@[key2.0 as int] == mi.nodes@[key2.0 as int]);
                    assert(m.at(key2) == mi.at(key2));
                }
            }
        }
        i += 1;
    }
    args
}

/// Each positional argument, named by the parameter in its position.
fn bind_positional(m: &mut Module, pos: &Vec<NodeId>, ps: &Vec<String>) -> (args: Vec<(Symbol, NodeId)>)
    requires
        old(m).wf(),
        pos@.len() <= ps@.len(),
        forall|k: int| 0 <= k < pos@.len() ==> (#[trigger] pos@[k]).0 < old(m).nodes@.len(),
    ensures
        final(m).wf(),
        final(m).extends(old(m)),
        final(m).nodes@ == old(m).nodes@,
        final(m).types@ == old(m).types@,
        final(m).bindings@ == old(m).bindings@,
        args@.len() == pos@.len(),
        pairs_in(*final(m), args@),
        forall|q: int| 0 <= q < pos@.len() ==> final(m).name_of((#[trigger] args@[q]).0) == ps@[q]@ && args@[q].1 == pos@[q],
{
    let ghost m0 = *m;
    let mut args: Vec<(Symbol, NodeId)> = Vec::new();
    let mut i: usize = 0;
    while i < pos.len()
        invariant
            m0.wf(),
            m.wf(),
            m.extends(&m0),
            m.nodes@ == m0.nodes@,
            m.types@ == m0.types@,
            m.bindings@ == m0.bindings@,
            pos@.len() <= ps@.len(),
            forall|k: int| 0 <= k < pos@.len() ==> (#[trigger] pos@[k]).0 < m0.nodes@.len(),
            i <= pos@.len(),
            args@.len() == i,
            pairs_in(*m, args@),
            forall|q: int| 0 <= q < i ==> m.name_of((#[trigger] args@[q]).0) == ps@[q]@ && args@[q].1 == pos@[q],
        decreases pos@.len() - i,
    {
        let p = m.intern(ps[i].as_str());
        args.push((p, pos[i]));
        i += 1;
    }
    args
}

/// Some keyword argument repeats the name of a positionally bound one.
fn rebinds(kwargs: &Vec<(Symbol, NodeId)>, args: &Vec<(Symbol, NodeId)>) -> (b: bool)
    ensures
        b == exists|j: int, q: int| 0 <= j < kwargs@.len() && 0 <= q < args@.len() && #[trigger] kwargs@[j].0 == #[trigger] args@[q].0,
{
    let mut j: usize = 0;
    while j < kwargs.len()
        invariant
            j <= kwargs@.len(),
            forall|jj: int, q: int| 0 <= jj < j && 0 <= q < args@.len() ==> #[trigger] kwargs@[jj].0 != #[trigger] args@[q].0,
        decreases kwargs@.len() - j,
    {
        let mut q: usize = 0;
        while q < args.len()
            invariant
                j < kwargs@.len(),
                q <= args@.len(),
                forall|jj: int, qq: int| 0 <= jj < j && 0 <= qq < args@.len() ==> #[trigger] kwargs@[jj].0 != #[trigger] args@[qq].0,
                forall|qq: int| 0 <= qq < q ==> kwargs@[j as int].0 != #[trigger] args@[qq].0,
            decreases args@.len() - q,
        {
            if args[q].0 == kwargs[j].0 {
                return true;
            }
            q += 1;
        }
        j += 1;
    }
    false
}

/// Read the constructor call `node` as its kernel symbol and its arguments
/// by name (see [`kernel_split`]); `params` are the constructor's ordered
/// parameter names, when its head is a known distribution constructor.
pub fn split_kernel_constructor(
    m: &mut Module,
    node: NodeId,
    params: &Option<Vec<String>>,
) -> (r: Option<(Symbol, Vec<(Symbol, NodeId)>)>)
    requires
        old(m).wf(),
        node.0 < old(m).nodes@.len(),
        lone_arg_interned(*old(m), node),
    ensures
        final(m).wf(),
        final(m).extends(old(m)),
        final(m).bindings@ == old(m).bindings@,
        untyped_growth(*old(m), *final(m)),
        kernel_split(*old(m), *final(m), node, opt_strs(*params), split_view(r)),
        r matches Some((s, args)) ==> s.0 < final(m).symbols@.len() && pairs_in(*final(m), args@),
        !(old(m).at(node) matches Node::Call(c) && c.args@.len() > 0) ==> *final(m) == *old(m),
{
    let ghost m0 = *m;
    proof {
        assert(node_wf(m.nodes@[node.0 as int], node.0 as int, m.symbols@.len()));
    }
    let (sym, pos_args, kwargs) = match m.node(node) {
        Node::Call(c) => {
            let sym = match c.head {
                CallHead::Builtin(s) => s,
                CallHead::User(_) => {
                    return None;
                },
            };
            let kwargs = match keyword_pairs(c) {
                Some(v) => v,
                None => {
                    return None;
                },
            };
            (sym, crate::ir::copy_ids(&c.args), kwargs)
        },
        _ => {
            return None;
        },
    };
    let ghost c0 = match m0.at(node) {
        Node::Call(c) => c,
        _ => arbitrary(),
    };
    proof {
        assert(m0.at(node) == Node::Call(c0));
        assert(c0.head is Builtin);
        assert(node_wf(Node::Call(c0), node.0 as int, m0.symbols@.len()));
        assert(crate::ir::call_children(c0) =~= c0.args@ + c0.named@.map_values(|na: NamedArg| na.value));
        assert(pos_args@ == c0.args@);
        assert(kwarg_pairs(c0) == Some(kwargs@));
        assert(pairs_in(m0, kwargs@)) by {
            assert forall|k: int| 0 <= k < kwargs@.len() implies (#[trigger] kwargs@[k]).0.0 < m0.symbols@.len()
                && kwargs@[k].1.0 < m0.nodes@.len() by {
                assert(kwargs@[k] == (c0.named@[k].name, c0.named@[k].value));
                assert(c0.named@[k].name.0 < m0.symbols@.len());
                assert(crate::ir::call_children(c0)[c0.args@.len() + k] == c0.named@[k].value);
                assert(crate::ir::node_children(Node::Call(c0))[c0.args@.len() + k].0 < node.0);
            }
        }
        assert forall|k: int| 0 <= k < pos_args@.len() implies (#[trigger] pos_args@[k]).0 < m0.nodes@.len() by {
            assert(crate::ir::call_children(c0)[k] == c0.args@[k]);
        }
    }
    if pos_args.len() == 0 {
        return Some((sym, kwargs));
    }
    let ps = match params {
        Some(p) => p,
        None => {
            return None;
        },
    };
    if kwargs.len() == 0 && pos_args.len() == 1 {
        let arg = pos_args[0];
        let field_names: Option<Vec<String>> = match m.type_of(arg) {
            Some(Type::Record(fields)) => Some(field_texts(m, fields)),
            _ => None,
        };
        proof {
            assert(match field_names {
                Some(v) => record_type_names(m0, m0.types@[arg.0 as int]) == Some(strs_view(v@)),
                None => record_type_names(m0, m0.types@[arg.0 as int]) is None,
            });
        }
        if let Some(fnames) = field_names {
            if same_name_set(&fnames, ps) {
                proof {
                    assert(c0.named@.len() == 0);
                    assert(splats(m0, c0, strs_view(ps@)));
                }
                let args = spread_record(m, arg, ps);
                proof {
                    assert forall|i: int| 0 <= i < strs_view(ps@).len() implies m.name_of((#[trigger] args@[i]).0)
                        == strs_view(ps@)[i] && getter(*m, args@[i].1, pos_args@[0], strs_view(ps@)[i]) by {
                        assert(strs_view(ps@)[i] == ps@[i]@);
                    }
                }
                return Some((sym, args));
            }
        }
        proof {
            assert(!splats(m0, c0, strs_view(ps@)));
        }
    }
    proof {
        if kwargs@.len() != 0 || pos_args@.len() != 1 {
            assert(!splats(m0, c0, strs_view(ps@)));
        }
    }
    if pos_args.len() > ps.len() {
        return None;
    }
    let mut args = bind_positional(m, &pos_args, ps);
    let twice = rebinds(&kwargs, &args);
    proof {
        assert forall|j: int, q: int| 0 <= j < kwargs@.len() && 0 <= q < args@.len() implies (kwargs@[j].0 == args@[q].0 <==> m0.name_of(kwargs@[j].0) == strs_view(ps@)[q]) by {
            assert(strs_view(ps@)[q] == ps@[q]@);
            assert(m.name_of(kwargs@[j].0) == m0.name_of(kwargs@[j].0));
            if kwargs@[j].0 != args@[q].0 {
                assert(m.symbols@[args@[q].0.0 as int]@ != m.symbols@[kwargs@[j].0.0 as int]@);
            }
        }
        if twice {
            let (j, q) = choose|j: int, q: int| 0 <= j < kwargs@.len() && 0 <= q < args@.len() && #[trigger] kwargs@[j].0 == #[trigger] args@[q].0;
            assert(m0.name_of(kwargs@[j].0) == strs_view(ps@)[q]);
        } else {
            assert forall|j: int, i: int| 0 <= j < kwargs@.len() && 0 <= i < pos_args@.len() implies #[trigger] m0.name_of(kwargs@[j].0) != #[trigger] strs_view(ps@)[i] by {
                assert(kwargs@[j].0 != args@[i].0);
            }
        }
    }
    if twice {
        return None;
    }
    let ghost pre = args@;
    let mut k: usize = 0;
    while k < kwargs.len()
        invariant
            m.wf(),
            pairs_in(m0, kwargs@),
            m.extends(&m0),
            k <= kwargs@.len(),
            args@ == pre + kwargs@.subrange(0, k as int),
        decreases kwargs@.len() - k,
    {
        args.push(kwargs[k]);
        proof {
            assert(pre + kwargs@.subrange(0, k as int + 1) =~= (pre + kwargs@.subrange(0, k as int)).push(kwargs@[k as int]));
        }
        k += 1;
    }
    proof {
        assert(kwargs@.subrange(0, kwargs@.len() as int) =~= kwargs@);
        assert(args@.subrange(pos_args@.len() as int, args@.len() as int) =~= kwargs@);
        assert forall|i: int| 0 <= i < pos_args@.len() implies m.name_of((#[trigger] args@[i]).0) == strs_view(ps@)[i]
            && args@[i].1 == pos_args@[i] by {
            assert(args@[i] == pre[i]);
            assert(strs_view(ps@)[i] == ps@[i]@);
        }
        assert(pairs_in(*m, args@)) by {
            assert forall|q: int| 0 <= q < args@.len() implies (#[trigger] args@[q]).0.0 < m.symbols@.len() && args@[q].1.0 < m.nodes@.len() by {
                if q >= pre.len() {
                    assert(args@[q] == kwargs@[q - pre.len()]);
                } else {
                    assert(args@[q] == pre[q]);
                }
            }
        }
    }
    Some((sym, args))
}


proof fn lemma_getter_stable(m1: Module, m2: Module, g: NodeId, arg: NodeId, p: Seq<char>)
    requires
        m1.wf(),
        m2.extends(&m1),
        g.0 < m1.nodes@.len(),
        getter(m1, g, arg, p),
    ensures
        getter(m2, g, arg, p),
{
    let key = choose|key: NodeId|
        plain_call(m1, g, "get"@, seq![arg, key]) && key.0 < m1.nodes@.len() && (#[trigger] m1.at(key) matches Node::Lit(
            Scalar::Str(s),
        ) && s@ == p);
    crate::disintegrate::lemma_plain_call_stable(m1, m2, g, "get"@, seq![arg, key]);
    assert(m2.nodes@[key.0 as int] == m1.nodes@[key.0 as int]);
    assert(m2.at(key) == m1.at(key));
}

proof fn lemma_kernel_split_stable(
    m0: Module,
    m1: Module,
    m2: Module,
    node: NodeId,
    params: Option<Seq<Seq<char>>>,
    r: Option<(Symbol, Seq<(Symbol, NodeId)>)>,
)
    requires
        m1.wf(),
        m2.extends(&m1),
        kernel_split(m0, m1, node, params, r),
        r matches Some((s, args)) ==> pairs_in(m1, args),
    ensures
        kernel_split(m0, m2, node, params, r),
{
    if let Some((s, args)) = r {
        assert forall|i: int| 0 <= i < args.len() implies m2.name_of((#[trigger] args[i]).0) == m1.name_of(args[i].0) by {
            assert(args[i].0.0 < m1.symbols@.len());
        }
        if let Node::Call(c) = m0.at(node) {
            if let Some(ps) = params {
                if c.args@.len() > 0 && splats(m0, c, ps) {
                    assert forall|i: int| 0 <= i < ps.len() implies getter(m2, (#[trigger] args[i]).1, c.args@[0], ps[i]) by {
                        lemma_getter_stable(m1, m2, args[i].1, c.args@[0], ps[i]);
                    }
                }
            }
        }
    }
}

pub proof fn lemma_construct_name_stable(m1: Module, m2: Module, id: NodeId)
    requires
        m1.wf(),
        m2.extends(&m1),
        id.0 < m1.nodes@.len(),
    ensures
        construct_name(m2, id) == construct_name(m1, id),
{
    assert(m2.nodes@[id.0 as int] == m1.nodes@[id.0 as int]);
    assert(node_wf(m1.nodes@[id.0 as int], id.0 as int, m1.symbols@.len()));
}

/// The kind of the domain of a measure type.
pub open spec fn measure_domain_kind(t: Option<Type>) -> Option<VariateKind> {
    match t {
        Some(Type::Measure { domain, .. }) => variate_kind_spec(*domain),
        _ => None,
    }
}

/// The kind of a variate's type.
pub open spec fn point_kind(t: Option<Type>) -> Option<VariateKind> {
    match t {
        Some(t) => variate_kind_spec(t),
        None => None,
    }
}

/// The measure's domain and the point are of definite, different kinds.
pub open spec fn kind_mismatch(m: Module, measure: NodeId, pinned: NodeId) -> bool {
    &&& measure_domain_kind(m.types@[measure.0 as int]) is Some
    &&& point_kind(m.types@[pinned.0 as int]) is Some
    &&& measure_domain_kind(m.types@[measure.0 as int]) != point_kind(m.types@[pinned.0 as int])
}

pub open spec fn mismatch_reason() -> Seq<char> {
    "variate type does not match the measure's domain"@
}

pub open spec fn constructor_reason() -> Seq<char> {
    "primitive measure must be a built-in constructor call with well-formed positional or keyword arguments"@
}

/// Node `id` is `record(name = value, …)` over `args`.
pub open spec fn record_of_pairs(m: Module, id: NodeId, args: Seq<(Symbol, NodeId)>) -> bool {
    &&& is_builtin_named(m, id, "record"@)
    &&& m.at(id) matches Node::Call(c) && c.args@.len() == 0 && c.inputs is None && c.named@ == args.map_values(
        |p: (Symbol, NodeId)| NamedArg { kind: NamedKind::Field, name: p.0, value: p.1 },
    )
}

/// Node `r` is `builtin_logdensityof(kernel, input, pinned)` with `kernel`
/// the constant `ctor` and `input` the record of `args`.
pub open spec fn density_term(m: Module, r: NodeId, ctor: Symbol, args: Seq<(Symbol, NodeId)>, pinned: NodeId) -> bool {
    &&& is_builtin_named(m, r, "builtin_logdensityof"@)
    &&& match m.at(r) {
        Node::Call(c) => {
            &&& c.args@.len() == 3
            &&& c.named@.len() == 0
            &&& c.inputs is None
            &&& c.args@[2] == pinned
            &&& c.args@[0].0 < m.nodes@.len()
            &&& m.at(c.args@[0]) == Node::Const(ctor)
            &&& c.args@[1].0 < m.nodes@.len()
            &&& record_of_pairs(m, c.args@[1], args)
        },
        _ => false,
    }
}

/// The log-density of the primitive constructor `measure` at `pinned`:
/// `builtin_logdensityof(<constructor>, record(<arguments by name>),
/// pinned)` over the reading of [`split_kernel_constructor`]. Refuses a
/// point whose kind definitely differs from the measure's domain, and a
/// measure that is not a well-formed constructor call.
pub fn build_density_term(
    m: &mut Module,
    measure: NodeId,
    pinned: NodeId,
    params: &Option<Vec<String>>,
) -> (r: Result<NodeId, RefuseError>)
    requires
        old(m).wf(),
        measure.0 < old(m).nodes@.len(),
        pinned.0 < old(m).nodes@.len(),
        lone_arg_interned(*old(m), measure),
    ensures
        final(m).wf(),
        final(m).extends(old(m)),
        final(m).bindings@ == old(m).bindings@,
        untyped_growth(*old(m), *final(m)),
        match r {
            Ok(t) => {
                &&& !kind_mismatch(*old(m), measure, pinned)
                &&& t.0 < final(m).nodes@.len()
                &&& exists|ctor: Symbol, args: Seq<(Symbol, NodeId)>|
                    #[trigger] kernel_split(*old(m), *final(m), measure, opt_strs(*params), Some((ctor, args)))
                        && density_term(*final(m), t, ctor, args, pinned)
            },
            Err(e) => if kind_mismatch(*old(m), measure, pinned) {
                &&& e.node == pinned
                &&& e.construct@ == construct_name(*old(m), pinned)
                &&& e.reason@ == mismatch_reason()
            } else {
                &&& kernel_split(*old(m), *final(m), measure, opt_strs(*params), None)
                &&& e.node == measure
                &&& e.construct@ == construct_name(*old(m), measure)
                &&& e.reason@ == constructor_reason()
            },
        },
{
    let ghost m0 = *m;
    let domain_kind = match m.type_of(measure) {
        Some(Type::Measure { domain, .. }) => variate_kind(domain),
        _ => None,
    };
    let obs_kind = match m.type_of(pinned) {
        Some(t) => variate_kind(t),
        None => None,
    };
    proof {
        assert(domain_kind == measure_domain_kind(m0.types@[measure.0 as int]));
        assert(obs_kind == point_kind(m0.types@[pinned.0 as int]));
    }
    if let (Some(dk), Some(ok)) = (domain_kind, obs_kind) {
        if dk != ok {
            proof {
                reveal_strlit("variate type does not match the measure's domain");
            }
            return Err(crate::shape::refuse(pinned, m, "variate type does not match the measure's domain"));
        }
    }
    let split = split_kernel_constructor(m, measure, params);
    let (ctor_sym, kwargs) = match split {
        Some(x) => x,
        None => {
            proof {
                reveal_strlit("primitive measure must be a built-in constructor call with well-formed positional or keyword arguments");
                lemma_construct_name_stable(m0, *m, measure);
            }
            return Err(crate::shape::refuse(
                measure,
                m,
                "primitive measure must be a built-in constructor call with well-formed positional or keyword arguments",
            ));
        },
    };
    let ghost ms = *m;
    let ghost args = kwargs@;
    proof {
        assert(node_wf(ms.nodes@[measure.0 as int], measure.0 as int, ms.symbols@.len()));
    }
    let kernel = m.add_node(Node::Const(ctor_sym));
    let kernel_input = build_record(m, kwargs.as_slice());
    let ghost mr = *m;
    let builtin = m.intern("builtin_logdensityof");
    let mut targs: Vec<NodeId> = Vec::new();
    targs.push(kernel);
    targs.push(kernel_input);
    targs.push(pinned);
    let call = Call { head: CallHead::Builtin(builtin), args: targs, named: Vec::new(), inputs: None };
    proof {
        assert(crate::ir::call_children(call) =~= seq![kernel, kernel_input, pinned]);
    }
    let t = m.add_node(Node::Call(call));
    proof {
        crate::term::lemma_extends_trans(ms, mr, *m);
        lemma_kernel_split_stable(m0, ms, *m, measure, opt_strs(*params), Some((ctor_sym, args)));
        assert(m.nodes@[kernel.0 as int] == mr.nodes@[kernel.0 as int]);
        assert(m.nodes@[kernel_input.0 as int] == mr.nodes@[kernel_input.0 as int]);
        assert(record_of_pairs(*m, kernel_input, args)) by {
            if let Node::Call(c) = m.at(kernel_input) {
                assert(c.named@ =~= args.map_values(|p: (Symbol, NodeId)| NamedArg { kind: NamedKind::Field, name: p.0, value: p.1 }));
            }
            if let Node::Call(c) = mr.at(kernel_input) {
                if let CallHead::Builtin(sy) = c.head {
                    assert(m.name_of(sy) == mr.name_of(sy));
                }
            }
        }
        assert(density_term(*m, t, ctor_sym, args, pinned));
        assert(kernel_split(m0, *m, measure, opt_strs(*params), Some((ctor_sym, args))));
    }
    Ok(t)
}


// ---------------------------------------------------------------------------
// Structural projections
// ---------------------------------------------------------------------------

/// Which components a structural projection selects.
#[derive(Debug)]
pub enum Selector {
    /// Field names, in selection order.
    Names(Vec<String>),
    /// Component positions as written; `one_based` for `get`, not for `get0`.
    Indices { raw: Vec<i64>, one_based: bool },
    /// A selector form that is not lowered, named for the refusal.
    Unsupported(&'static str),
}

/// A recognised pure projection `fn(get(_, sel))`: its selector, and
/// whether it is a subset selector (`get(_, [a, b])`) rather than a single
/// element access (`get(_, a)`).
#[derive(Debug)]
pub struct GetProjection {
    pub sel: Selector,
    pub subset: bool,
}

/// A selector as a plain value.
pub enum SelectorV {
    Names(Seq<Seq<char>>),
    Indices(Seq<i64>, bool),
    Unsupported(Seq<char>),
}

pub open spec fn selector_view(s: Selector) -> SelectorV {
    match s {
        Selector::Names(v) => SelectorV::Names(strs_view(v@)),
        Selector::Indices { raw, one_based } => SelectorV::Indices(raw@, one_based),
        Selector::Unsupported(t) => SelectorV::Unsupported(t@),
    }
}

/// The integer of an integer literal node.
pub open spec fn int_lit(m: Module, id: NodeId) -> Option<i64> {
    if id.0 < m.nodes@.len() {
        match m.at(id) {
            Node::Lit(Scalar::Int(i)) => Some(i),
            _ => None,
        }
    } else {
        None
    }
}

/// A non-empty positional `vector(…)` of integer literals, read in order.
pub open spec fn int_vec(m: Module, node: NodeId) -> Option<Seq<i64>> {
    if is_builtin_named(m, node, "vector"@) {
        match m.at(node) {
            Node::Call(c) => if c.named@.len() == 0 && c.args@.len() > 0 && forall|k: int|
                0 <= k < c.args@.len() ==> #[trigger] int_lit(m, c.args@[k]) is Some {
                Some(c.args@.map_values(|a: NodeId| int_lit(m, a).unwrap()))
            } else {
                None
            },
            _ => None,
        }
    } else {
        None
    }
}

/// A non-empty positional `vector(…)` of string literals, read in order.
pub open spec fn str_vec(m: Module, node: NodeId) -> Option<Seq<Seq<char>>> {
    if is_builtin_named(m, node, "vector"@) {
        match m.at(node) {
            Node::Call(c) => if c.named@.len() == 0 && c.args@.len() > 0 && forall|k: int|
                0 <= k < c.args@.len() ==> #[trigger] crate::disintegrate::str_lit(m, c.args@[k]) is Some {
                Some(c.args@.map_values(|a: NodeId| crate::disintegrate::str_lit(m, a).unwrap()))
            } else {
                None
            },
            _ => None,
        }
    } else {
        None
    }
}

/// The selector a pure `get` takes from its second argument `sel`.
pub open spec fn selector_of(m: Module, sel: NodeId, one_based: bool) -> (SelectorV, bool) {
    match str_vec(m, sel) {
        Some(ns) => (SelectorV::Names(ns), true),
        None => match int_vec(m, sel) {
            Some(is) => (SelectorV::Indices(is, one_based), true),
            None => match m.at(sel) {
                Node::Lit(Scalar::Str(s)) => (SelectorV::Names(seq![s@]), false),
                Node::Lit(Scalar::Int(i)) => (SelectorV::Indices(seq![i], one_based), false),
                Node::Const(k) => if m.name_of(k) == "all"@ {
                    (SelectorV::Unsupported("the `all` axis keyword"@), true)
                } else if m.name_of(k) == "only"@ {
                    (SelectorV::Unsupported("the `only` axis keyword"@), true)
                } else {
                    (SelectorV::Unsupported("a non-literal selector"@), true)
                },
                _ => if is_builtin_named(m, sel, "vector"@) {
                    (SelectorV::Unsupported("a selector vector that is not all field names or all integer indices"@), true)
                } else {
                    (SelectorV::Unsupported("a non-literal selector"@), true)
                },
            },
        },
    }
}

/// What the pure `get` call `g` on placeholder `ph` projects.
pub open spec fn get_projection_of(m: Module, g: Call, ph: Symbol, one_based: bool) -> Option<(SelectorV, bool)> {
    if g.args@.len() == 0 || m.at(g.args@[0]) != Node::Ref(crate::ir::Ref { ns: crate::ir::RefNs::Local, name: ph }) {
        None
    } else if g.named@.len() > 0 {
        Some((SelectorV::Unsupported("a keyword selector argument"@), true))
    } else if g.args@.len() > 2 {
        Some((SelectorV::Unsupported("a multi-axis selector (more than one selector argument)"@), true))
    } else if g.args@.len() < 2 {
        Some((SelectorV::Unsupported("no selector argument"@), true))
    } else {
        Some(selector_of(m, g.args@[1], one_based))
    }
}

/// The projection `f` denotes, when it is a one-input `functionof` whose
/// body is exactly `get(<input>, sel…)` (1-based) or `get0(<input>, sel…)`
/// (0-based) on the bare input placeholder: a keyword selector, more than
/// one selector axis, no selector, and a selector that is neither literal
/// field names nor literal indices are unsupported forms, named.
pub open spec fn projection_spec(m: Module, f: NodeId) -> Option<(SelectorV, bool)> {
    if is_builtin_named(m, f, "functionof"@) {
        match m.at(f) {
            Node::Call(c) => if c.args@.len() != 1 {
                None
            } else {
                match c.inputs {
                    Some(crate::ir::Inputs::Spec(entries)) => if entries@.len() != 1 || entries@[0].1.ns
                        != crate::ir::RefNs::Local {
                        None
                    } else {
                        let body = c.args@[0];
                        let one_based = is_builtin_named(m, body, "get"@);
                        if !one_based && !is_builtin_named(m, body, "get0"@) {
                            None
                        } else {
                            match m.at(body) {
                                Node::Call(g) => get_projection_of(m, g, entries@[0].1.name, one_based),
                                _ => None,
                            }
                        }
                    },
                    _ => None,
                }
            },
            _ => None,
        }
    } else {
        None
    }
}

/// Read a non-empty positional `vector` of integer literals (see [`int_vec`]).
pub fn int_literal_vector(m: &Module, node: NodeId) -> (r: Option<Vec<i64>>)
    requires
        m.wf(),
        node.0 < m.nodes@.len(),
    ensures
        match r {
            Some(v) => int_vec(*m, node) == Some(v@),
            None => int_vec(*m, node) is None,
        },
{
    let v = match crate::shape::expect_builtin_call(m, node, "vector") {
        Some(c) => c,
        None => {
            return None;
        },
    };
    if v.named.len() != 0 || v.args.len() == 0 {
        return None;
    }
    proof {
        assert(node_wf(m.nodes@[node.0 as int], node.0 as int, m.symbols@.len()));
        assert forall|k: int| 0 <= k < v.args@.len() implies (#[trigger] v.args@[k]).0 < m.nodes@.len() by {
            assert(crate::ir::call_children(*v)[k] == v.args@[k]);
            assert(crate::ir::node_children(Node::Call(*v))[k].0 < node.0);
        }
    }
    let mut out: Vec<i64> = Vec::new();
    let mut k: usize = 0;
    while k < v.args.len()
        invariant
            m.wf(),
            m.at(node) == Node::Call(*v),
            is_builtin_named(*m, node, "vector"@),
            v.named@.len() == 0,
            v.args@.len() > 0,
            forall|q: int| 0 <= q < v.args@.len() ==> (#[trigger] v.args@[q]).0 < m.nodes@.len(),
            k <= v.args@.len(),
            forall|q: int| 0 <= q < k ==> #[trigger] int_lit(*m, v.args@[q]) is Some,
            out@ == v.args@.subrange(0, k as int).map_values(|a: NodeId| int_lit(*m, a).unwrap()),
        decreases v.args@.len() - k,
    {
        match m.node(v.args[k]) {
            Node::Lit(Scalar::Int(i)) => {
                out.push(*i);
                proof {
                    assert(v.args@.subrange(0, k as int + 1).map_values(|a: NodeId| int_lit(*m, a).unwrap())
                        =~= v.args@.subrange(0, k as int).map_values(|a: NodeId| int_lit(*m, a).unwrap()).push(*i));
                }
            },
            _ => {
                proof {
                    assert(int_lit(*m, v.args@[k as int]) is None);
                }
                return None;
            },
        }
        k += 1;
    }
    proof {
        assert(v.args@.subrange(0, v.args@.len() as int) =~= v.args@);
    }
    Some(out)
}

/// Read a non-empty positional `vector` of string literals (see [`str_vec`]).
pub fn string_literal_vector(m: &Module, node: NodeId) -> (r: Option<Vec<String>>)
    requires
        m.wf(),
        node.0 < m.nodes@.len(),
    ensures
        match r {
            Some(v) => str_vec(*m, node) == Some(strs_view(v@)),
            None => str_vec(*m, node) is None,
        },
{
    let v = match crate::shape::expect_builtin_call(m, node, "vector") {
        Some(c) => c,
        None => {
            return None;
        },
    };
    if v.named.len() != 0 || v.args.len() == 0 {
        return None;
    }
    proof {
        assert(node_wf(m.nodes@[node.0 as int], node.0 as int, m.symbols@.len()));
        assert forall|k: int| 0 <= k < v.args@.len() implies (#[trigger] v.args@[k]).0 < m.nodes@.len() by {
            assert(crate::ir::call_children(*v)[k] == v.args@[k]);
            assert(crate::ir::node_children(Node::Call(*v))[k].0 < node.0);
        }
    }
    let mut out: Vec<String> = Vec::new();
    let mut k: usize = 0;
    while k < v.args.len()
        invariant
            m.wf(),
            m.at(node) == Node::Call(*v),
            is_builtin_named(*m, node, "vector"@),
            v.named@.len() == 0,
            v.args@.len() > 0,
            forall|q: int| 0 <= q < v.args@.len() ==> (#[trigger] v.args@[q]).0 < m.nodes@.len(),
            k <= v.args@.len(),
            forall|q: int| 0 <= q < k ==> #[trigger] crate::disintegrate::str_lit(*m, v.args@[q]) is Some,
            strs_view(out@) == v.args@.subrange(0, k as int).map_values(
                |a: NodeId| crate::disintegrate::str_lit(*m, a).unwrap(),
            ),
        decreases v.args@.len() - k,
    {
        match m.node(v.args[k]) {
            Node::Lit(Scalar::Str(s)) => {
                let ghost before = out@;
                out.push(s.clone());
                proof {
                    assert(strs_view(out@) =~= strs_view(before).push(s@));
                    assert(v.args@.subrange(0, k as int + 1).map_values(
                        |a: NodeId| crate::disintegrate::str_lit(*m, a).unwrap(),
                    ) =~= v.args@.subrange(0, k as int).map_values(
                        |a: NodeId| crate::disintegrate::str_lit(*m, a).unwrap(),
                    ).push(s@));
                }
            },
            _ => {
                proof {
                    assert(crate::disintegrate::str_lit(*m, v.args@[k as int]) is None);
                }
                return None;
            },
        }
        k += 1;
    }
    proof {
        assert(v.args@.subrange(0, v.args@.len() as int) =~= v.args@);
    }
    Some(out)
}

pub open spec fn projection_view(r: Option<GetProjection>) -> Option<(SelectorV, bool)> {
    match r {
        Some(p) => Some((selector_view(p.sel), p.subset)),
        None => None,
    }
}

fn unsupported(what: &'static str) -> (r: Option<GetProjection>)
    ensures
        projection_view(r) == Some((SelectorV::Unsupported(what@), true)),
{
    Some(GetProjection { sel: Selector::Unsupported(what), subset: true })
}

/// Recognise a pure structural projection forward function (see
/// [`projection_spec`]).
pub fn recognize_get_projection(m: &Module, f: NodeId) -> (r: Option<GetProjection>)
    requires
        m.wf(),
        f.0 < m.nodes@.len(),
    ensures
        projection_view(r) == projection_spec(*m, f),
{
    let c = match crate::shape::expect_builtin_call(m, f, "functionof") {
        Some(c) => c,
        None => {
            return None;
        },
    };
    if c.args.len() != 1 {
        return None;
    }
    let entries = match &c.inputs {
        Some(crate::ir::Inputs::Spec(entries)) => entries,
        _ => {
            return None;
        },
    };
    if entries.len() != 1 || entries[0].1.ns != crate::ir::RefNs::Local {
        return None;
    }
    let ph = entries[0].1.name;
    proof {
        assert(node_wf(m.nodes@[f.0 as int], f.0 as int, m.symbols@.len()));
        assert(crate::ir::node_children(Node::Call(*c))[0] == c.args@[0]);
    }
    let body = c.args[0];
    let (get, one_based) = match crate::shape::expect_builtin_call(m, body, "get") {
        Some(g) => (g, true),
        None => match crate::shape::expect_builtin_call(m, body, "get0") {
            Some(g) => (g, false),
            None => {
                return None;
            },
        },
    };
    if get.args.len() == 0 {
        return None;
    }
    proof {
        assert(node_wf(m.nodes@[body.0 as int], body.0 as int, m.symbols@.len()));
        assert(crate::ir::node_children(Node::Call(*get))[0] == get.args@[0]);
    }
    let on_input = match m.node(get.args[0]) {
        Node::Ref(r) => r.ns == crate::ir::RefNs::Local && r.name == ph,
        _ => false,
    };
    if !on_input {
        return None;
    }
    if get.named.len() != 0 {
        proof {
            reveal_strlit("a keyword selector argument");
        }
        return unsupported("a keyword selector argument");
    }
    if get.args.len() > 2 {
        proof {
            reveal_strlit("a multi-axis selector (more than one selector argument)");
        }
        return unsupported("a multi-axis selector (more than one selector argument)");
    }
    if get.args.len() < 2 {
        proof {
            reveal_strlit("no selector argument");
        }
        return unsupported("no selector argument");
    }
    let sel = get.args[1];
    proof {
        assert(crate::ir::node_children(Node::Call(*get))[1] == get.args@[1]);
        assert(node_wf(m.nodes@[sel.0 as int], sel.0 as int, m.symbols@.len()));
    }
    if let Some(names) = string_literal_vector(m, sel) {
        return Some(GetProjection { sel: Selector::Names(names), subset: true });
    }
    if let Some(raw) = int_literal_vector(m, sel) {
        return Some(GetProjection { sel: Selector::Indices { raw, one_based }, subset: true });
    }
    match m.node(sel) {
        Node::Lit(Scalar::Str(s)) => {
            let mut v: Vec<String> = Vec::new();
            v.push(s.clone());
            proof {
                assert(strs_view(v@) =~= seq![s@]);
            }
            Some(GetProjection { sel: Selector::Names(v), subset: false })
        },
        Node::Lit(Scalar::Int(i)) => {
            let mut v: Vec<i64> = Vec::new();
            v.push(*i);
            proof {
                assert(v@ =~= seq![*i]);
            }
            Some(GetProjection { sel: Selector::Indices { raw: v, one_based }, subset: false })
        },
        Node::Const(k) => {
            proof {
                reveal_strlit("all");
                reveal_strlit("only");
                reveal_strlit("the `all` axis keyword");
                reveal_strlit("the `only` axis keyword");
                reveal_strlit("a non-literal selector");
            }
            let text = m.resolve(*k);
            if crate::ir::str_eq(text, "all") {
                unsupported("the `all` axis keyword")
            } else if crate::ir::str_eq(text, "only") {
                unsupported("the `only` axis keyword")
            } else {
                unsupported("a non-literal selector")
            }
        },
        _ => {
            proof {
                reveal_strlit("a selector vector that is not all field names or all integer indices");
                reveal_strlit("a non-literal selector");
            }
            if crate::driver::is_op(m, sel, "vector") {
                unsupported("a selector vector that is not all field names or all integer indices")
            } else {
                unsupported("a non-literal selector")
            }
        },
    }
}


// ---------------------------------------------------------------------------
// Selected component indices
// ---------------------------------------------------------------------------

/// The written indices an `n`-slot product admits: `1..=n` for `get`,
/// `0..=n-1` for `get0`.
pub open spec fn index_range(one_based: bool, n: nat) -> (int, int) {
    if one_based {
        (1, n as int)
    } else {
        (0, n - 1)
    }
}

pub open spec fn index_in_range(i: i64, one_based: bool, n: nat) -> bool {
    index_range(one_based, n).0 <= i <= index_range(one_based, n).1
}

/// Every written index is in range and none is selected twice.
pub open spec fn indices_ok(raw: Seq<i64>, one_based: bool, n: nat) -> bool {
    &&& forall|k: int| 0 <= k < raw.len() ==> index_in_range(#[trigger] raw[k], one_based, n)
    &&& forall|j: int, k: int| 0 <= j < k < raw.len() ==> #[trigger] raw[j] != #[trigger] raw[k]
}

pub open spec fn convention_text(one_based: bool) -> Seq<char> {
    if one_based {
        "`get` is 1-based"@
    } else {
        "`get0` is 0-based"@
    }
}

pub open spec fn out_of_range_reason(i: i64, one_based: bool, n: nat) -> Seq<char> {
    "structural projection selects index "@ + crate::text::signed_decimal(i as int) + ", outside "@
        + crate::text::signed_decimal(index_range(one_based, n).0) + "..="@ + crate::text::signed_decimal(
        index_range(one_based, n).1,
    ) + " for this "@ + crate::text::decimal(n) + "-component product ("@ + convention_text(one_based)
        + " indexing, §07 `get0`) — refuse rather than mislower"@
}

pub open spec fn selected_twice_reason(i: i64) -> Seq<char> {
    "structural projection selects index "@ + crate::text::signed_decimal(i as int)
        + " twice — the sub-product would score that component twice, double-counting its density term — refuse rather than mislower"@
}

/// The refusal `e`, at `node`, of the first written index in `raw` that is
/// out of range or selected twice.
pub open spec fn index_refusal(m: Module, node: NodeId, raw: Seq<i64>, one_based: bool, n: nat, e: RefuseError) -> bool {
    &&& e.node == node
    &&& e.construct@ == construct_name(m, node)
    &&& exists|k: int|
        {
            &&& 0 <= k < raw.len()
            &&& indices_ok(raw.subrange(0, k), one_based, n)
            &&& if !index_in_range(#[trigger] raw[k], one_based, n) {
                e.reason@ == out_of_range_reason(raw[k], one_based, n)
            } else {
                e.reason@ == selected_twice_reason(raw[k])
            }
        }
}

/// The written indices of a projection as 0-based component positions over
/// an `n`-slot product, in selection order; refuses, at the first offending
/// index, one outside the product (in the written convention) and one
/// selected twice.
pub fn normalize_selected_indices(
    m: &Module,
    node: NodeId,
    raw: &Vec<i64>,
    one_based: bool,
    n: usize,
) -> (r: Result<Vec<usize>, RefuseError>)
    requires
        m.wf(),
        node.0 < m.nodes@.len(),
    ensures
        match r {
            Ok(out) => {
                &&& indices_ok(raw@, one_based, n as nat)
                &&& out@.len() == raw@.len()
                &&& forall|k: int| 0 <= k < raw@.len() ==> #[trigger] out@[k] == raw@[k] - index_range(one_based, n as nat).0
            },
            Err(e) => !indices_ok(raw@, one_based, n as nat) && index_refusal(*m, node, raw@, one_based, n as nat, e),
        },
{
    let (lo, hi): (i128, i128) = if one_based {
        (1, n as i128)
    } else {
        (0, n as i128 - 1)
    };
    let mut out: Vec<usize> = Vec::new();
    let mut k: usize = 0;
    while k < raw.len()
        invariant
            m.wf(),
            node.0 < m.nodes@.len(),
            lo == index_range(one_based, n as nat).0,
            hi == index_range(one_based, n as nat).1,
            k <= raw@.len(),
            indices_ok(raw@.subrange(0, k as int), one_based, n as nat),
            out@.len() == k,
            forall|q: int| 0 <= q < k ==> #[trigger] out@[q] == raw@[q] - lo,
        decreases raw@.len() - k,
    {
        let i = raw[k];
        if (i as i128) < lo || (i as i128) > hi {
            let mut s = String::from_str("structural projection selects index ");
            s.append(crate::text::signed_decimal_string(i).as_str());
            s.append(", outside ");
            s.append(crate::text::signed_decimal_string_wide(lo).as_str());
            s.append("..=");
            s.append(crate::text::signed_decimal_string_wide(hi).as_str());
            s.append(" for this ");
            s.append(crate::text::decimal_string(n as u128).as_str());
            s.append("-component product (");
            if one_based {
                s.append("`get` is 1-based");
            } else {
                s.append("`get0` is 0-based");
            }
            s.append(" indexing, §07 `get0`) — refuse rather than mislower");
            proof {
                assert(!index_in_range(raw@[k as int], one_based, n as nat));
                assert(!indices_ok(raw@, one_based, n as nat));
                assert(raw@.subrange(0, k as int) == raw@.subrange(0, k as int));
            }
            return Err(crate::shape::refuse(node, m, s.as_str()));
        }
        let idx: usize = ((i as i128) - lo) as usize;
        let mut q: usize = 0;
        while q < out.len()
            invariant
                m.wf(),
                node.0 < m.nodes@.len(),
                    lo == index_range(one_based, n as nat).0,
                hi == index_range(one_based, n as nat).1,
                indices_ok(raw@.subrange(0, k as int), one_based, n as nat),
                out@.len() == k,
                k < raw@.len(),
                i == raw@[k as int],
                lo <= i <= hi,
                q <= k,
                idx == i - lo,
                forall|qq: int| 0 <= qq < k ==> #[trigger] out@[qq] == raw@[qq] - lo,
                forall|qq: int| 0 <= qq < q ==> raw@[qq] != i,
            decreases k - q,
        {
            if out[q] == idx {
                let mut s = String::from_str("structural projection selects index ");
                s.append(crate::text::signed_decimal_string(i).as_str());
                s.append(" twice — the sub-product would score that component twice, double-counting its density term — refuse rather than mislower");
                proof {
                    assert(raw@[q as int] == i);
                    assert(!indices_ok(raw@, one_based, n as nat));
                    assert(index_in_range(raw@[k as int], one_based, n as nat));
                }
                return Err(crate::shape::refuse(node, m, s.as_str()));
            }
            q += 1;
        }
        out.push(idx);
        proof {
            let sub = raw@.subrange(0, k as int + 1);
            assert forall|a: int| 0 <= a < sub.len() implies index_in_range(#[trigger] sub[a], one_based, n as nat) by {
                if a < k {
                    assert(sub[a] == raw@.subrange(0, k as int)[a]);
                }
            }
            assert forall|a: int, b: int| 0 <= a < b < sub.len() implies #[trigger] sub[a] != #[trigger] sub[b] by {
                if b < k {
                    assert(sub[a] == raw@.subrange(0, k as int)[a]);
                    assert(sub[b] == raw@.subrange(0, k as int)[b]);
                }
            }
        }
        k += 1;
    }
    proof {
        assert(raw@.subrange(0, raw@.len() as int) =~= raw@);
    }
    Ok(out)
}


/// The static leading length of an array-typed point, if it has one.
pub open spec fn static_lead(t: Option<Type>) -> Option<u64> {
    match t {
        Some(Type::Array { shape, .. }) => if shape@.len() > 0 {
            match shape@[0] {
                crate::ir::Dim::Static(n) => Some(n),
                crate::ir::Dim::Dynamic => None,
            }
        } else {
            None
        },
        _ => None,
    }
}

pub open spec fn length_mismatch_reason(k: nat, n: nat) -> Seq<char> {
    "structural projection selects "@ + crate::text::decimal(k) + " component(s) but the query point has "@
        + crate::text::decimal(n)
        + " — the projected variate is the sub-product over the selected components, so a longer point would have its tail silently dropped — refuse rather than mislower"@
}

/// Refuse a point whose static leading length is not the number `k` of
/// selected components; a dynamic or unknown length passes.
pub fn refuse_point_length_mismatch(m: &Module, v: NodeId, k: usize) -> (r: Result<(), RefuseError>)
    requires
        m.wf(),
        v.0 < m.nodes@.len(),
    ensures
        match r {
            Ok(()) => !(static_lead(m.types@[v.0 as int]) matches Some(n) && n as usize != k),
            Err(e) => static_lead(m.types@[v.0 as int]) matches Some(n) && n as usize != k && e.node == v
                && e.construct@ == construct_name(*m, v) && e.reason@ == length_mismatch_reason(k as nat, n as nat),
        },
{
    let n: u64 = match m.type_of(v) {
        Some(Type::Array { shape, .. }) => {
            if shape.len() == 0 {
                return Ok(());
            }
            match shape[0] {
                crate::ir::Dim::Static(n) => n,
                crate::ir::Dim::Dynamic => {
                    return Ok(());
                },
            }
        },
        _ => {
            return Ok(());
        },
    };
    if n as usize != k {
        let mut s = String::from_str("structural projection selects ");
        s.append(crate::text::decimal_string(k as u128).as_str());
        s.append(" component(s) but the query point has ");
        s.append(crate::text::decimal_string(n as u128).as_str());
        s.append(" — the projected variate is the sub-product over the selected components, so a longer point would have its tail silently dropped — refuse rather than mislower");
        return Err(crate::shape::refuse(v, m, s.as_str()));
    }
    Ok(())
}


// ---------------------------------------------------------------------------
// Weights and mixtures
// ---------------------------------------------------------------------------

/// A reified callable's inferred type.
pub open spec fn callable_type(t: Option<Type>) -> bool {
    t matches Some(Type::Function) || t matches Some(Type::Kernel)
}

/// A weight is a function of the variate: it is typed as a function or a
/// kernel, or resolves (one hop) to a `functionof` / `kernelof`
/// reification or to a node so typed.
pub open spec fn weight_dependent(m: Module, w: NodeId) -> bool {
    let r = crate::shape::resolve_one_spec(m, w).0;
    ||| callable_type(m.types@[w.0 as int])
    ||| is_builtin_named(m, r, "functionof"@)
    ||| is_builtin_named(m, r, "kernelof"@)
    ||| callable_type(m.types@[r.0 as int])
}

fn is_callable_type(t: Option<&Type>) -> (b: bool)
    ensures
        b == callable_type(match t {
            Some(x) => Some(*x),
            None => None,
        }),
{
    match t {
        Some(Type::Function) => true,
        Some(Type::Kernel) => true,
        _ => false,
    }
}

/// Whether the weight `w` of a `weighted` / `logweighted` is a function of
/// the variate, to be applied at it, rather than a constant (see
/// [`weight_dependent`]).
pub fn weight_is_variate_dependent(m: &Module, w: NodeId) -> (b: bool)
    requires
        m.wf(),
        w.0 < m.nodes@.len(),
    ensures
        b == weight_dependent(*m, w),
{
    if is_callable_type(m.type_of(w)) {
        return true;
    }
    let (resolved, _) = crate::shape::resolve_ref_one(m, w);
    if crate::driver::is_op(m, resolved, "functionof") || crate::driver::is_op(m, resolved, "kernelof") {
        return true;
    }
    is_callable_type(m.type_of(resolved))
}

/// Component `comp` of a superposition is `weighted(w, A)` (after one hop)
/// with two positional arguments, `A` (after one hop) typed a normalized
/// measure and `w` not variate-dependent; its weight.
pub open spec fn convex_weight(m: Module, comp: NodeId) -> Option<NodeId> {
    let r = crate::shape::resolve_one_spec(m, comp).0;
    if is_builtin_named(m, r, "weighted"@) {
        match m.at(r) {
            Node::Call(w) => if w.args@.len() == 2 {
                let base = crate::shape::resolve_one_spec(m, w.args@[1]).0;
                if m.types@[base.0 as int] matches Some(Type::Measure { mass: crate::ir::Mass::Normalized, .. })
                    && !weight_dependent(m, w.args@[0]) {
                    Some(w.args@[0])
                } else {
                    None
                }
            } else {
                None
            },
            _ => None,
        }
    } else {
        None
    }
}

/// The weights of `node = superpose(weighted(w₁, A₁), …)` with at least two
/// components when every component is a convex mixand (see
/// [`convex_weight`]).
pub open spec fn convex_weights(m: Module, node: NodeId) -> Option<Seq<NodeId>> {
    if is_builtin_named(m, node, "superpose"@) {
        match m.at(node) {
            Node::Call(c) => if c.args@.len() >= 2 && forall|k: int|
                0 <= k < c.args@.len() ==> #[trigger] convex_weight(m, c.args@[k]) is Some {
                Some(c.args@.map_values(|a: NodeId| convex_weight(m, a).unwrap()))
            } else {
                None
            },
            _ => None,
        }
    } else {
        None
    }
}

fn child_below(m: &Module, id: NodeId, k: usize) -> (c: NodeId)
    requires
        m.wf(),
        id.0 < m.nodes@.len(),
        k < crate::ir::node_children(m.at(id)).len(),
    ensures
        c == crate::ir::node_children(m.at(id))[k as int],
        c.0 < id.0,
{
    proof {
        assert(node_wf(m.nodes@[id.0 as int], id.0 as int, m.symbols@.len()));
    }
    let ch = m.children(id);
    ch[k]
}

/// The weight a convex mixand contributes (see [`convex_weight`]).
fn mixand_weight(m: &Module, comp: NodeId) -> (r: Option<NodeId>)
    requires
        m.wf(),
        comp.0 < m.nodes@.len(),
    ensures
        r == convex_weight(*m, comp),
        r matches Some(w) ==> w.0 < m.nodes@.len(),
{
    let (resolved, _) = crate::shape::resolve_ref_one(m, comp);
    let (weight, base) = match crate::shape::expect_builtin_call(m, resolved, "weighted") {
        Some(w) => {
            if w.args.len() != 2 {
                return None;
            }
            (w.args[0], w.args[1])
        },
        None => {
            return None;
        },
    };
    proof {
        assert(node_wf(m.nodes@[resolved.0 as int], resolved.0 as int, m.symbols@.len()));
        if let Node::Call(w) = m.at(resolved) {
            assert(crate::ir::node_children(m.at(resolved))[0] == w.args@[0]);
            assert(crate::ir::node_children(m.at(resolved))[1] == w.args@[1]);
        }
    }
    let (base_resolved, _) = crate::shape::resolve_ref_one(m, base);
    let normalized = match m.type_of(base_resolved) {
        Some(Type::Measure { mass: crate::ir::Mass::Normalized, .. }) => true,
        _ => false,
    };
    if !normalized {
        return None;
    }
    if weight_is_variate_dependent(m, weight) {
        return None;
    }
    Some(weight)
}

/// Recognise a convex superposition of normalized mixands and return its
/// weights (see [`convex_weights`]).
pub fn recognize_convex_superposition(m: &Module, node: NodeId) -> (r: Option<Vec<NodeId>>)
    requires
        m.wf(),
        node.0 < m.nodes@.len(),
    ensures
        match r {
            Some(v) => convex_weights(*m, node) == Some(v@),
            None => convex_weights(*m, node) is None,
        },
        r matches Some(v) ==> forall|q: int| 0 <= q < v@.len() ==> (#[trigger] v@[q]).0 < m.nodes@.len(),
{
    let sup = match crate::shape::expect_builtin_call(m, node, "superpose") {
        Some(c) => c,
        None => {
            return None;
        },
    };
    if sup.args.len() < 2 {
        return None;
    }
    proof {
        assert(node_wf(m.nodes@[node.0 as int], node.0 as int, m.symbols@.len()));
        assert forall|k: int| 0 <= k < sup.args@.len() implies (#[trigger] sup.args@[k]).0 < m.nodes@.len() by {
            assert(crate::ir::node_children(Node::Call(*sup))[k] == sup.args@[k]);
        }
    }
    let mut weights: Vec<NodeId> = Vec::new();
    let mut k: usize = 0;
    while k < sup.args.len()
        invariant
            m.wf(),
            m.at(node) == Node::Call(*sup),
            is_builtin_named(*m, node, "superpose"@),
            sup.args@.len() >= 2,
            forall|q: int| 0 <= q < sup.args@.len() ==> (#[trigger] sup.args@[q]).0 < m.nodes@.len(),
            k <= sup.args@.len(),
            forall|q: int| 0 <= q < k ==> #[trigger] convex_weight(*m, sup.args@[q]) is Some,
            forall|q: int| 0 <= q < weights@.len() ==> (#[trigger] weights@[q]).0 < m.nodes@.len(),
            weights@ == sup.args@.subrange(0, k as int).map_values(|a: NodeId| convex_weight(*m, a).unwrap()),
        decreases sup.args@.len() - k,
    {
        match mixand_weight(m, sup.args[k]) {
            Some(w) => {
                weights.push(w);
                proof {
                    assert(sup.args@.subrange(0, k as int + 1).map_values(|a: NodeId| convex_weight(*m, a).unwrap())
                        =~= sup.args@.subrange(0, k as int).map_values(|a: NodeId| convex_weight(*m, a).unwrap()).push(w));
                }
            },
            None => {
                return None;
            },
        }
        k += 1;
    }
    proof {
        assert(sup.args@.subrange(0, sup.args@.len() as int) =~= sup.args@);
    }
    Some(weights)
}

// ---------------------------------------------------------------------------
// The parameter point of a likelihood query
// ---------------------------------------------------------------------------

/// The `(name, value)` pairs of a call's `%field` entries, in order.
pub open spec fn field_entries(c: Call) -> Seq<(Symbol, NodeId)> {
    c.named@.filter(|na: NamedArg| na.kind == NamedKind::Field).map_values(|na: NamedArg| (na.name, na.value))
}

/// What [`theta_field_map`] reads from the point `theta`: the field entries
/// of the record it resolves to (one hop), when every field names a
/// binding of the module.
pub open spec fn theta_fields(m: Module, theta: NodeId) -> Option<Seq<(Symbol, NodeId)>> {
    let r = crate::shape::resolve_one_spec(m, theta).0;
    if is_builtin_named(m, r, "record"@) {
        match m.at(r) {
            Node::Call(c) => Some(field_entries(c)),
            _ => None,
        }
    } else {
        None
    }
}

/// The first field, from entry `k` on, that names no binding of the module.
pub open spec fn first_unbound(m: Module, fs: Seq<(Symbol, NodeId)>, k: nat) -> Option<nat>
    decreases fs.len() - k,
{
    if k >= fs.len() {
        None
    } else if !m.has_binding_named(fs[k as int].0) {
        Some(k)
    } else {
        first_unbound(m, fs, k + 1)
    }
}

pub open spec fn theta_record_reason() -> Seq<char> {
    "logdensityof(L, θ): θ must be a record"@
}

pub open spec fn theta_unbound_reason() -> Seq<char> {
    "θ names a parameter with no module binding"@
}

/// The `name → value` entries of the parameter point `theta` of a
/// likelihood query. Refuses at `theta` when it does not resolve to a
/// record, and at the value of the first field that names no binding.
pub fn theta_field_map(m: &Module, theta: NodeId) -> (r: Result<Vec<(Symbol, NodeId)>, RefuseError>)
    requires
        m.wf(),
        theta.0 < m.nodes@.len(),
    ensures
        match r {
            Ok(v) => theta_fields(*m, theta) == Some(v@) && first_unbound(*m, v@, 0) is None,
            Err(e) => match theta_fields(*m, theta) {
                None => e.node == theta && e.construct@ == construct_name(*m, theta) && e.reason@ == theta_record_reason(),
                Some(fs) => first_unbound(*m, fs, 0) matches Some(k) && e.node == fs[k as int].1 && e.construct@
                    == construct_name(*m, fs[k as int].1) && e.reason@ == theta_unbound_reason(),
            },
        },
{
    let (resolved, _) = crate::shape::resolve_ref_one(m, theta);
    let rec = match crate::shape::expect_builtin_call(m, resolved, "record") {
        Some(c) => c,
        None => {
            proof {
                reveal_strlit("logdensityof(L, θ): θ must be a record");
            }
            return Err(crate::shape::refuse(theta, m, "logdensityof(L, θ): θ must be a record"));
        },
    };
    proof {
        assert(node_wf(m.nodes@[resolved.0 as int], resolved.0 as int, m.symbols@.len()));
    }
    let ghost named = rec.named@;
    let ghost pred = |na: NamedArg| na.kind == NamedKind::Field;
    let ghost fmap = |na: NamedArg| (na.name, na.value);
    let mut fields: Vec<(Symbol, NodeId)> = Vec::new();
    let mut k: usize = 0;
    while k < rec.named.len()
        invariant
            named == rec.named@,
            pred == (|na: NamedArg| na.kind == NamedKind::Field),
            fmap == (|na: NamedArg| (na.name, na.value)),
            k <= named.len(),
            fields@ == named.subrange(0, k as int).filter(pred).map_values(fmap),
        decreases named.len() - k,
    {
        let na = rec.named[k];
        proof {
            named.subrange(0, k as int).lemma_filter_push(na, pred);
            assert(named.subrange(0, k as int + 1) =~= named.subrange(0, k as int).push(na));
        }
        if na.kind == NamedKind::Field {
            fields.push((na.name, na.value));
            proof {
                let f0 = named.subrange(0, k as int).filter(pred);
                assert(f0.push(na).map_values(fmap) =~= f0.map_values(fmap).push((na.name, na.value)));
            }
        }
        k += 1;
    }
    proof {
        assert(named.subrange(0, named.len() as int) =~= named);
        assert(fields@ == field_entries(*rec));
        assert(theta_fields(*m, theta) == Some(fields@));
        assert forall|q: int| 0 <= q < fields@.len() implies (#[trigger] fields@[q]).1.0 < m.nodes@.len() by {
            let f = named.filter(pred);
            named.lemma_filter_contains_rev(pred, f[q]);
            let j = choose|j: int| 0 <= j < named.len() && named[j] == f[q];
            assert(crate::ir::node_children(Node::Call(*rec))[rec.args@.len() + j] == named[j].value);
            assert(fields@[q] == fmap(f[q]));
        }
    }
    let mut i: usize = 0;
    while i < fields.len()
        invariant
            m.wf(),
            theta_fields(*m, theta) == Some(fields@),
            forall|q: int| 0 <= q < fields@.len() ==> (#[trigger] fields@[q]).1.0 < m.nodes@.len(),
            i <= fields@.len(),
            first_unbound(*m, fields@, 0) == first_unbound(*m, fields@, i as nat),
        decreases fields@.len() - i,
    {
        if m.binding_by_name(fields[i].0).is_none() {
            proof {
                reveal_strlit("θ names a parameter with no module binding");
            }
            let e = crate::shape::refuse(fields[i].1, m, "θ names a parameter with no module binding");
            return Err(e);
        }
        i += 1;
    }
    Ok(fields)
}


// ---------------------------------------------------------------------------
// A pointwise product of two Gaussians
// ---------------------------------------------------------------------------

/// Node `node` is exactly the reference `target`.
pub open spec fn ref_is(m: Module, node: NodeId, target: crate::ir::Ref) -> bool {
    node.0 < m.nodes@.len() && m.at(node) == Node::Ref(target)
}

/// Some node of the subtree at `node` is the reference `target`.
pub open spec fn refs_below(m: Module, node: NodeId, target: crate::ir::Ref) -> bool {
    exists|x: NodeId| #[trigger] crate::reach::in_subtree(m, node, x) && ref_is(m, x, target)
}

/// Node `node` is the `Normal` kernel constant.
pub open spec fn normal_const(m: Module, node: NodeId) -> bool {
    node.0 < m.nodes@.len() && (m.at(node) matches Node::Const(s) && m.name_of(s) == "Normal"@)
}

/// The value of the first `(name, value)` pair, from entry `k` on, whose
/// name reads `text`.
pub open spec fn kwarg_named(m: Module, kws: Seq<(Symbol, NodeId)>, text: Seq<char>, k: nat) -> Option<NodeId>
    decreases kws.len() - k,
{
    if k >= kws.len() {
        None
    } else if m.name_of(kws[k as int].0) == text {
        Some(kws[k as int].1)
    } else {
        kwarg_named(m, kws, text, k + 1)
    }
}

/// The value of the first `%field` entry named `text` of the call at `record`.
pub open spec fn field_named(m: Module, record: NodeId, text: Seq<char>) -> Option<NodeId> {
    match m.at(record) {
        Node::Call(c) => crate::canon::flatten::find_field_from(m, c.named@, text, 0),
        _ => None,
    }
}

/// Every record type of the arena names interned fields.
pub open spec fn record_types_interned(m: Module) -> bool {
    forall|id: NodeId| id.0 < m.nodes@.len() ==> #[trigger] record_type_interned(m, id)
}

/// Whether node `node` is exactly the reference `target`.
fn is_ref_to(m: &Module, node: NodeId, target: crate::ir::Ref) -> (b: bool)
    requires
        node.0 < m.nodes@.len(),
    ensures
        b == ref_is(*m, node, target),
{
    match m.node(node) {
        Node::Ref(r) => *r == target,
        _ => false,
    }
}

/// Whether the subtree at `node` holds the reference `target` (see
/// [`refs_below`]).
fn references_ref(m: &Module, node: NodeId, target: crate::ir::Ref) -> (b: bool)
    requires
        m.wf(),
        node.0 < m.nodes@.len(),
    ensures
        b == refs_below(*m, node, target),
    decreases node.0,
{
    if is_ref_to(m, node, target) {
        proof {
            assert(crate::reach::in_subtree(*m, node, node));
        }
        return true;
    }
    proof {
        assert(node_wf(m.nodes@[node.0 as int], node.0 as int, m.symbols@.len()));
    }
    let ch = m.children(node);
    let mut k: usize = 0;
    while k < ch.len()
        invariant
            m.wf(),
            node.0 < m.nodes@.len(),
            !ref_is(*m, node, target),
            ch@ == crate::ir::node_children(m.at(node)),
            forall|q: int| 0 <= q < ch@.len() ==> (#[trigger] ch@[q]).0 < node.0,
            k <= ch@.len(),
            forall|q: int| 0 <= q < k ==> !refs_below(*m, #[trigger] ch@[q], target),
        decreases ch@.len() - k,
    {
        if references_ref(m, ch[k], target) {
            proof {
                let x = choose|x: NodeId| #[trigger] crate::reach::in_subtree(*m, ch@[k as int], x) && ref_is(*m, x, target);
                assert(crate::reach::in_subtree(*m, node, x));
            }
            return true;
        }
        k += 1;
    }
    proof {
        assert forall|x: NodeId| #[trigger] crate::reach::in_subtree(*m, node, x) implies !ref_is(*m, x, target) by {
            if x != node {
                let q = choose|q: int|
                    0 <= q < crate::ir::node_children(m.at(node)).len() && (#[trigger] crate::ir::node_children(m.at(node))[q]).0
                        < node.0 && crate::reach::in_subtree(*m, crate::ir::node_children(m.at(node))[q], x);
                assert(!refs_below(*m, ch@[q], target));
            }
        }
    }
    false
}

/// Whether `node` is the `Normal` kernel constant.
fn is_normal_const(m: &Module, node: NodeId) -> (b: bool)
    requires
        m.wf(),
        node.0 < m.nodes@.len(),
    ensures
        b == normal_const(*m, node),
{
    proof {
        assert(node_wf(m.nodes@[node.0 as int], node.0 as int, m.symbols@.len()));
    }
    match m.node(node) {
        Node::Const(s) => crate::ir::str_eq(m.resolve(*s), "Normal"),
        _ => false,
    }
}

/// The value of the keyword argument named `name` (see [`kwarg_named`]).
fn find_kwarg(m: &Module, kwargs: &Vec<(Symbol, NodeId)>, name: &str) -> (r: Option<NodeId>)
    requires
        pairs_in(*m, kwargs@),
    ensures
        r == kwarg_named(*m, kwargs@, name@, 0),
{
    let mut k: usize = 0;
    while k < kwargs.len()
        invariant
            pairs_in(*m, kwargs@),
            k <= kwargs@.len(),
            kwarg_named(*m, kwargs@, name@, 0) == kwarg_named(*m, kwargs@, name@, k as nat),
        decreases kwargs@.len() - k,
    {
        proof {
            assert(kwargs@[k as int].0.0 < m.symbols@.len());
        }
        if crate::ir::str_eq(m.resolve(kwargs[k].0), name) {
            return Some(kwargs[k].1);
        }
        k += 1;
    }
    None
}

/// The value of the `%field` entry named `name` of the call at `record`
/// (see [`field_named`]).
fn find_field(m: &Module, record: NodeId, name: &str) -> (r: Option<NodeId>)
    requires
        m.wf(),
        record.0 < m.nodes@.len(),
    ensures
        r == field_named(*m, record, name@),
        r matches Some(x) ==> x.0 < record.0,
{
    proof {
        assert(node_wf(m.nodes@[record.0 as int], record.0 as int, m.symbols@.len()));
    }
    let c = match m.node(record) {
        Node::Call(c) => c,
        _ => {
            return None;
        },
    };
    let mut k: usize = 0;
    while k < c.named.len()
        invariant
            m.wf(),
            record.0 < m.nodes@.len(),
            m.at(record) == Node::Call(*c),
            k <= c.named@.len(),
            crate::canon::flatten::find_field_from(*m, c.named@, name@, 0) == crate::canon::flatten::find_field_from(
                *m,
                c.named@,
                name@,
                k as nat,
            ),
        decreases c.named@.len() - k,
    {
        let na = c.named[k];
        proof {
            assert(node_wf(m.nodes@[record.0 as int], record.0 as int, m.symbols@.len()));
            assert(na.name.0 < m.symbols@.len());
        }
        if na.kind == NamedKind::Field && crate::ir::str_eq(m.resolve(na.name), name) {
            proof {
                let ch = crate::ir::call_children(*c);
                let off = ch.len() - c.named@.len();
                assert(c.named@.map_values(|x: NamedArg| x.value)[k as int] == na.value);
                assert(ch[off + k] == na.value) by {
                    if c.head is User {
                        assert(ch == seq![c.head->User_0] + c.args@ + c.named@.map_values(|x: NamedArg| x.value));
                    } else {
                        assert(ch == c.args@ + c.named@.map_values(|x: NamedArg| x.value));
                    }
                }
                assert(crate::ir::node_children(m.at(record))[off + k].0 < record.0);
            }
            return Some(na.value);
        }
        k += 1;
    }
    None
}

/// The keyword constructor `Normal(mu = mu, sigma = sigma)`.
pub open spec fn normal_ctor_at(m: Module, n: NodeId, mu: NodeId, sigma: NodeId) -> bool {
    &&& is_builtin_named(m, n, "Normal"@)
    &&& m.at(n) matches Node::Call(c) && c.args@.len() == 0 && c.inputs is None && c.named@.len() == 2
        && c.named@[0].kind == NamedKind::Kwarg && m.name_of(c.named@[0].name) == "mu"@ && c.named@[0].value == mu
        && c.named@[1].kind == NamedKind::Kwarg && m.name_of(c.named@[1].name) == "sigma"@ && c.named@[1].value == sigma
}

/// Allocate the keyword constructor `Normal(mu = mu, sigma = sigma)`.
fn build_normal_ctor(m: &mut Module, mu: NodeId, sigma: NodeId) -> (r: NodeId)
    requires
        old(m).wf(),
        mu.0 < old(m).nodes@.len(),
        sigma.0 < old(m).nodes@.len(),
    ensures
        final(m).wf(),
        final(m).extends(old(m)),
        final(m).bindings@ == old(m).bindings@,
        r.0 == final(m).nodes@.len() - 1,
        r.0 >= old(m).nodes@.len(),
        final(m).types@ == old(m).types@.push(None),
        normal_ctor_at(*final(m), r, mu, sigma),
{
    let mu_sym = m.intern("mu");
    let ghost m1 = *m;
    let sigma_sym = m.intern("sigma");
    let ghost m2 = *m;
    let normal_sym = m.intern("Normal");
    proof {
        assert(m.name_of(mu_sym) == m1.name_of(mu_sym));
        assert(m.name_of(sigma_sym) == m2.name_of(sigma_sym));
    }
    let mut named: Vec<NamedArg> = Vec::new();
    named.push(NamedArg { kind: NamedKind::Kwarg, name: mu_sym, value: mu });
    named.push(NamedArg { kind: NamedKind::Kwarg, name: sigma_sym, value: sigma });
    let call = Call { head: CallHead::Builtin(normal_sym), args: Vec::new(), named, inputs: None };
    proof {
        assert(crate::ir::call_children(call) =~= seq![mu, sigma]);
    }
    m.add_node(Node::Call(call))
}


/// What [`normal_ctor`] reads from `node` of `m0` (the arena grown to `m`):
/// the `Normal` constructor it resolves to (one hop), with its arguments by
/// name (see [`kernel_split`]).
pub open spec fn normal_split(
    m0: Module,
    m: Module,
    node: NodeId,
    params: Option<Seq<Seq<char>>>,
    r: Option<(NodeId, Seq<(Symbol, NodeId)>)>,
) -> bool {
    let res = crate::shape::resolve_one_spec(m0, node).0;
    if is_builtin_named(m0, res, "Normal"@) {
        match r {
            Some((g, kws)) => g == res && kernel_split(
                m0,
                m,
                res,
                params,
                Some((crate::shape::builtin_of(m0, res).unwrap(), kws)),
            ),
            None => kernel_split(m0, m, res, params, None),
        }
    } else {
        r is None
    }
}

pub open spec fn ctor_view(r: Option<(NodeId, Vec<(Symbol, NodeId)>)>) -> Option<(NodeId, Seq<(Symbol, NodeId)>)> {
    match r {
        Some((g, v)) => Some((g, v@)),
        None => None,
    }
}

/// The `Normal` constructor `node` resolves to, with its arguments by name;
/// `params` are the `Normal` parameter names.
fn normal_ctor(m: &mut Module, node: NodeId, params: &Option<Vec<String>>) -> (r: Option<(NodeId, Vec<(Symbol, NodeId)>)>)
    requires
        old(m).wf(),
        node.0 < old(m).nodes@.len(),
        record_types_interned(*old(m)),
    ensures
        final(m).wf(),
        final(m).extends(old(m)),
        final(m).bindings@ == old(m).bindings@,
        untyped_growth(*old(m), *final(m)),
        normal_split(*old(m), *final(m), node, opt_strs(*params), ctor_view(r)),
        r matches Some((g, kws)) ==> g.0 < old(m).nodes@.len() && pairs_in(*final(m), kws@),
{
    let (resolved, _) = crate::shape::resolve_ref_one(m, node);
    if !crate::driver::is_op(m, resolved, "Normal") {
        return None;
    }
    proof {
        assert(record_type_interned(*m, resolved));
        if let Node::Call(c) = m.at(resolved) {
            if c.args@.len() == 1 {
                assert(node_wf(m.nodes@[resolved.0 as int], resolved.0 as int, m.symbols@.len()));
                if c.head is User {
                    assert(crate::ir::node_children(m.at(resolved))[1] == c.args@[0]);
                } else {
                    assert(crate::ir::node_children(m.at(resolved))[0] == c.args@[0]);
                }
                assert(record_type_interned(*m, c.args@[0]));
            }
        }
    }
    match split_kernel_constructor(m, resolved, params) {
        Some((_, kws)) => Some((resolved, kws)),
        None => None,
    }
}

proof fn lemma_kernel_split_rebase(
    m0: Module,
    m1: Module,
    m: Module,
    node: NodeId,
    params: Option<Seq<Seq<char>>>,
    r: Option<(Symbol, Seq<(Symbol, NodeId)>)>,
)
    requires
        m0.wf(),
        m1.wf(),
        m1.extends(&m0),
        node.0 < m0.nodes@.len(),
        record_types_interned(m0),
        kernel_split(m1, m, node, params, r),
    ensures
        kernel_split(m0, m, node, params, r),
{
    assert(m1.nodes@[node.0 as int] == m0.nodes@[node.0 as int]);
    assert(node_wf(m0.nodes@[node.0 as int], node.0 as int, m0.symbols@.len()));
    if let Node::Call(c) = m0.at(node) {
        if let Some(kws) = kwarg_pairs(c) {
            assert forall|j: int| 0 <= j < kws.len() implies m1.name_of(#[trigger] kws[j].0) == m0.name_of(kws[j].0) by {
                assert(kws[j] == (c.named@[j].name, c.named@[j].value));
                assert(c.named@[j].name.0 < m0.symbols@.len());
            }
            if let Some(ps) = params {
                if c.args@.len() == 1 && c.head is Builtin {
                    assert(crate::ir::node_children(m0.at(node))[0] == c.args@[0]);
                    let a = c.args@[0];
                    assert(record_type_interned(m0, a));
                    assert(m1.types@[a.0 as int] == m0.types@[a.0 as int]);
                    if let Some(Type::Record(fields)) = m0.types@[a.0 as int] {
                        assert(fields@.map_values(|f: (Symbol, Type)| m1.name_of(f.0)) =~= fields@.map_values(
                            |f: (Symbol, Type)| m0.name_of(f.0),
                        ));
                    }
                    assert(splats(m1, c, ps) == splats(m0, c, ps));
                }
                if double_bind(m1, kws, ps, c.args@.len()) {
                    let (j, i) = choose|j: int, i: int|
                        0 <= j < kws.len() && 0 <= i < c.args@.len() && #[trigger] m1.name_of(kws[j].0) == #[trigger] ps[i];
                    assert(m0.name_of(kws[j].0) == ps[i]);
                }
                if double_bind(m0, kws, ps, c.args@.len()) {
                    let (j, i) = choose|j: int, i: int|
                        0 <= j < kws.len() && 0 <= i < c.args@.len() && #[trigger] m0.name_of(kws[j].0) == #[trigger] ps[i];
                    assert(m1.name_of(kws[j].0) == ps[i]);
                }
            }
        }
    }
}

/// What a `Normal` factor reads as its parameters from kwargs `kws`, when
/// neither mentions the reified argument `arg`.
pub open spec fn factor_of_kwargs(m: Module, split: Option<(NodeId, Seq<(Symbol, NodeId)>)>, arg: crate::ir::Ref) -> Option<(NodeId, NodeId)> {
    match split {
        Some((_, kws)) => match (kwarg_named(m, kws, "mu"@, 0), kwarg_named(m, kws, "sigma"@, 0)) {
            (Some(mu), Some(sg)) => if refs_below(m, mu, arg) || refs_below(m, sg, arg) {
                None
            } else {
                Some((mu, sg))
            },
            _ => None,
        },
        None => None,
    }
}

/// What a lowered `Normal` factor reads as its parameters from the kernel
/// input record `rec`, when neither mentions the reified argument `arg`.
pub open spec fn factor_of_fields(m: Module, rec: NodeId, arg: crate::ir::Ref) -> Option<(NodeId, NodeId)> {
    match (field_named(m, rec, "mu"@), field_named(m, rec, "sigma"@)) {
        (Some(mu), Some(sg)) => if refs_below(m, mu, arg) || refs_below(m, sg, arg) {
            None
        } else {
            Some((mu, sg))
        },
        _ => None,
    }
}

/// What [`gaussian_factor_scored_at`] reads from the reified body `body` of
/// `m0` (the arena grown to `m`): the `(mu, sigma)` of a `Normal` scored at
/// exactly the reified argument `arg`, written either as
/// `logdensityof(Normal(…), arg)` or as its lowered form
/// `builtin_logdensityof(Normal, record(mu, sigma), arg)`, when neither
/// parameter mentions `arg`.
pub open spec fn scored_factor(
    m0: Module,
    m: Module,
    body: NodeId,
    arg: crate::ir::Ref,
    params: Option<Seq<Seq<char>>>,
    r: Option<(NodeId, NodeId)>,
) -> bool {
    if is_builtin_named(m0, body, "logdensityof"@) {
        match m0.at(body) {
            Node::Call(ld) => if ld.args@.len() == 2 && ref_is(m0, ld.args@[1], arg) {
                exists|split: Option<(NodeId, Seq<(Symbol, NodeId)>)>|
                    #[trigger] normal_split(m0, m, ld.args@[0], params, split) && split_in(m, split) && r
                        == factor_of_kwargs(m, split, arg)
            } else {
                r is None
            },
            _ => r is None,
        }
    } else if is_builtin_named(m0, body, "builtin_logdensityof"@) {
        match m0.at(body) {
            Node::Call(bl) => if bl.args@.len() != 3 || !normal_const(m0, bl.args@[0]) || !ref_is(m0, bl.args@[2], arg) {
                r is None
            } else {
                r == factor_of_fields(m0, bl.args@[1], arg)
            },
            _ => r is None,
        }
    } else {
        r is None
    }
}

/// The `(mu, sigma)` of a `Normal` factor scored at the reified argument
/// `arg` (see [`scored_factor`]); `params` are the `Normal` parameter names.
fn gaussian_factor_scored_at(m: &mut Module, body: NodeId, arg: crate::ir::Ref, params: &Option<Vec<String>>) -> (r: Option<(NodeId, NodeId)>)
    requires
        old(m).wf(),
        body.0 < old(m).nodes@.len(),
        record_types_interned(*old(m)),
    ensures
        final(m).wf(),
        final(m).extends(old(m)),
        final(m).bindings@ == old(m).bindings@,
        untyped_growth(*old(m), *final(m)),
        scored_factor(*old(m), *final(m), body, arg, opt_strs(*params), r),
        r matches Some((mu, sg)) ==> mu.0 < final(m).nodes@.len() && sg.0 < final(m).nodes@.len(),
{
    let ghost m0 = *m;
    proof {
        assert(node_wf(m.nodes@[body.0 as int], body.0 as int, m.symbols@.len()));
    }
    let g2_ctor: Option<NodeId> = match crate::shape::expect_builtin_call(m, body, "logdensityof") {
        Some(ld) => {
            if ld.args.len() == 2 {
                proof {
                    assert(crate::ir::node_children(Node::Call(*ld))[1] == ld.args@[1]);
                    assert(crate::ir::node_children(Node::Call(*ld))[0] == ld.args@[0]);
                }
                if is_ref_to(m, ld.args[1], arg) {
                    Some(ld.args[0])
                } else {
                    return None;
                }
            } else {
                return None;
            }
        },
        None => None,
    };
    if let Some(g2) = g2_ctor {
        let split = normal_ctor(m, g2, params);
        let ghost sv = ctor_view(split);
        let kwargs = match split {
            Some((_, kw)) => kw,
            None => {
                proof {
                    assert(normal_split(m0, *m, g2, opt_strs(*params), sv));
                    assert(factor_of_kwargs(*m, sv, arg) is None);
                }
                return None;
            },
        };
        let mu2 = match find_kwarg(m, &kwargs, "mu") {
            Some(x) => x,
            None => {
                proof {
                    assert(normal_split(m0, *m, g2, opt_strs(*params), sv));
                }
                return None;
            },
        };
        let sigma2 = match find_kwarg(m, &kwargs, "sigma") {
            Some(x) => x,
            None => {
                proof {
                    assert(normal_split(m0, *m, g2, opt_strs(*params), sv));
                }
                return None;
            },
        };
        proof {
            assert(kwargs@[0].1.0 < m.nodes@.len() || kwargs@.len() == 0);
            lemma_kwarg_named_in(*m, kwargs@, "mu"@, 0);
            lemma_kwarg_named_in(*m, kwargs@, "sigma"@, 0);
        }
        if references_ref(m, mu2, arg) || references_ref(m, sigma2, arg) {
            proof {
                assert(normal_split(m0, *m, g2, opt_strs(*params), sv));
            }
            return None;
        }
        proof {
            assert(normal_split(m0, *m, g2, opt_strs(*params), sv));
        }
        return Some((mu2, sigma2));
    }
    let bl = match crate::shape::expect_builtin_call(m, body, "builtin_logdensityof") {
        Some(bl) => bl,
        None => {
            return None;
        },
    };
    if bl.args.len() != 3 {
        return None;
    }
    proof {
        assert(crate::ir::node_children(Node::Call(*bl))[0] == bl.args@[0]);
        assert(crate::ir::node_children(Node::Call(*bl))[1] == bl.args@[1]);
        assert(crate::ir::node_children(Node::Call(*bl))[2] == bl.args@[2]);
    }
    if !is_normal_const(m, bl.args[0]) || !is_ref_to(m, bl.args[2], arg) {
        return None;
    }
    let rec = bl.args[1];
    let mu2 = match find_field(m, rec, "mu") {
        Some(x) => x,
        None => {
            return None;
        },
    };
    let sigma2 = match find_field(m, rec, "sigma") {
        Some(x) => x,
        None => {
            return None;
        },
    };
    if references_ref(m, mu2, arg) || references_ref(m, sigma2, arg) {
        return None;
    }
    Some((mu2, sigma2))
}

proof fn lemma_kwarg_named_in(m: Module, kws: Seq<(Symbol, NodeId)>, text: Seq<char>, k: nat)
    requires
        pairs_in(m, kws),
    ensures
        kwarg_named(m, kws, text, k) matches Some(x) ==> x.0 < m.nodes@.len(),
    decreases kws.len() - k,
{
    if k < kws.len() {
        lemma_kwarg_named_in(m, kws, text, k + 1);
    }
}

/// The keyword entries of a split constructor lie in the arena.
pub open spec fn split_in(m: Module, split: Option<(NodeId, Seq<(Symbol, NodeId)>)>) -> bool {
    match split {
        Some((_, kws)) => pairs_in(m, kws),
        None => true,
    }
}

/// The constructor node and its `mu` and `sigma` arguments, by name.
pub open spec fn ctor_params(m: Module, split: Option<(NodeId, Seq<(Symbol, NodeId)>)>) -> Option<(NodeId, NodeId, NodeId)> {
    match split {
        Some((g, kws)) => match (kwarg_named(m, kws, "mu"@, 0), kwarg_named(m, kws, "sigma"@, 0)) {
            (Some(mu), Some(sg)) => Some((g, mu, sg)),
            _ => None,
        },
        None => None,
    }
}

/// The single body and the reified argument of the `functionof` at `f`, when
/// it has one positional body and one declared input.
pub open spec fn reified_scorer(m: Module, f: NodeId) -> Option<(NodeId, crate::ir::Ref)> {
    if is_builtin_named(m, f, "functionof"@) {
        match m.at(f) {
            Node::Call(c) => if c.args@.len() != 1 {
                None
            } else {
                match c.inputs {
                    Some(crate::ir::Inputs::Spec(e)) => if e@.len() == 1 {
                        Some((c.args@[0], e@[0].1))
                    } else {
                        None
                    },
                    _ => None,
                }
            },
            _ => None,
        }
    } else {
        None
    }
}

/// A pointwise product of two Gaussians, `logweighted(x -> logdensityof(g2,
/// x), g1)`: the base constructor `g1` with its `mu`/`sigma`, and the
/// `mu`/`sigma` of the factor `g2` scored at the reified argument.
#[derive(Clone, Copy, Debug, PartialEq, Eq, Structural)]
pub struct GaussianProduct {
    pub g1: NodeId,
    pub mu1: NodeId,
    pub sigma1: NodeId,
    pub mu2: NodeId,
    pub sigma2: NodeId,
}

/// What [`recognize_gaussian_product`] reads from `lw` of `m0` (the arena
/// grown to `m`): for `logweighted(l, base)` with `base` resolving to a
/// `Normal` with `mu` and `sigma`, and `l` resolving to a reified
/// `functionof` of one body and one input, the product whose second factor
/// that body scores at that input ([`scored_factor`]); nothing otherwise.
pub open spec fn gaussian_product(
    m0: Module,
    m: Module,
    lw: NodeId,
    params: Option<Seq<Seq<char>>>,
    r: Option<GaussianProduct>,
) -> bool {
    match m0.at(lw) {
        Node::Call(c) => if is_builtin_named(m0, lw, "logweighted"@) && c.args@.len() == 2 {
            exists|split: Option<(NodeId, Seq<(Symbol, NodeId)>)>|
                #[trigger] normal_split(m0, m, c.args@[1], params, split) && split_in(m, split) && match ctor_params(
                    m,
                    split,
                ) {
                    None => r is None,
                    Some((g1, mu1, sigma1)) => match reified_scorer(
                        m0,
                        crate::shape::resolve_one_spec(m0, c.args@[0]).0,
                    ) {
                        None => r is None,
                        Some((body, arg)) => exists|f2: Option<(NodeId, NodeId)>|
                            #[trigger] scored_factor(m0, m, body, arg, params, f2) && match f2 {
                                None => r is None,
                                Some((mu2, sigma2)) => r == Some(
                                    (GaussianProduct { g1, mu1, sigma1, mu2, sigma2 }),
                                ),
                            },
                    },
                }
        } else {
            r is None
        },
        _ => r is None,
    }
}

proof fn lemma_kwarg_named_stable(m1: Module, m2: Module, kws: Seq<(Symbol, NodeId)>, text: Seq<char>, k: nat)
    requires
        m2.extends(&m1),
        pairs_in(m1, kws),
    ensures
        kwarg_named(m2, kws, text, k) == kwarg_named(m1, kws, text, k),
    decreases kws.len() - k,
{
    if k < kws.len() {
        assert(kws[k as int].0.0 < m1.symbols@.len());
        lemma_kwarg_named_stable(m1, m2, kws, text, k + 1);
    }
}

proof fn lemma_refs_below_stable(m1: Module, m2: Module, node: NodeId, arg: crate::ir::Ref)
    requires
        m1.wf(),
        m2.extends(&m1),
        node.0 < m1.nodes@.len(),
    ensures
        refs_below(m2, node, arg) == refs_below(m1, node, arg),
{
    if refs_below(m1, node, arg) {
        let x = choose|x: NodeId| #[trigger] crate::reach::in_subtree(m1, node, x) && ref_is(m1, x, arg);
        crate::reach::lemma_in_subtree_stable(m1, m2, node, x);
        assert(m2.nodes@[x.0 as int] == m1.nodes@[x.0 as int]);
        assert(ref_is(m2, x, arg));
    }
    if refs_below(m2, node, arg) {
        let x = choose|x: NodeId| #[trigger] crate::reach::in_subtree(m2, node, x) && ref_is(m2, x, arg);
        crate::reach::lemma_in_subtree_stable(m1, m2, node, x);
        crate::reach::lemma_subtree_below(m1, node, x);
        assert(m2.nodes@[x.0 as int] == m1.nodes@[x.0 as int]);
        assert(ref_is(m1, x, arg));
    }
}

proof fn lemma_normal_split_stable(
    m0: Module,
    m1: Module,
    m2: Module,
    node: NodeId,
    params: Option<Seq<Seq<char>>>,
    r: Option<(NodeId, Seq<(Symbol, NodeId)>)>,
)
    requires
        m1.wf(),
        m2.extends(&m1),
        normal_split(m0, m1, node, params, r),
        split_in(m1, r),
    ensures
        normal_split(m0, m2, node, params, r),
        split_in(m2, r),
{
    let res = crate::shape::resolve_one_spec(m0, node).0;
    if is_builtin_named(m0, res, "Normal"@) {
        match r {
            Some((g, kws)) => {
                lemma_kernel_split_stable(
                    m0,
                    m1,
                    m2,
                    res,
                    params,
                    Some((crate::shape::builtin_of(m0, res).unwrap(), kws)),
                );
            },
            None => {
                lemma_kernel_split_stable(m0, m1, m2, res, params, None);
            },
        }
    }
}

proof fn lemma_normal_split_rebase(
    m0: Module,
    m1: Module,
    m: Module,
    node: NodeId,
    params: Option<Seq<Seq<char>>>,
    r: Option<(NodeId, Seq<(Symbol, NodeId)>)>,
)
    requires
        m0.wf(),
        m1.wf(),
        m1.extends(&m0),
        m1.bindings@ == m0.bindings@,
        node.0 < m0.nodes@.len(),
        record_types_interned(m0),
        normal_split(m1, m, node, params, r),
    ensures
        normal_split(m0, m, node, params, r),
{
    crate::density_broadcast::lemma_values_type_rebase(m0, m1, node);
    let res = crate::shape::resolve_one_spec(m0, node).0;
    assert(m1.nodes@[res.0 as int] == m0.nodes@[res.0 as int]);
    assert(node_wf(m0.nodes@[res.0 as int], res.0 as int, m0.symbols@.len()));
    assert(crate::shape::builtin_of(m1, res) == crate::shape::builtin_of(m0, res));
    if let Some(sym) = crate::shape::builtin_of(m0, res) {
        assert(m1.name_of(sym) == m0.name_of(sym));
    }
    if is_builtin_named(m0, res, "Normal"@) {
        match r {
            Some((g, kws)) => {
                lemma_kernel_split_rebase(
                    m0,
                    m1,
                    m,
                    res,
                    params,
                    Some((crate::shape::builtin_of(m0, res).unwrap(), kws)),
                );
            },
            None => {
                lemma_kernel_split_rebase(m0, m1, m, res, params, None);
            },
        }
    }
}

proof fn lemma_scored_factor_rebase(
    m0: Module,
    m1: Module,
    m: Module,
    body: NodeId,
    arg: crate::ir::Ref,
    params: Option<Seq<Seq<char>>>,
    r: Option<(NodeId, NodeId)>,
)
    requires
        m0.wf(),
        m1.wf(),
        m1.extends(&m0),
        m1.bindings@ == m0.bindings@,
        body.0 < m0.nodes@.len(),
        record_types_interned(m0),
        scored_factor(m1, m, body, arg, params, r),
    ensures
        scored_factor(m0, m, body, arg, params, r),
{
    assert(m1.nodes@[body.0 as int] == m0.nodes@[body.0 as int]);
    assert(node_wf(m0.nodes@[body.0 as int], body.0 as int, m0.symbols@.len()));
    assert(crate::shape::builtin_of(m1, body) == crate::shape::builtin_of(m0, body));
    if let Some(sym) = crate::shape::builtin_of(m0, body) {
        assert(m1.name_of(sym) == m0.name_of(sym));
    }
    if let Node::Call(c) = m0.at(body) {
        assert forall|k: int| 0 <= k < c.args@.len() implies (#[trigger] c.args@[k]).0 < body.0 && m1.at(
            c.args@[k],
        ) == m0.at(c.args@[k]) by {
            if c.head is User {
                assert(crate::ir::node_children(m0.at(body))[k + 1] == c.args@[k]);
            } else {
                assert(crate::ir::node_children(m0.at(body))[k] == c.args@[k]);
            }
            assert(m1.nodes@[c.args@[k].0 as int] == m0.nodes@[c.args@[k].0 as int]);
        }
        if is_builtin_named(m0, body, "logdensityof"@) {
            if c.args@.len() == 2 && ref_is(m0, c.args@[1], arg) {
                let split = choose|split: Option<(NodeId, Seq<(Symbol, NodeId)>)>|
                    #[trigger] normal_split(m1, m, c.args@[0], params, split) && split_in(m, split) && r
                        == factor_of_kwargs(m, split, arg);
                lemma_normal_split_rebase(m0, m1, m, c.args@[0], params, split);
            }
        } else if is_builtin_named(m0, body, "builtin_logdensityof"@) {
            if c.args@.len() == 3 {
                let a0 = c.args@[0];
                assert(node_wf(m0.nodes@[a0.0 as int], a0.0 as int, m0.symbols@.len()));
                if let Node::Const(s) = m0.at(a0) {
                    assert(m1.name_of(s) == m0.name_of(s));
                }
                assert(normal_const(m1, a0) == normal_const(m0, a0));
                let rec = c.args@[1];
                assert(node_wf(m0.nodes@[rec.0 as int], rec.0 as int, m0.symbols@.len()));
                if let Node::Call(rc) = m0.at(rec) {
                    crate::canon::flatten::lemma_find_field_stable(m0, m1, rc.named@, "mu"@, 0);
                    crate::canon::flatten::lemma_find_field_stable(m0, m1, rc.named@, "sigma"@, 0);
                }
                if let Some(mu) = field_named(m0, rec, "mu"@) {
                    if let Some(sg) = field_named(m0, rec, "sigma"@) {
                        if let Node::Call(rc) = m0.at(rec) {
                            assert forall|j: int| 0 <= j < rc.named@.len() implies (#[trigger] rc.named@[j]).value.0
                                < rec.0 by {
                                assert(crate::ir::node_children(m0.at(rec))[rc.args@.len() + j + (if rc.head is User {
                                    1int
                                } else {
                                    0int
                                })] == rc.named@[j].value);
                            }
                            crate::canon::flatten::lemma_find_field_below(m0, rc.named@, "mu"@, 0, rec.0 as int);
                            crate::canon::flatten::lemma_find_field_below(m0, rc.named@, "sigma"@, 0, rec.0 as int);
                        }
                        lemma_refs_below_stable(m0, m1, mu, arg);
                        lemma_refs_below_stable(m0, m1, sg, arg);
                    }
                }
            }
        }
    }
}

/// Growing an arena by untyped nodes keeps its record types interned.
/// Untyped growth composes.
pub proof fn lemma_untyped_trans(a: Module, b: Module, c: Module)
    requires
        b.extends(&a),
        c.extends(&b),
        untyped_growth(a, b),
        untyped_growth(b, c),
    ensures
        untyped_growth(a, c),
{
    assert forall|i: int| a.nodes@.len() <= i < c.nodes@.len() implies (#[trigger] c.types@[i]) is None by {
        if i < b.nodes@.len() {
            assert(c.types@[i] == b.types@[i]);
        }
    }
}

pub proof fn lemma_record_types_grow(m0: Module, m1: Module)
    requires
        m0.wf(),
        m1.wf(),
        m1.extends(&m0),
        untyped_growth(m0, m1),
        record_types_interned(m0),
    ensures
        record_types_interned(m1),
{
    assert forall|id: NodeId| id.0 < m1.nodes@.len() implies #[trigger] record_type_interned(m1, id) by {
        if id.0 < m0.nodes@.len() {
            assert(record_type_interned(m0, id));
            assert(m1.types@[id.0 as int] == m0.types@[id.0 as int]);
        } else {
            assert(m1.types@[id.0 as int] is None);
        }
    }
}

/// Recognize `logweighted(l, base)` as a pointwise product of two Gaussians
/// (see [`gaussian_product`]); `params` are the `Normal` parameter names.
pub fn recognize_gaussian_product(
    m: &mut Module,
    logweighted: NodeId,
    params: &Option<Vec<String>>,
) -> (r: Option<GaussianProduct>)
    requires
        old(m).wf(),
        logweighted.0 < old(m).nodes@.len(),
        record_types_interned(*old(m)),
    ensures
        final(m).wf(),
        final(m).extends(old(m)),
        final(m).bindings@ == old(m).bindings@,
        untyped_growth(*old(m), *final(m)),
        gaussian_product(*old(m), *final(m), logweighted, opt_strs(*params), r),
        r matches Some(gp) ==> gp.g1.0 < old(m).nodes@.len() && gp.mu1.0 < final(m).nodes@.len()
            && gp.sigma1.0 < final(m).nodes@.len() && gp.mu2.0 < final(m).nodes@.len() && gp.sigma2.0
            < final(m).nodes@.len(),
{
    let ghost m0 = *m;
    proof {
        assert(node_wf(m.nodes@[logweighted.0 as int], logweighted.0 as int, m.symbols@.len()));
    }
    let (lw_node, base) = match crate::shape::expect_builtin_call(m, logweighted, "logweighted") {
        Some(c) => {
            if c.args.len() != 2 {
                return None;
            }
            proof {
                assert(crate::ir::node_children(Node::Call(*c))[0] == c.args@[0]);
                assert(crate::ir::node_children(Node::Call(*c))[1] == c.args@[1]);
            }
            (c.args[0], c.args[1])
        },
        None => {
            return None;
        },
    };
    let split = normal_ctor(m, base, params);
    let ghost m1 = *m;
    let ghost sv = ctor_view(split);
    let (g1, g1_kwargs) = match split {
        Some(x) => x,
        None => {
            proof {
                assert(normal_split(m0, *m, base, opt_strs(*params), sv) && split_in(*m, sv));
            }
            return None;
        },
    };
    let mu1 = match find_kwarg(m, &g1_kwargs, "mu") {
        Some(x) => x,
        None => {
            proof {
                assert(normal_split(m0, *m, base, opt_strs(*params), sv) && split_in(*m, sv));
            }
            return None;
        },
    };
    let sigma1 = match find_kwarg(m, &g1_kwargs, "sigma") {
        Some(x) => x,
        None => {
            proof {
                assert(normal_split(m0, *m, base, opt_strs(*params), sv) && split_in(*m, sv));
            }
            return None;
        },
    };
    proof {
        lemma_kwarg_named_in(*m, g1_kwargs@, "mu"@, 0);
        lemma_kwarg_named_in(*m, g1_kwargs@, "sigma"@, 0);
        crate::density_broadcast::lemma_values_type_rebase(m0, m1, lw_node);
    }
    let (lw_resolved, _) = crate::shape::resolve_ref_one(m, lw_node);
    proof {
        assert(m.nodes@[lw_resolved.0 as int] == m0.nodes@[lw_resolved.0 as int]);
        assert(node_wf(m0.nodes@[lw_resolved.0 as int], lw_resolved.0 as int, m0.symbols@.len()));
        assert(crate::shape::builtin_of(m1, lw_resolved) == crate::shape::builtin_of(m0, lw_resolved));
        if let Some(sym) = crate::shape::builtin_of(m0, lw_resolved) {
            assert(m1.name_of(sym) == m0.name_of(sym));
        }
        assert(reified_scorer(m1, lw_resolved) == reified_scorer(m0, lw_resolved));
    }
    let (g2_body, arg_ref) = match crate::shape::expect_builtin_call(m, lw_resolved, "functionof") {
        Some(f) => {
            if f.args.len() != 1 {
                proof {
                    assert(normal_split(m0, *m, base, opt_strs(*params), sv) && split_in(*m, sv));
                }
                return None;
            }
            let arg_ref = match &f.inputs {
                Some(crate::ir::Inputs::Spec(entries)) => {
                    if entries.len() == 1 {
                        entries[0].1
                    } else {
                        proof {
                            assert(normal_split(m0, *m, base, opt_strs(*params), sv) && split_in(*m, sv));
                        }
                        return None;
                    }
                },
                _ => {
                    proof {
                        assert(normal_split(m0, *m, base, opt_strs(*params), sv) && split_in(*m, sv));
                    }
                    return None;
                },
            };
            proof {
                assert(crate::ir::node_children(Node::Call(*f))[0] == f.args@[0]);
            }
            (f.args[0], arg_ref)
        },
        None => {
            proof {
                assert(normal_split(m0, *m, base, opt_strs(*params), sv) && split_in(*m, sv));
            }
            return None;
        },
    };
    proof {
        lemma_record_types_grow(m0, m1);
    }
    let f2 = gaussian_factor_scored_at(m, g2_body, arg_ref, params);
    proof {
        lemma_normal_split_stable(m0, m1, *m, base, opt_strs(*params), sv);
        lemma_kwarg_named_stable(m1, *m, g1_kwargs@, "mu"@, 0);
        lemma_kwarg_named_stable(m1, *m, g1_kwargs@, "sigma"@, 0);
        lemma_scored_factor_rebase(m0, m1, *m, g2_body, arg_ref, opt_strs(*params), f2);
        crate::term::lemma_extends_trans(m0, m1, *m);
        assert(ctor_params(*m, sv) == Some((g1, mu1, sigma1)));
        assert(scored_factor(m0, *m, g2_body, arg_ref, opt_strs(*params), f2));
        assert(normal_split(m0, *m, base, opt_strs(*params), sv) && split_in(*m, sv));
    }
    match f2 {
        Some((mu2, sigma2)) => Some(GaussianProduct { g1, mu1, sigma1, mu2, sigma2 }),
        None => None,
    }
}

/// The IEEE-754 bits of the real literal `2.0`.
pub const TWO_BITS: u64 = 0x4000_0000_0000_0000u64;

/// Node `t` is the log-density of `Normal(mu = mu, sigma = sigma)` at
/// `point` (see [`density_term`]).
pub open spec fn normal_term(m: Module, t: NodeId, mu: NodeId, sigma: NodeId, point: NodeId) -> bool {
    exists|ctor: Symbol, args: Seq<(Symbol, NodeId)>|
        #[trigger] density_term(m, t, ctor, args, point) && m.name_of(ctor) == "Normal"@ && args.len() == 2
            && m.name_of(args[0].0) == "mu"@ && args[0].1 == mu && m.name_of(args[1].0) == "sigma"@ && args[1].1
            == sigma
}

/// The positional arguments of node `id` when it is the plain built-in call
/// `name(…)`.
pub open spec fn plain_args(m: Module, id: NodeId, name: Seq<char>) -> Option<Seq<NodeId>> {
    match m.at(id) {
        Node::Call(c) => if plain_call(m, id, name, c.args@) {
            Some(c.args@)
        } else {
            None
        },
        _ => None,
    }
}

/// Node `id` is the real literal `2.0`.
pub open spec fn real_two(m: Module, id: NodeId) -> bool {
    id.0 < m.nodes@.len() && m.at(id) == Node::Lit(Scalar::Real(TWO_BITS))
}

/// Node `id` is `pow(x, 2.0)`.
pub open spec fn squared(m: Module, id: NodeId, x: NodeId) -> bool {
    plain_args(m, id, "pow"@) matches Some(a) && a.len() == 2 && a[0] == x && real_two(m, a[1])
}

/// Node `sd` is `sqrt(add(pow(s1, 2.0), pow(s2, 2.0)))`: the standard
/// deviation of the overlap of two Gaussians of deviations `s1` and `s2`.
pub open spec fn overlap_sigma(m: Module, sd: NodeId, s1: NodeId, s2: NodeId) -> bool {
    plain_args(m, sd, "sqrt"@) matches Some(a) && a.len() == 1 && a[0].0 < m.nodes@.len() && (plain_args(
        m,
        a[0],
        "add"@,
    ) matches Some(b) && b.len() == 2 && b[0].0 < m.nodes@.len() && b[1].0 < m.nodes@.len() && squared(m, b[0], s1)
        && squared(m, b[1], s2))
}

/// The log-density at `v` of the normalized product `gp`, as
/// [`gaussian_product_density`] builds it in `m` from `m0`:
/// `sub(add(t1, t2), logZ)` where `t1` is the density term of `gp.g1` at `v`,
/// `t2` that of `Normal(mu = mu2, sigma = sigma2)` at `v`, and `logZ` that of
/// `Normal(mu = mu2, sigma = sqrt(sigma1^2 + sigma2^2))` at `mu1`. It fails
/// exactly where the density term of `g1` at `v` does.
pub open spec fn product_density(
    m0: Module,
    m: Module,
    gp: GaussianProduct,
    v: NodeId,
    params: Option<Seq<Seq<char>>>,
    r: Result<NodeId, RefuseError>,
) -> bool {
    match r {
        Ok(t) => {
            &&& !kind_mismatch(m0, gp.g1, v)
            &&& t.0 < m.nodes@.len()
            &&& plain_args(m, t, "sub"@) matches Some(a) && a.len() == 2 && a[0].0 < m.nodes@.len() && a[1].0
                < m.nodes@.len() && (plain_args(m, a[0], "add"@) matches Some(b) && b.len() == 2 && (exists|
                ctor: Symbol,
                args: Seq<(Symbol, NodeId)>,
            |
                #[trigger] kernel_split(m0, m, gp.g1, params, Some((ctor, args))) && density_term(
                    m,
                    b[0],
                    ctor,
                    args,
                    v,
                )) && normal_term(m, b[1], gp.mu2, gp.sigma2, v)) && (exists|sd: NodeId|
                #[trigger] overlap_sigma(m, sd, gp.sigma1, gp.sigma2) && normal_term(m, a[1], gp.mu2, sd, gp.mu1))
        },
        Err(e) => if kind_mismatch(m0, gp.g1, v) {
            &&& e.node == v
            &&& e.construct@ == construct_name(m0, v)
            &&& e.reason@ == mismatch_reason()
        } else {
            &&& kernel_split(m0, m, gp.g1, params, None)
            &&& e.node == gp.g1
            &&& e.construct@ == construct_name(m0, gp.g1)
            &&& e.reason@ == constructor_reason()
        },
    }
}

proof fn lemma_plain_args_stable(m1: Module, m2: Module, id: NodeId, name: Seq<char>)
    requires
        m1.wf(),
        m2.extends(&m1),
        id.0 < m1.nodes@.len(),
    ensures
        plain_args(m2, id, name) == plain_args(m1, id, name),
{
    assert(m2.nodes@[id.0 as int] == m1.nodes@[id.0 as int]);
    assert(node_wf(m1.nodes@[id.0 as int], id.0 as int, m1.symbols@.len()));
}

proof fn lemma_density_term_stable(
    m1: Module,
    m2: Module,
    t: NodeId,
    ctor: Symbol,
    args: Seq<(Symbol, NodeId)>,
    point: NodeId,
)
    requires
        m1.wf(),
        m2.extends(&m1),
        t.0 < m1.nodes@.len(),
        density_term(m1, t, ctor, args, point),
    ensures
        density_term(m2, t, ctor, args, point),
{
    assert(m2.nodes@[t.0 as int] == m1.nodes@[t.0 as int]);
    assert(node_wf(m1.nodes@[t.0 as int], t.0 as int, m1.symbols@.len()));
    if let Node::Call(c) = m1.at(t) {
        let k = c.args@[0];
        let rec = c.args@[1];
        assert(m2.nodes@[k.0 as int] == m1.nodes@[k.0 as int]);
        assert(m2.nodes@[rec.0 as int] == m1.nodes@[rec.0 as int]);
        assert(node_wf(m1.nodes@[rec.0 as int], rec.0 as int, m1.symbols@.len()));
    }
}

proof fn lemma_normal_term_stable(m1: Module, m2: Module, t: NodeId, mu: NodeId, sigma: NodeId, point: NodeId)
    requires
        m1.wf(),
        m2.extends(&m1),
        t.0 < m1.nodes@.len(),
        normal_term(m1, t, mu, sigma, point),
    ensures
        normal_term(m2, t, mu, sigma, point),
{
    let (ctor, args) = choose|ctor: Symbol, args: Seq<(Symbol, NodeId)>|
        #[trigger] density_term(m1, t, ctor, args, point) && m1.name_of(ctor) == "Normal"@ && args.len() == 2
            && m1.name_of(args[0].0) == "mu"@ && args[0].1 == mu && m1.name_of(args[1].0) == "sigma"@ && args[1].1
            == sigma;
    lemma_density_term_stable(m1, m2, t, ctor, args, point);
    let k = match m1.at(t) {
        Node::Call(c) => c.args@[0],
        _ => t,
    };
    assert(node_wf(m1.nodes@[t.0 as int], t.0 as int, m1.symbols@.len()));
    assert(node_wf(m1.nodes@[k.0 as int], k.0 as int, m1.symbols@.len()));
    let rec = match m1.at(t) {
        Node::Call(c) => c.args@[1],
        _ => t,
    };
    assert(node_wf(m1.nodes@[rec.0 as int], rec.0 as int, m1.symbols@.len()));
    if let Node::Call(rc) = m1.at(rec) {
        assert(rc.named@[0].name == args[0].0);
        assert(rc.named@[1].name == args[1].0);
    }
    assert(m2.name_of(ctor) == m1.name_of(ctor));
    assert(m2.name_of(args[0].0) == m1.name_of(args[0].0));
    assert(m2.name_of(args[1].0) == m1.name_of(args[1].0));
}

/// The log-density term of a fresh keyword `Normal(mu = mu, sigma = sigma)`
/// at `point`.
fn normal_density_term(m: &mut Module, mu: NodeId, sigma: NodeId, point: NodeId, params: &Option<Vec<String>>) -> (r: NodeId)
    requires
        old(m).wf(),
        mu.0 < old(m).nodes@.len(),
        sigma.0 < old(m).nodes@.len(),
        point.0 < old(m).nodes@.len(),
    ensures
        final(m).wf(),
        final(m).extends(old(m)),
        final(m).bindings@ == old(m).bindings@,
        untyped_growth(*old(m), *final(m)),
        r.0 < final(m).nodes@.len(),
        normal_term(*final(m), r, mu, sigma, point),
{
    let g = build_normal_ctor(m, mu, sigma);
    let ghost mg = *m;
    proof {
        assert(mg.types@[g.0 as int] is None);
        assert(!kind_mismatch(mg, g, point));
        assert(lone_arg_interned(mg, g));
    }
    match build_density_term(m, g, point, params) {
        Ok(t) => {
            proof {
                let c = match mg.at(g) {
                    Node::Call(c) => c,
                    _ => arbitrary(),
                };
                assert(kwarg_pairs(c) == Some(c.named@.map_values(|na: NamedArg| (na.name, na.value))));
                let kws = c.named@.map_values(|na: NamedArg| (na.name, na.value));
                let sym = crate::shape::builtin_of(mg, g).unwrap();
                assert(kernel_split(mg, *m, g, opt_strs(*params), Some((sym, kws))));
                let (ctor, args) = choose|ctor: Symbol, args: Seq<(Symbol, NodeId)>|
                    #[trigger] kernel_split(mg, *m, g, opt_strs(*params), Some((ctor, args))) && density_term(
                        *m,
                        t,
                        ctor,
                        args,
                        point,
                    );
                assert(ctor == sym && args == kws);
                assert(c.named@[0].name.0 < mg.symbols@.len());
                assert(c.named@[1].name.0 < mg.symbols@.len());
                assert(sym.0 < mg.symbols@.len());
                assert(m.name_of(sym) == mg.name_of(sym));
                assert(m.name_of(kws[0].0) == mg.name_of(kws[0].0));
                assert(m.name_of(kws[1].0) == mg.name_of(kws[1].0));
                assert(normal_term(*m, t, mu, sigma, point));
            }
            t
        },
        Err(_) => {
            proof {
                let c = match mg.at(g) {
                    Node::Call(c) => c,
                    _ => arbitrary(),
                };
                assert(kwarg_pairs(c) is Some);
                assert(false);
            }
            g
        },
    }
}

/// Allocate the plain built-in call `head(args…)`.
fn build_call_of(m: &mut Module, head: &str, args: Vec<NodeId>) -> (r: NodeId)
    requires
        old(m).wf(),
        forall|k: int| 0 <= k < args@.len() ==> (#[trigger] args@[k]).0 < old(m).nodes@.len(),
    ensures
        final(m).wf(),
        final(m).extends(old(m)),
        final(m).bindings@ == old(m).bindings@,
        untyped_growth(*old(m), *final(m)),
        r.0 == final(m).nodes@.len() - 1,
        r.0 >= old(m).nodes@.len(),
        plain_args(*final(m), r, head@) == Some(args@),
{
    let r = build_call(m, head, args.as_slice());
    proof {
        assert(plain_call(*m, r, head@, args@));
    }
    r
}

/// The log-density at `v` of the normalized pointwise product `gp` of two
/// Gaussians (see [`product_density`]): the two factors' densities at `v`
/// less the log of their overlap integral, itself the Gaussian
/// `Normal(mu2, sqrt(sigma1^2 + sigma2^2))` scored at `mu1`.
pub fn gaussian_product_density(
    m: &mut Module,
    gp: GaussianProduct,
    v: NodeId,
    params: &Option<Vec<String>>,
) -> (r: Result<NodeId, RefuseError>)
    requires
        old(m).wf(),
        gp.g1.0 < old(m).nodes@.len(),
        gp.mu1.0 < old(m).nodes@.len(),
        gp.sigma1.0 < old(m).nodes@.len(),
        gp.mu2.0 < old(m).nodes@.len(),
        gp.sigma2.0 < old(m).nodes@.len(),
        v.0 < old(m).nodes@.len(),
        lone_arg_interned(*old(m), gp.g1),
    ensures
        final(m).wf(),
        final(m).extends(old(m)),
        final(m).bindings@ == old(m).bindings@,
        untyped_growth(*old(m), *final(m)),
        product_density(*old(m), *final(m), gp, v, opt_strs(*params), r),
{
    let ghost m0 = *m;
    let t1 = match build_density_term(m, gp.g1, v, params) {
        Ok(t) => t,
        Err(e) => {
            return Err(e);
        },
    };
    let ghost ma = *m;
    let t2 = normal_density_term(m, gp.mu2, gp.sigma2, v, params);
    let ghost mb = *m;
    let two_a = m.add_node(Node::Lit(Scalar::Real(TWO_BITS)));
    let var1 = build_call_of(m, "pow", vec![gp.sigma1, two_a]);
    let ghost m_v1 = *m;
    let two_b = m.add_node(Node::Lit(Scalar::Real(TWO_BITS)));
    let ghost m_tb = *m;
    let var2 = build_call_of(m, "pow", vec![gp.sigma2, two_b]);
    let ghost m_v2 = *m;
    let var_sum = build_call_of(m, "add", vec![var1, var2]);
    let ghost m_vs = *m;
    let sd = build_call_of(m, "sqrt", vec![var_sum]);
    let ghost mc = *m;
    proof {
        lemma_plain_args_stable(m_v1, mc, var1, "pow"@);
        lemma_plain_args_stable(m_v2, mc, var2, "pow"@);
        lemma_plain_args_stable(m_vs, mc, var_sum, "add"@);
        assert(mc.nodes@[two_a.0 as int] == m_v1.nodes@[two_a.0 as int]);
        assert(mc.nodes@[two_b.0 as int] == m_tb.nodes@[two_b.0 as int]);
        assert(overlap_sigma(mc, sd, gp.sigma1, gp.sigma2));
    }
    let log_z = normal_density_term(m, gp.mu2, sd, gp.mu1, params);
    let ghost md = *m;
    let sum = build_call_of(m, "add", vec![t1, t2]);
    let ghost me = *m;
    let out = build_call_of(m, "sub", vec![sum, log_z]);
    proof {
        crate::term::lemma_extends_trans(m0, ma, mb);
        crate::term::lemma_extends_trans(m0, mb, mc);
        crate::term::lemma_extends_trans(m0, mc, md);
        crate::term::lemma_extends_trans(m0, md, me);
        crate::term::lemma_extends_trans(m0, me, *m);
        crate::term::lemma_extends_trans(ma, mb, mc);
        crate::term::lemma_extends_trans(ma, mc, md);
        crate::term::lemma_extends_trans(ma, md, me);
        crate::term::lemma_extends_trans(ma, me, *m);
        crate::term::lemma_extends_trans(mb, mc, md);
        crate::term::lemma_extends_trans(mb, md, me);
        crate::term::lemma_extends_trans(mb, me, *m);
        crate::term::lemma_extends_trans(mc, md, me);
        crate::term::lemma_extends_trans(mc, me, *m);
        crate::term::lemma_extends_trans(md, me, *m);
        // the first factor's term
        let (ctor, args) = choose|ctor: Symbol, args: Seq<(Symbol, NodeId)>|
            #[trigger] kernel_split(m0, ma, gp.g1, opt_strs(*params), Some((ctor, args))) && density_term(
                ma,
                t1,
                ctor,
                args,
                v,
            );
        assert(pairs_in(ma, args)) by {
            lemma_density_term_pairs(ma, t1, ctor, args, v);
        }
        lemma_kernel_split_stable(m0, ma, *m, gp.g1, opt_strs(*params), Some((ctor, args)));
        lemma_density_term_stable(ma, *m, t1, ctor, args, v);
        lemma_normal_term_stable(mb, *m, t2, gp.mu2, gp.sigma2, v);
        lemma_normal_term_stable(md, *m, log_z, gp.mu2, sd, gp.mu1);
        lemma_plain_args_stable(me, *m, sum, "add"@);
        assert(overlap_sigma(*m, sd, gp.sigma1, gp.sigma2)) by {
            lemma_plain_args_stable(mc, *m, sd, "sqrt"@);
            lemma_plain_args_stable(mc, *m, var_sum, "add"@);
            lemma_plain_args_stable(mc, *m, var1, "pow"@);
            lemma_plain_args_stable(mc, *m, var2, "pow"@);
            assert(m.nodes@[two_a.0 as int] == mc.nodes@[two_a.0 as int]);
            assert(m.nodes@[two_b.0 as int] == mc.nodes@[two_b.0 as int]);
        }
        assert(kernel_split(m0, *m, gp.g1, opt_strs(*params), Some((ctor, args))) && density_term(*m, t1, ctor, args, v));
    }
    Ok(out)
}

/// The arguments of a density term's input record lie in the arena.
proof fn lemma_density_term_pairs(m: Module, t: NodeId, ctor: Symbol, args: Seq<(Symbol, NodeId)>, point: NodeId)
    requires
        m.wf(),
        t.0 < m.nodes@.len(),
        density_term(m, t, ctor, args, point),
    ensures
        pairs_in(m, args),
{
    assert(node_wf(m.nodes@[t.0 as int], t.0 as int, m.symbols@.len()));
    if let Node::Call(c) = m.at(t) {
        let rec = c.args@[1];
        assert(node_wf(m.nodes@[rec.0 as int], rec.0 as int, m.symbols@.len()));
        if let Node::Call(rc) = m.at(rec) {
            assert forall|k: int| 0 <= k < args.len() implies (#[trigger] args[k]).0.0 < m.symbols@.len()
                && args[k].1.0 < m.nodes@.len() by {
                assert(rc.named@[k].name == args[k].0);
                assert(rc.named@[k].value == args[k].1);
                assert(crate::ir::node_children(m.at(rec))[rc.args@.len() + k + (if rc.head is User {
                    1int
                } else {
                    0int
                })] == rc.named@[k].value);
            }
        }
    }
}

proof fn lemma_factor_of_kwargs_stable(
    m1: Module,
    m2: Module,
    split: Option<(NodeId, Seq<(Symbol, NodeId)>)>,
    arg: crate::ir::Ref,
)
    requires
        m1.wf(),
        m2.extends(&m1),
        split_in(m1, split),
    ensures
        factor_of_kwargs(m2, split, arg) == factor_of_kwargs(m1, split, arg),
{
    if let Some((g, kws)) = split {
        lemma_kwarg_named_stable(m1, m2, kws, "mu"@, 0);
        lemma_kwarg_named_stable(m1, m2, kws, "sigma"@, 0);
        lemma_kwarg_named_in(m1, kws, "mu"@, 0);
        lemma_kwarg_named_in(m1, kws, "sigma"@, 0);
        if let Some(mu) = kwarg_named(m1, kws, "mu"@, 0) {
            lemma_refs_below_stable(m1, m2, mu, arg);
        }
        if let Some(sg) = kwarg_named(m1, kws, "sigma"@, 0) {
            lemma_refs_below_stable(m1, m2, sg, arg);
        }
    }
}

proof fn lemma_ctor_params_stable(m1: Module, m2: Module, split: Option<(NodeId, Seq<(Symbol, NodeId)>)>)
    requires
        m2.extends(&m1),
        split_in(m1, split),
    ensures
        ctor_params(m2, split) == ctor_params(m1, split),
{
    if let Some((g, kws)) = split {
        lemma_kwarg_named_stable(m1, m2, kws, "mu"@, 0);
        lemma_kwarg_named_stable(m1, m2, kws, "sigma"@, 0);
    }
}

proof fn lemma_scored_factor_stable(
    m0: Module,
    m1: Module,
    m2: Module,
    body: NodeId,
    arg: crate::ir::Ref,
    params: Option<Seq<Seq<char>>>,
    r: Option<(NodeId, NodeId)>,
)
    requires
        m1.wf(),
        m2.extends(&m1),
        scored_factor(m0, m1, body, arg, params, r),
    ensures
        scored_factor(m0, m2, body, arg, params, r),
{
    if is_builtin_named(m0, body, "logdensityof"@) {
        if let Node::Call(ld) = m0.at(body) {
            if ld.args@.len() == 2 && ref_is(m0, ld.args@[1], arg) {
                let split = choose|split: Option<(NodeId, Seq<(Symbol, NodeId)>)>|
                    #[trigger] normal_split(m0, m1, ld.args@[0], params, split) && split_in(m1, split) && r
                        == factor_of_kwargs(m1, split, arg);
                lemma_normal_split_stable(m0, m1, m2, ld.args@[0], params, split);
                lemma_factor_of_kwargs_stable(m1, m2, split, arg);
            }
        }
    }
}

proof fn lemma_gaussian_product_stable(
    m0: Module,
    m1: Module,
    m2: Module,
    lw: NodeId,
    params: Option<Seq<Seq<char>>>,
    r: Option<GaussianProduct>,
)
    requires
        m1.wf(),
        m2.extends(&m1),
        gaussian_product(m0, m1, lw, params, r),
    ensures
        gaussian_product(m0, m2, lw, params, r),
{
    if let Node::Call(c) = m0.at(lw) {
        if is_builtin_named(m0, lw, "logweighted"@) && c.args@.len() == 2 {
            let split = choose|split: Option<(NodeId, Seq<(Symbol, NodeId)>)>|
                #[trigger] normal_split(m0, m1, c.args@[1], params, split) && split_in(m1, split) && match ctor_params(
                    m1,
                    split,
                ) {
                    None => r is None,
                    Some((g1, mu1, sigma1)) => match reified_scorer(
                        m0,
                        crate::shape::resolve_one_spec(m0, c.args@[0]).0,
                    ) {
                        None => r is None,
                        Some((body, arg)) => exists|f2: Option<(NodeId, NodeId)>|
                            #[trigger] scored_factor(m0, m1, body, arg, params, f2) && match f2 {
                                None => r is None,
                                Some((mu2, sigma2)) => r == Some(
                                    (GaussianProduct { g1, mu1, sigma1, mu2, sigma2 }),
                                ),
                            },
                    },
                };
            lemma_normal_split_stable(m0, m1, m2, c.args@[1], params, split);
            lemma_ctor_params_stable(m1, m2, split);
            if let Some((g1, mu1, sigma1)) = ctor_params(m1, split) {
                if let Some((body, arg)) = reified_scorer(m0, crate::shape::resolve_one_spec(m0, c.args@[0]).0) {
                    let f2 = choose|f2: Option<(NodeId, NodeId)>|
                        #[trigger] scored_factor(m0, m1, body, arg, params, f2) && match f2 {
                            None => r is None,
                            Some((mu2, sigma2)) => r == Some((GaussianProduct { g1, mu1, sigma1, mu2, sigma2 })),
                        };
                    lemma_scored_factor_stable(m0, m1, m2, body, arg, params, f2);
                }
            }
        }
    }
}

proof fn lemma_product_density_rebase(
    m0: Module,
    m1: Module,
    m: Module,
    gp: GaussianProduct,
    v: NodeId,
    params: Option<Seq<Seq<char>>>,
    r: Result<NodeId, RefuseError>,
)
    requires
        m0.wf(),
        m1.wf(),
        m1.extends(&m0),
        m1.bindings@ == m0.bindings@,
        gp.g1.0 < m0.nodes@.len(),
        v.0 < m0.nodes@.len(),
        record_types_interned(m0),
        product_density(m1, m, gp, v, params, r),
    ensures
        product_density(m0, m, gp, v, params, r),
{
    assert(m1.types@[gp.g1.0 as int] == m0.types@[gp.g1.0 as int]);
    assert(m1.types@[v.0 as int] == m0.types@[v.0 as int]);
    assert(kind_mismatch(m1, gp.g1, v) == kind_mismatch(m0, gp.g1, v));
    lemma_construct_name_stable(m0, m1, v);
    lemma_construct_name_stable(m0, m1, gp.g1);
    match r {
        Ok(t) => {
            let a = plain_args(m, t, "sub"@).unwrap();
            let b = plain_args(m, a[0], "add"@).unwrap();
            let (ctor, args) = choose|ctor: Symbol, args: Seq<(Symbol, NodeId)>|
                #[trigger] kernel_split(m1, m, gp.g1, params, Some((ctor, args))) && density_term(
                    m,
                    b[0],
                    ctor,
                    args,
                    v,
                );
            lemma_kernel_split_rebase(m0, m1, m, gp.g1, params, Some((ctor, args)));
        },
        Err(e) => {
            if !kind_mismatch(m0, gp.g1, v) {
                lemma_kernel_split_rebase(m0, m1, m, gp.g1, params, None);
            }
        },
    }
}

/// What [`lower_normalize`] leaves to its caller, or the finished term.
#[derive(Debug)]
pub enum NormalizeStep {
    /// The finished log-density term.
    Lowered(NodeId),
    /// `normalize` of a probability measure: the log-density of this inner
    /// measure at the variate is the answer.
    Inner(NodeId),
    /// `normalize(truncate(base, interval(lo, hi)))` of a leaf univariate
    /// continuous probability measure: the log-density of `inner` at the
    /// variate, finished by [`finish_truncated_normalize`].
    Truncated { inner: NodeId, base: NodeId, lo: NodeId, hi: NodeId },
    /// A convex superposition of normalized mixands: the log-density of
    /// `inner` at the variate, finished by [`finish_convex_normalize`].
    Convex { inner: NodeId, weights: Vec<NodeId> },
}

/// A probability measure type.
pub open spec fn normalized_measure(t: Option<Type>) -> bool {
    t matches Some(Type::Measure { mass: crate::ir::Mass::Normalized, .. })
}

/// A probability measure type over the reals.
pub open spec fn univariate_continuous(t: Option<Type>) -> bool {
    t matches Some(Type::Measure { domain, mass: crate::ir::Mass::Normalized }) && *domain
        matches Type::Scalar(crate::ir::ScalarType::Real)
}

/// The shape of the truncation at `res`: nothing when it is not a
/// two-argument `truncate` or its set is an `interval` of another arity;
/// `Some(None)` when its set is not an `interval` call; otherwise its base
/// and the two interval endpoints.
pub open spec fn truncation_shape(m: Module, res: NodeId) -> Option<Option<(NodeId, NodeId, NodeId)>> {
    match crate::canon::flatten::builtin_call_named(m, res, "truncate"@) {
        Some(tc) => if tc.args@.len() == 2 {
            match crate::canon::flatten::builtin_call_named(m, tc.args@[1], "interval"@) {
                Some(ic) => if ic.args@.len() == 2 {
                    Some(Some((tc.args@[0], ic.args@[0], ic.args@[1])))
                } else {
                    None
                },
                None => Some(None),
            }
        } else {
            None
        },
        None => None,
    }
}

pub open spec fn non_interval_reason() -> Seq<char> {
    "normalize(truncate): closed-form Z is only implemented for an `interval(lo, hi)` truncation set; a named/other set is not yet supported"@
}

pub open spec fn combinator_base_reason() -> Seq<char> {
    "normalize(truncate): closed-form Z needs a leaf built-in distribution base; a composed/pushfwd base has no defined touniform transport"@
}

pub open spec fn discrete_base_reason() -> Seq<char> {
    "normalize(truncate): closed-form Z via builtin_touniform is only defined for a univariate continuous base (touniform is the CDF only there, §07); a discrete or multivariate base needs a different closed-form Z (e.g. a CMF / finite-support sum), which is not yet implemented"@
}

pub open spec fn no_mass_rule_reason() -> Seq<char> {
    "normalize of an unnormalized measure needs a closed-form mass rule; `totalmass` is not FlatPDL"@
}

/// `r` is the refusal of `node`, named `construct`, for `reason`.
pub open spec fn refusal<T>(r: Result<T, RefuseError>, node: NodeId, construct: Seq<char>, reason: Seq<char>) -> bool {
    r matches Err(e) && e.node == node && e.construct@ == construct && e.reason@ == reason
}

/// Every node a normalize step names lies in the arena of `m`.
pub open spec fn step_in(m: Module, s: NormalizeStep) -> bool {
    match s {
        NormalizeStep::Lowered(t) => t.0 < m.nodes@.len(),
        NormalizeStep::Inner(i) => i.0 < m.nodes@.len(),
        NormalizeStep::Truncated { inner, base, lo, hi } => inner.0 < m.nodes@.len() && base.0 < m.nodes@.len()
            && lo.0 < m.nodes@.len() && hi.0 < m.nodes@.len(),
        NormalizeStep::Convex { inner, weights } => inner.0 < m.nodes@.len() && forall|q: int|
            0 <= q < weights@.len() ==> (#[trigger] weights@[q]).0 < m.nodes@.len(),
    }
}

/// `normalize(M)` is settled without building anything: a malformed call, a
/// probability measure, a non-interval truncation set, or an interval
/// truncation whose base decides the outcome.
pub open spec fn normalize_settled_early(m0: Module, node: NodeId) -> bool {
    match crate::canon::flatten::builtin_call_named(m0, node, "normalize"@) {
        None => true,
        Some(c) => c.args@.len() != 1 || {
            let res = crate::shape::resolve_one_spec(m0, c.args@[0]).0;
            normalized_measure(m0.types@[res.0 as int]) || match truncation_shape(m0, res) {
                Some(None) => true,
                Some(Some((base, _, _))) => {
                    let bt = m0.types@[crate::shape::resolve_one_spec(m0, base).0.0 as int];
                    univariate_continuous(bt) || normalized_measure(bt)
                },
                None => false,
            }
        },
    }
}

/// The rule [`lower_normalize`] applies to `normalize(M)` at `node` of `m0`
/// (the arena grown to `m`), for the variate `v`:
/// - `M` (one reference hop) typed as a probability measure: its own
///   density ([`NormalizeStep::Inner`]);
/// - `M = truncate(base, S)`: refused unless `S` is `interval(lo, hi)`; with
///   `base` (one hop) a univariate continuous probability measure, refused
///   when `base` is a measure combinator and otherwise the CDF form
///   ([`NormalizeStep::Truncated`]); refused when `base` is another
///   probability measure;
/// - otherwise a pointwise product of two Gaussians: the finished density
///   ([`product_density`]);
/// - otherwise a convex superposition of normalized mixands
///   ([`NormalizeStep::Convex`]);
/// - otherwise refused: no closed-form mass rule.
pub open spec fn normalize_step(
    m0: Module,
    m: Module,
    node: NodeId,
    v: NodeId,
    params: Option<Seq<Seq<char>>>,
    r: Result<NormalizeStep, RefuseError>,
) -> bool {
    match crate::canon::flatten::builtin_call_named(m0, node, "normalize"@) {
        None => refusal(r, node, construct_name(m0, node), "expected normalize"@),
        Some(c) => if c.args@.len() != 1 {
            refusal(r, node, construct_name(m0, node), "normalize expects 1 arg"@)
        } else {
            let inner = c.args@[0];
            let res = crate::shape::resolve_one_spec(m0, inner).0;
            if normalized_measure(m0.types@[res.0 as int]) {
                r == Ok::<NormalizeStep, RefuseError>(NormalizeStep::Inner(inner))
            } else if truncation_shape(m0, res) == Some(None::<(NodeId, NodeId, NodeId)>) {
                refusal(r, node, "normalize"@, non_interval_reason())
            } else {
                let trunc_rule = match truncation_shape(m0, res) {
                    Some(Some((base, lo, hi))) => {
                        let bres = crate::shape::resolve_one_spec(m0, base).0;
                        let bt = m0.types@[bres.0 as int];
                        if univariate_continuous(bt) && (crate::shape::builtin_of(m0, bres) matches Some(s)
                            && crate::shape::measure_combinator(m0.name_of(s))) {
                            Some(refusal(r, node, "normalize"@, combinator_base_reason()))
                        } else if univariate_continuous(bt) {
                            Some(r == Ok::<NormalizeStep, RefuseError>(
                                NormalizeStep::Truncated { inner, base, lo, hi },
                            ))
                        } else if normalized_measure(bt) {
                            Some(refusal(r, node, "normalize"@, discrete_base_reason()))
                        } else {
                            None
                        }
                    },
                    _ => None,
                };
                match trunc_rule {
                    Some(b) => b,
                    None => exists|gpo: Option<GaussianProduct>|
                        #[trigger] gaussian_product(m0, m, res, params, gpo) && match gpo {
                            Some(gp) => match r {
                                Ok(NormalizeStep::Lowered(t)) => product_density(m0, m, gp, v, params, Ok(t)),
                                Ok(_) => false,
                                Err(e) => product_density(m0, m, gp, v, params, Err(e)),
                            },
                            None => match convex_weights(m0, res) {
                                Some(ws) => r matches Ok(NormalizeStep::Convex { inner: i, weights }) && i == inner
                                    && weights@ == ws,
                                None => refusal(r, node, "normalize"@, no_mass_rule_reason()),
                            },
                        },
                }
            }
        },
    }
}

proof fn lemma_convex_weights_rebase(m0: Module, m1: Module, node: NodeId)
    requires
        m0.wf(),
        m1.wf(),
        m1.extends(&m0),
        m1.bindings@ == m0.bindings@,
        node.0 < m0.nodes@.len(),
    ensures
        convex_weights(m1, node) == convex_weights(m0, node),
{
    assert(m1.nodes@[node.0 as int] == m0.nodes@[node.0 as int]);
    assert(node_wf(m0.nodes@[node.0 as int], node.0 as int, m0.symbols@.len()));
    assert(crate::shape::builtin_of(m1, node) == crate::shape::builtin_of(m0, node));
    if let Some(sym) = crate::shape::builtin_of(m0, node) {
        assert(m1.name_of(sym) == m0.name_of(sym));
    }
    if let Node::Call(c) = m0.at(node) {
        assert forall|k: int|
            #![trigger convex_weight(m1, c.args@[k])]
            #![trigger convex_weight(m0, c.args@[k])]
            0 <= k < c.args@.len() implies convex_weight(m1, c.args@[k]) == convex_weight(m0, c.args@[k]) by {
            if c.head is User {
                assert(crate::ir::node_children(m0.at(node))[k + 1] == c.args@[k]);
            } else {
                assert(crate::ir::node_children(m0.at(node))[k] == c.args@[k]);
            }
            lemma_convex_weight_rebase(m0, m1, c.args@[k]);
        }
        assert(c.args@.map_values(|a: NodeId| convex_weight(m1, a).unwrap()) =~= c.args@.map_values(
            |a: NodeId| convex_weight(m0, a).unwrap(),
        ));
        assert((forall|k: int| 0 <= k < c.args@.len() ==> #[trigger] convex_weight(m1, c.args@[k]) is Some) == (forall|
            k: int,
        | 0 <= k < c.args@.len() ==> #[trigger] convex_weight(m0, c.args@[k]) is Some));
        assert(m1.at(node) == m0.at(node));
        assert(is_builtin_named(m1, node, "superpose"@) == is_builtin_named(m0, node, "superpose"@));
    }
}

proof fn lemma_convex_weight_rebase(m0: Module, m1: Module, comp: NodeId)
    requires
        m0.wf(),
        m1.wf(),
        m1.extends(&m0),
        m1.bindings@ == m0.bindings@,
        comp.0 < m0.nodes@.len(),
    ensures
        convex_weight(m1, comp) == convex_weight(m0, comp),
{
    crate::density_broadcast::lemma_values_type_rebase(m0, m1, comp);
    let r = crate::shape::resolve_one_spec(m0, comp).0;
    assert(m1.nodes@[r.0 as int] == m0.nodes@[r.0 as int]);
    assert(node_wf(m0.nodes@[r.0 as int], r.0 as int, m0.symbols@.len()));
    assert(crate::shape::builtin_of(m1, r) == crate::shape::builtin_of(m0, r));
    if let Some(sym) = crate::shape::builtin_of(m0, r) {
        assert(m1.name_of(sym) == m0.name_of(sym));
    }
    if let Node::Call(w) = m0.at(r) {
        if w.args@.len() == 2 {
            if w.head is User {
                assert(crate::ir::node_children(m0.at(r))[1] == w.args@[0]);
                assert(crate::ir::node_children(m0.at(r))[2] == w.args@[1]);
            } else {
                assert(crate::ir::node_children(m0.at(r))[0] == w.args@[0]);
                assert(crate::ir::node_children(m0.at(r))[1] == w.args@[1]);
            }
            let a0 = w.args@[0];
            crate::density_broadcast::lemma_values_type_rebase(m0, m1, w.args@[1]);
            crate::density_broadcast::lemma_values_type_rebase(m0, m1, a0);
            let base = crate::shape::resolve_one_spec(m0, w.args@[1]).0;
            assert(m1.types@[base.0 as int] == m0.types@[base.0 as int]);
            let wr = crate::shape::resolve_one_spec(m0, a0).0;
            assert(m1.types@[a0.0 as int] == m0.types@[a0.0 as int]);
            assert(m1.types@[wr.0 as int] == m0.types@[wr.0 as int]);
            assert(m1.nodes@[wr.0 as int] == m0.nodes@[wr.0 as int]);
            assert(node_wf(m0.nodes@[wr.0 as int], wr.0 as int, m0.symbols@.len()));
            assert(crate::shape::builtin_of(m1, wr) == crate::shape::builtin_of(m0, wr));
            if let Some(sym) = crate::shape::builtin_of(m0, wr) {
                assert(m1.name_of(sym) == m0.name_of(sym));
            }
            assert(weight_dependent(m1, a0) == weight_dependent(m0, a0));
        }
    }
}

/// Lower `normalize(M)` at `node` for the variate `v` by the closed-form
/// normalizer of `M` (see [`normalize_step`]); `params` are the `Normal`
/// parameter names. The Gaussian product comes back finished; the other
/// rules need the log-density of `M` itself at `v` and say how to finish it.
pub fn lower_normalize(
    m: &mut Module,
    node: NodeId,
    v: NodeId,
    params: &Option<Vec<String>>,
) -> (r: Result<NormalizeStep, RefuseError>)
    requires
        old(m).wf(),
        node.0 < old(m).nodes@.len(),
        v.0 < old(m).nodes@.len(),
        record_types_interned(*old(m)),
    ensures
        final(m).wf(),
        final(m).extends(old(m)),
        final(m).bindings@ == old(m).bindings@,
        untyped_growth(*old(m), *final(m)),
        normalize_step(*old(m), *final(m), node, v, opt_strs(*params), r),
        normalize_settled_early(*old(m), node) ==> *final(m) == *old(m),
        r matches Ok(st) ==> step_in(*final(m), st),
{
    let ghost m0 = *m;
    proof {
        assert(node_wf(m.nodes@[node.0 as int], node.0 as int, m.symbols@.len()));
    }
    let m_inner = match crate::shape::expect_builtin_call(m, node, "normalize") {
        Some(c) => {
            if c.args.len() != 1 {
                return Err(crate::shape::refuse(node, m, "normalize expects 1 arg"));
            }
            proof {
                assert(crate::ir::node_children(Node::Call(*c))[0] == c.args@[0]);
            }
            c.args[0]
        },
        None => {
            return Err(crate::shape::refuse(node, m, "expected normalize"));
        },
    };
    let (res, _) = crate::shape::resolve_ref_one(m, m_inner);
    let inner_normalized = match m.type_of(res) {
        Some(Type::Measure { mass: crate::ir::Mass::Normalized, .. }) => true,
        _ => false,
    };
    if inner_normalized {
        return Ok(NormalizeStep::Inner(m_inner));
    }
    proof {
        assert(node_wf(m.nodes@[res.0 as int], res.0 as int, m.symbols@.len()));
    }
    let mut non_interval = false;
    let truncate_shape: Option<(NodeId, NodeId, NodeId)> = match crate::shape::expect_builtin_call(m, res, "truncate") {
        Some(tc) => {
            if tc.args.len() == 2 {
                proof {
                    assert(crate::ir::node_children(Node::Call(*tc))[0] == tc.args@[0]);
                    assert(crate::ir::node_children(Node::Call(*tc))[1] == tc.args@[1]);
                }
                let base = tc.args[0];
                let set = tc.args[1];
                match crate::shape::expect_builtin_call(m, set, "interval") {
                    Some(ic) => {
                        if ic.args.len() == 2 {
                            proof {
                                assert(node_wf(m.nodes@[set.0 as int], set.0 as int, m.symbols@.len()));
                                assert(crate::ir::node_children(Node::Call(*ic))[0] == ic.args@[0]);
                                assert(crate::ir::node_children(Node::Call(*ic))[1] == ic.args@[1]);
                            }
                            Some((base, ic.args[0], ic.args[1]))
                        } else {
                            None
                        }
                    },
                    None => {
                        non_interval = true;
                        None
                    },
                }
            } else {
                None
            }
        },
        None => None,
    };
    proof {
        assert(non_interval == (truncation_shape(m0, res) == Some(None::<(NodeId, NodeId, NodeId)>)));
        assert(match truncation_shape(m0, res) {
            Some(Some(x)) => truncate_shape == Some(x),
            _ => truncate_shape is None,
        });
    }
    if non_interval {
        proof {
            reveal_strlit("normalize");
        }
        return Err(
            RefuseError {
                node,
                construct: "normalize".to_string(),
                reason: "normalize(truncate): closed-form Z is only implemented for an `interval(lo, hi)` truncation set; a named/other set is not yet supported".to_string(),
            },
        );
    }
    if let Some((base, lo, hi)) = truncate_shape {
        proof {
            let tc = match m.at(res) {
                Node::Call(c) => c,
                _ => arbitrary(),
            };
            assert(crate::ir::node_children(m.at(res))[0] == tc.args@[0]);
        }
        let (base_resolved, _) = crate::shape::resolve_ref_one(m, base);
        let (base_normalized, base_univariate_continuous) = match m.type_of(base_resolved) {
            Some(Type::Measure { domain, mass: crate::ir::Mass::Normalized }) => {
                let over_reals = match &**domain {
                    Type::Scalar(crate::ir::ScalarType::Real) => true,
                    _ => false,
                };
                (true, over_reals)
            },
            _ => (false, false),
        };
        if base_univariate_continuous && crate::shape::base_is_measure_combinator(m, base_resolved) {
            proof {
                reveal_strlit("normalize");
            }
            return Err(
                RefuseError {
                    node,
                    construct: "normalize".to_string(),
                    reason: "normalize(truncate): closed-form Z needs a leaf built-in distribution base; a composed/pushfwd base has no defined touniform transport".to_string(),
                },
            );
        }
        if base_univariate_continuous {
            return Ok(NormalizeStep::Truncated { inner: m_inner, base, lo, hi });
        }
        if base_normalized {
            proof {
                reveal_strlit("normalize");
            }
            return Err(
                RefuseError {
                    node,
                    construct: "normalize".to_string(),
                    reason: "normalize(truncate): closed-form Z via builtin_touniform is only defined for a univariate continuous base (touniform is the CDF only there, §07); a discrete or multivariate base needs a different closed-form Z (e.g. a CMF / finite-support sum), which is not yet implemented".to_string(),
                },
            );
        }
    }
    let gp = recognize_gaussian_product(m, res, params);
    let ghost m1 = *m;
    if let Some(gp) = gp {
        proof {
            lemma_record_types_grow(m0, m1);
            assert(record_type_interned(m1, gp.g1));
            assert(node_wf(m1.nodes@[gp.g1.0 as int], gp.g1.0 as int, m1.symbols@.len()));
            if let Node::Call(c) = m1.at(gp.g1) {
                if c.args@.len() == 1 {
                    if c.head is User {
                        assert(crate::ir::node_children(m1.at(gp.g1))[1] == c.args@[0]);
                    } else {
                        assert(crate::ir::node_children(m1.at(gp.g1))[0] == c.args@[0]);
                    }
                    assert(record_type_interned(m1, c.args@[0]));
                }
            }
        }
        let out = gaussian_product_density(m, gp, v, params);
        proof {
            lemma_gaussian_product_stable(m0, m1, *m, res, opt_strs(*params), Some(gp));
            lemma_product_density_rebase(m0, m1, *m, gp, v, opt_strs(*params), out);
            crate::term::lemma_extends_trans(m0, m1, *m);
            assert(gaussian_product(m0, *m, res, opt_strs(*params), Some(gp)));
        }
        return match out {
            Ok(t) => Ok(NormalizeStep::Lowered(t)),
            Err(e) => Err(e),
        };
    }
    proof {
        lemma_convex_weights_rebase(m0, m1, res);
        assert(gaussian_product(m0, *m, res, opt_strs(*params), None::<GaussianProduct>));
    }
    match recognize_convex_superposition(m, res) {
        Some(weights) => Ok(NormalizeStep::Convex { inner: m_inner, weights }),
        None => {
            proof {
                reveal_strlit("normalize");
            }
            Err(
                RefuseError {
                    node,
                    construct: "normalize".to_string(),
                    reason: "normalize of an unnormalized measure needs a closed-form mass rule; `totalmass` is not FlatPDL".to_string(),
                },
            )
        },
    }
}

pub open spec fn truncation_base_reason() -> Seq<char> {
    "truncation base must be a built-in constructor call with well-formed positional or keyword arguments"@
}

/// What [`kernel_and_input`] builds for the constructor `ctor` of `m0` (the
/// arena grown to `m`): the kernel constant and the input record of the
/// constructor `ctor` resolves to (one hop), as [`kernel_split`] reads it;
/// a refusal of the resolved node when it is not a well-formed constructor.
pub open spec fn kernel_input(
    m0: Module,
    m: Module,
    ctor: NodeId,
    params: Option<Seq<Seq<char>>>,
    r: Result<(NodeId, NodeId), RefuseError>,
) -> bool {
    let res = crate::shape::resolve_one_spec(m0, ctor).0;
    match r {
        Ok((k, i)) => exists|sym: Symbol, args: Seq<(Symbol, NodeId)>|
            #[trigger] kernel_split(m0, m, res, params, Some((sym, args))) && k.0 < m.nodes@.len() && m.at(k)
                == Node::Const(sym) && i.0 < m.nodes@.len() && record_of_pairs(m, i, args),
        Err(e) => {
            &&& kernel_split(m0, m, res, params, None)
            &&& e.node == res
            &&& e.construct@ == construct_name(m0, res)
            &&& e.reason@ == truncation_base_reason()
        },
    }
}

/// The kernel constant and input record of the primitive constructor
/// `ctor` (one reference hop), for a CDF transport.
fn kernel_and_input(m: &mut Module, ctor: NodeId, params: &Option<Vec<String>>) -> (r: Result<(NodeId, NodeId), RefuseError>)
    requires
        old(m).wf(),
        ctor.0 < old(m).nodes@.len(),
        record_types_interned(*old(m)),
    ensures
        final(m).wf(),
        final(m).extends(old(m)),
        final(m).bindings@ == old(m).bindings@,
        untyped_growth(*old(m), *final(m)),
        kernel_input(*old(m), *final(m), ctor, opt_strs(*params), r),
{
    let ghost m0 = *m;
    let (ctor_resolved, _) = crate::shape::resolve_ref_one(m, ctor);
    proof {
        assert(record_type_interned(*m, ctor_resolved));
        assert(node_wf(m.nodes@[ctor_resolved.0 as int], ctor_resolved.0 as int, m.symbols@.len()));
        if let Node::Call(c) = m.at(ctor_resolved) {
            if c.args@.len() == 1 {
                if c.head is User {
                    assert(crate::ir::node_children(m.at(ctor_resolved))[1] == c.args@[0]);
                } else {
                    assert(crate::ir::node_children(m.at(ctor_resolved))[0] == c.args@[0]);
                }
                assert(record_type_interned(*m, c.args@[0]));
            }
        }
    }
    let (ctor_sym, kwargs) = match split_kernel_constructor(m, ctor_resolved, params) {
        Some(x) => x,
        None => {
            proof {
                lemma_construct_name_stable(m0, *m, ctor_resolved);
            }
            return Err(
                crate::shape::refuse(
                    ctor_resolved,
                    m,
                    "truncation base must be a built-in constructor call with well-formed positional or keyword arguments",
                ),
            );
        },
    };
    let ghost ms = *m;
    let kernel = m.add_node(Node::Const(ctor_sym));
    let ghost mk = *m;
    let input = build_record(m, kwargs.as_slice());
    proof {
        lemma_kernel_split_stable(m0, ms, *m, ctor_resolved, opt_strs(*params), Some((ctor_sym, kwargs@)));
        assert(m.nodes@[kernel.0 as int] == mk.nodes@[kernel.0 as int]);
        if let Node::Call(c) = m.at(input) {
            assert(c.named@ =~= kwargs@.map_values(
                |p: (Symbol, NodeId)| NamedArg { kind: NamedKind::Field, name: p.0, value: p.1 },
            ));
        }
        assert(record_of_pairs(*m, input, kwargs@));
    }
    Ok((kernel, input))
}

proof fn lemma_record_of_pairs_stable(m1: Module, m2: Module, id: NodeId, args: Seq<(Symbol, NodeId)>)
    requires
        m1.wf(),
        m2.extends(&m1),
        id.0 < m1.nodes@.len(),
        record_of_pairs(m1, id, args),
    ensures
        record_of_pairs(m2, id, args),
{
    assert(m2.nodes@[id.0 as int] == m1.nodes@[id.0 as int]);
    assert(node_wf(m1.nodes@[id.0 as int], id.0 as int, m1.symbols@.len()));
    if let Node::Call(c) = m1.at(id) {
        if let CallHead::Builtin(sy) = c.head {
            assert(m2.name_of(sy) == m1.name_of(sy));
        }
    }
}

/// `builtin_touniform(kernel, input, x)`: the CDF transport.
fn build_touniform(m: &mut Module, kernel: NodeId, input: NodeId, x: NodeId) -> (r: NodeId)
    requires
        old(m).wf(),
        kernel.0 < old(m).nodes@.len(),
        input.0 < old(m).nodes@.len(),
        x.0 < old(m).nodes@.len(),
    ensures
        final(m).wf(),
        final(m).extends(old(m)),
        final(m).bindings@ == old(m).bindings@,
        untyped_growth(*old(m), *final(m)),
        r.0 == final(m).nodes@.len() - 1,
        plain_args(*final(m), r, "builtin_touniform"@) == Some(seq![kernel, input, x]),
{
    let args = vec![kernel, input, x];
    proof {
        assert(args@ =~= seq![kernel, input, x]);
    }
    build_call_of(m, "builtin_touniform", args)
}

/// What [`finish_truncated_normalize`] builds from the density term
/// `density` of `truncate(base, interval(lo, hi))`: `sub(density,
/// log(sub(touniform(hi), touniform(lo))))` over the kernel and input of
/// `base` ([`kernel_input`]), or the refusal of a base that is no
/// well-formed constructor.
pub open spec fn truncated_normalized(
    m0: Module,
    m: Module,
    density: NodeId,
    base: NodeId,
    lo: NodeId,
    hi: NodeId,
    params: Option<Seq<Seq<char>>>,
    r: Result<NodeId, RefuseError>,
) -> bool {
    match r {
        Ok(t) => exists|k: NodeId, i: NodeId|
            #[trigger] kernel_input(m0, m, base, params, Ok((k, i))) && t.0 < m.nodes@.len() && (plain_args(
                m,
                t,
                "sub"@,
            ) matches Some(a) && a.len() == 2 && a[0] == density && a[1].0 < m.nodes@.len() && (plain_args(
                m,
                a[1],
                "log"@,
            ) matches Some(l) && l.len() == 1 && l[0].0 < m.nodes@.len() && (plain_args(m, l[0], "sub"@) matches Some(
                d,
            ) && d.len() == 2 && d[0].0 < m.nodes@.len() && d[1].0 < m.nodes@.len() && plain_args(
                m,
                d[0],
                "builtin_touniform"@,
            ) == Some(seq![k, i, hi]) && plain_args(m, d[1], "builtin_touniform"@) == Some(seq![k, i, lo])))),
        Err(e) => kernel_input(m0, m, base, params, Err(e)),
    }
}

/// Finish [`NormalizeStep::Truncated`]: the log-density `density` of the
/// truncation less the log of its mass, `CDF(hi) - CDF(lo)` of `base`.
pub fn finish_truncated_normalize(
    m: &mut Module,
    density: NodeId,
    base: NodeId,
    lo: NodeId,
    hi: NodeId,
    params: &Option<Vec<String>>,
) -> (r: Result<NodeId, RefuseError>)
    requires
        old(m).wf(),
        density.0 < old(m).nodes@.len(),
        base.0 < old(m).nodes@.len(),
        lo.0 < old(m).nodes@.len(),
        hi.0 < old(m).nodes@.len(),
        record_types_interned(*old(m)),
    ensures
        final(m).wf(),
        final(m).extends(old(m)),
        final(m).bindings@ == old(m).bindings@,
        untyped_growth(*old(m), *final(m)),
        truncated_normalized(*old(m), *final(m), density, base, lo, hi, opt_strs(*params), r),
{
    let ghost m0 = *m;
    let (kernel, input) = match kernel_and_input(m, base, params) {
        Ok(x) => x,
        Err(e) => {
            return Err(e);
        },
    };
    let ghost mk = *m;
    let cdf_hi = build_touniform(m, kernel, input, hi);
    let ghost m_hi = *m;
    let cdf_lo = build_touniform(m, kernel, input, lo);
    let ghost m_lo = *m;
    let z = build_call_of(m, "sub", vec![cdf_hi, cdf_lo]);
    let ghost mz = *m;
    let log_z = build_call_of(m, "log", vec![z]);
    let ghost ml = *m;
    let out = build_call_of(m, "sub", vec![density, log_z]);
    proof {
        crate::term::lemma_extends_trans(mk, m_hi, m_lo);
        crate::term::lemma_extends_trans(mk, m_lo, mz);
        crate::term::lemma_extends_trans(mk, mz, ml);
        crate::term::lemma_extends_trans(mk, ml, *m);
        crate::term::lemma_extends_trans(m_hi, m_lo, mz);
        crate::term::lemma_extends_trans(m_hi, mz, ml);
        crate::term::lemma_extends_trans(m_hi, ml, *m);
        crate::term::lemma_extends_trans(m_lo, mz, ml);
        crate::term::lemma_extends_trans(m_lo, ml, *m);
        crate::term::lemma_extends_trans(mz, ml, *m);
        crate::term::lemma_extends_trans(m0, mk, *m);
        lemma_plain_args_stable(m_hi, *m, cdf_hi, "builtin_touniform"@);
        lemma_plain_args_stable(m_lo, *m, cdf_lo, "builtin_touniform"@);
        lemma_plain_args_stable(mz, *m, z, "sub"@);
        lemma_plain_args_stable(ml, *m, log_z, "log"@);
        let (sym, args) = choose|sym: Symbol, args: Seq<(Symbol, NodeId)>|
            #[trigger] kernel_split(m0, mk, crate::shape::resolve_one_spec(m0, base).0, opt_strs(*params), Some((sym, args)))
                && kernel.0 < mk.nodes@.len() && mk.at(kernel) == Node::Const(sym) && input.0 < mk.nodes@.len()
                && record_of_pairs(mk, input, args);
        assert(pairs_in(mk, args)) by {
            assert(node_wf(mk.nodes@[input.0 as int], input.0 as int, mk.symbols@.len()));
            if let Node::Call(rc) = mk.at(input) {
                assert forall|k: int| 0 <= k < args.len() implies (#[trigger] args[k]).0.0 < mk.symbols@.len()
                    && args[k].1.0 < mk.nodes@.len() by {
                    assert(rc.named@[k].name == args[k].0);
                    assert(rc.named@[k].value == args[k].1);
                    assert(crate::ir::node_children(mk.at(input))[rc.args@.len() + k + (if rc.head is User {
                        1int
                    } else {
                        0int
                    })] == rc.named@[k].value);
                }
            }
        }
        lemma_kernel_split_stable(
            m0,
            mk,
            *m,
            crate::shape::resolve_one_spec(m0, base).0,
            opt_strs(*params),
            Some((sym, args)),
        );
        assert(m.nodes@[kernel.0 as int] == mk.nodes@[kernel.0 as int]);
        lemma_record_of_pairs_stable(mk, *m, input, args);
        assert(kernel_input(m0, *m, base, opt_strs(*params), Ok((kernel, input))));
    }
    Ok(out)
}

/// Node `z` of `m` is the sum of the weights `ws` of `m0`: the weight itself
/// for one, their left fold under `add` for more.
pub open spec fn weights_sum(m0: Module, m: Module, z: NodeId, ws: Seq<NodeId>) -> bool {
    &&& ws.len() == 1 ==> z == ws[0]
    &&& ws.len() > 1 ==> exists|add: Symbol|
        m.name_of(add) == "add"@ && #[trigger] crate::term::term(m, z) == crate::shape::add_chain(
            ws.map_values(|t: NodeId| crate::term::term(m0, t)),
            add,
        )
}

/// Finish [`NormalizeStep::Convex`]: the log-density `density` of the
/// superposition less the log of its mass, the sum of its weights.
pub fn finish_convex_normalize(m: &mut Module, density: NodeId, weights: &Vec<NodeId>) -> (r: NodeId)
    requires
        old(m).wf(),
        density.0 < old(m).nodes@.len(),
        weights@.len() >= 1,
        forall|k: int| 0 <= k < weights@.len() ==> (#[trigger] weights@[k]).0 < old(m).nodes@.len(),
    ensures
        final(m).wf(),
        final(m).extends(old(m)),
        final(m).bindings@ == old(m).bindings@,
        untyped_growth(*old(m), *final(m)),
        r.0 < final(m).nodes@.len(),
        plain_args(*final(m), r, "sub"@) matches Some(a) && a.len() == 2 && a[0] == density && a[1].0
            < final(m).nodes@.len() && (plain_args(*final(m), a[1], "log"@) matches Some(l) && l.len() == 1
            && l[0].0 < final(m).nodes@.len() && weights_sum(*old(m), *final(m), l[0], weights@)),
{
    let ghost m0 = *m;
    let z = crate::shape::fold_add(m, weights.as_slice());
    let ghost mz = *m;
    let log_z = build_call_of(m, "log", vec![z]);
    let ghost ml = *m;
    let out = build_call_of(m, "sub", vec![density, log_z]);
    proof {
        crate::term::lemma_extends_trans(mz, ml, *m);
        lemma_plain_args_stable(ml, *m, log_z, "log"@);
        crate::term::lemma_term_stable(mz, *m, z);
        if weights@.len() > 1 {
            let add = choose|add: Symbol|
                mz.name_of(add) == "add"@ && crate::term::term(mz, z) == crate::shape::add_chain(
                    weights@.map_values(|t: NodeId| crate::term::term(m0, t)),
                    add,
                );
            assert(add.0 < mz.symbols@.len()) by {
                assert(crate::term::term(mz, z) is Call);
                assert(z.0 < mz.nodes@.len());
                assert(node_wf(mz.nodes@[z.0 as int], z.0 as int, mz.symbols@.len()));
            }
            assert(m.name_of(add) == mz.name_of(add));
        }
    }
    out
}

} // verus!

