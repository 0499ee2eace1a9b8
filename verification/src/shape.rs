//! Reading and building IR shapes: built-in call recognition, one-hop
//! reference resolution, and the construction helpers the rewrites share.

use vstd::prelude::*;
use vstd::string::*;
use crate::ir::{
    str_eq, Binding, BindingId, Call, CallHead, Module, NamedArg, NamedKind, Node, NodeId, Ref,
    RefNs, Symbol, node_wf,
};
use crate::refuse::{debug_text, node_debug_text, RefuseError};
use crate::term::{term, Term};

verus! {

/// The built-in head symbol of node `id`, if it is a built-in call.
pub open spec fn builtin_of(m: Module, id: NodeId) -> Option<Symbol> {
    if id.0 < m.nodes@.len() {
        match m.at(id) {
            Node::Call(c) => match c.head {
                CallHead::Builtin(s) => Some(s),
                _ => None,
            },
            _ => None,
        }
    } else {
        None
    }
}

/// Node `id` is a built-in call whose head is named `name`.
pub open spec fn is_builtin_named(m: Module, id: NodeId, name: Seq<char>) -> bool {
    builtin_of(m, id) matches Some(s) && m.name_of(s) == name
}

/// `n` is the positional built-in call `s(args…)` with no named entries and
/// no reification inputs.
pub open spec fn is_plain_call(n: Node, s: Symbol, args: Seq<NodeId>) -> bool {
    n matches Node::Call(c) && c.head == CallHead::Builtin(s) && c.args@ == args
        && c.named@.len() == 0 && c.inputs is None
}

/// What [`resolve_ref_one`] returns: a `(%ref self x)` naming a live binding
/// resolves to that binding's right-hand side; anything else to itself.
pub open spec fn resolve_one_spec(m: Module, id: NodeId) -> (NodeId, Option<BindingId>) {
    match self_ref_name(m, id) {
        Some(name) => if m.has_binding_named(name) {
            let b = choose|b: BindingId| m.live(b) && #[trigger] m.bind(b).name == name;
            (m.bind(b).rhs, Some(b))
        } else {
            (id, None)
        },
        None => (id, None),
    }
}

/// The binding name of node `id` when it is a `(%ref self name)`.
pub open spec fn self_ref_name(m: Module, id: NodeId) -> Option<Symbol> {
    if id.0 < m.nodes@.len() {
        match m.at(id) {
            Node::Ref(r) => if r.ns == RefNs::SelfMod {
                Some(r.name)
            } else {
                None
            },
            _ => None,
        }
    } else {
        None
    }
}

/// Node `id` is a built-in call named `name` with exactly one positional
/// argument; that argument.
pub open spec fn unary_builtin_arg(m: Module, id: NodeId, name: Seq<char>) -> Option<NodeId> {
    if is_builtin_named(m, id, name) {
        match m.at(id) {
            Node::Call(c) => if c.args@.len() == 1 {
                Some(c.args@[0])
            } else {
                None
            },
            _ => None,
        }
    } else {
        None
    }
}

/// If `id` is a built-in call with head named `name`, that call.
pub fn expect_builtin_call<'a>(m: &'a Module, id: NodeId, name: &str) -> (r: Option<&'a Call>)
    requires
        m.wf(),
        id.0 < m.nodes@.len(),
    ensures
        match r {
            Some(c) => m.at(id) == Node::Call(*c) && is_builtin_named(*m, id, name@),
            None => !is_builtin_named(*m, id, name@),
        },
{
    proof {
        assert(node_wf(m.nodes@[id.0 as int], id.0 as int, m.symbols@.len()));
    }
    match m.node(id) {
        Node::Call(c) => match c.head {
            CallHead::Builtin(sym) => {
                if str_eq(m.resolve(sym), name) {
                    Some(c)
                } else {
                    None
                }
            },
            CallHead::User(_) => None,
        },
        _ => None,
    }
}

/// The built-in op name of `id`, or `None` if it is not a built-in call.
pub fn builtin_name<'a>(m: &'a Module, id: NodeId) -> (r: Option<&'a str>)
    requires
        m.wf(),
        id.0 < m.nodes@.len(),
    ensures
        match r {
            Some(s) => builtin_of(*m, id) matches Some(x) && m.name_of(x) == s@,
            None => builtin_of(*m, id) is None,
        },
{
    proof {
        assert(node_wf(m.nodes@[id.0 as int], id.0 as int, m.symbols@.len()));
    }
    match m.node(id) {
        Node::Call(c) => match c.head {
            CallHead::Builtin(sym) => Some(m.resolve(sym)),
            CallHead::User(_) => None,
        },
        _ => None,
    }
}

/// Follow one level of `(%ref self x)` indirection.
pub fn resolve_ref_one(m: &Module, id: NodeId) -> (r: (NodeId, Option<BindingId>))
    requires
        m.wf(),
        id.0 < m.nodes@.len(),
    ensures
        r == resolve_one_spec(*m, id),
        r.0.0 < m.nodes@.len(),
{
    if let Node::Ref(Ref { ns: RefNs::SelfMod, name }) = m.node(id) {
        if let Some(bid) = m.binding_by_name(*name) {
            proof {
                let b = choose|b: BindingId| m.live(b) && #[trigger] m.bind(b).name == *name;
                assert(b == bid);
            }
            return (m.binding(bid).rhs, Some(bid));
        }
    }
    (id, None)
}

/// What [`resolve_ref_chain`] returns: follow `(%ref self x)` through the
/// bindings it names, at most `fuel` hops, remembering the last binding
/// passed (`last` before any hop).
pub open spec fn chain_spec(m: Module, id: NodeId, last: Option<BindingId>, fuel: nat) -> (NodeId, Option<BindingId>)
    decreases fuel,
{
    let (next, b) = resolve_one_spec(m, id);
    if fuel == 0 || b is None {
        (id, last)
    } else {
        chain_spec(m, next, b, (fuel - 1) as nat)
    }
}

/// Follow `(%ref self x)` indirection to the node that is not a reference
/// to a binding, with the last binding passed; a chain that returns to a
/// binding it passed stops after as many hops as there are binding slots.
pub fn resolve_ref_chain(m: &Module, id: NodeId) -> (r: (NodeId, Option<BindingId>))
    requires
        m.wf(),
        id.0 < m.nodes@.len(),
    ensures
        r == chain_spec(*m, id, None, m.bindings@.len() as nat),
        r.0.0 < m.nodes@.len(),
{
    let mut cur = id;
    let mut last: Option<BindingId> = None;
    let mut fuel: usize = m.bindings.len();
    loop
        invariant
            m.wf(),
            cur.0 < m.nodes@.len(),
            fuel <= m.bindings@.len(),
            chain_spec(*m, id, None, m.bindings@.len() as nat) == chain_spec(*m, cur, last, fuel as nat),
        decreases fuel,
    {
        if fuel == 0 {
            return (cur, last);
        }
        let (next, b) = resolve_ref_one(m, cur);
        match b {
            None => {
                return (cur, last);
            },
            Some(_) => {
                cur = next;
                last = b;
                fuel = fuel - 1;
            },
        }
    }
}

/// Allocate the positional built-in call `head(args…)`.
pub fn build_call(m: &mut Module, head: &str, args: &[NodeId]) -> (r: NodeId)
    requires
        old(m).wf(),
        forall|k: int| 0 <= k < args@.len() ==> (#[trigger] args@[k]).0 < old(m).nodes@.len(),
    ensures
        final(m).wf(),
        final(m).extends(old(m)),
        final(m).bindings@ == old(m).bindings@,
        r.0 == final(m).nodes@.len() - 1,
        r.0 >= old(m).nodes@.len(),
        final(m).nodes@.len() == old(m).nodes@.len() + 1,
        is_builtin_named(*final(m), r, head@),
        final(m).at(r) matches Node::Call(c) && c.args@ == args@ && c.named@.len() == 0
            && c.inputs is None && c.head is Builtin,
        final(m).types@ == old(m).types@.push(None),
{
    let sym = m.intern(head);
    let mut v: Vec<NodeId> = Vec::new();
    let mut i: usize = 0;
    while i < args.len()
        invariant
            i <= args@.len(),
            v@ == args@.subrange(0, i as int),
        decreases args@.len() - i,
    {
        v.push(args[i]);
        i += 1;
        assert(v@ =~= args@.subrange(0, i as int));
    }
    assert(v@ =~= args@);
    let call = Call { head: CallHead::Builtin(sym), args: v, named: Vec::new(), inputs: None };
    proof {
        let n = Node::Call(call);
        assert(forall|k: int| 0 <= k < call.named@.len() ==> (#[trigger] call.named@[k]).name.0 < m.symbols@.len());
        assert(crate::ir::call_children(call) =~= args@);
        assert(node_wf(n, m.nodes@.len() as int, m.symbols@.len()));
    }
    m.add_node(Node::Call(call))
}

/// Allocate the user call `(%call callee arg)`.
pub fn build_user_call(m: &mut Module, callee: NodeId, arg: NodeId) -> (r: NodeId)
    requires
        old(m).wf(),
        callee.0 < old(m).nodes@.len(),
        arg.0 < old(m).nodes@.len(),
    ensures
        final(m).wf(),
        final(m).extends(old(m)),
        final(m).bindings@ == old(m).bindings@,
        final(m).symbols@ == old(m).symbols@,
        crate::density::untyped_growth(*old(m), *final(m)),
        r.0 == old(m).nodes@.len(),
        final(m).nodes@.len() == old(m).nodes@.len() + 1,
        final(m).at(r) matches Node::Call(c) && c.head == CallHead::User(callee) && c.args@
            == seq![arg] && c.named@.len() == 0 && c.inputs is None,
{
    let mut args: Vec<NodeId> = Vec::new();
    args.push(arg);
    let call = Call { head: CallHead::User(callee), args, named: Vec::new(), inputs: None };
    proof {
        assert(crate::ir::call_children(call) =~= seq![callee, arg]);
    }
    m.add_node(Node::Call(call))
}

/// Allocate `record(%field name value …)` from `(name, value)` pairs.
pub fn build_record(m: &mut Module, fields: &[(Symbol, NodeId)]) -> (r: NodeId)
    requires
        old(m).wf(),
        forall|k: int|
            0 <= k < fields@.len() ==> (#[trigger] fields@[k]).1.0 < old(m).nodes@.len()
                && fields@[k].0.0 < old(m).symbols@.len(),
    ensures
        final(m).wf(),
        final(m).extends(old(m)),
        final(m).bindings@ == old(m).bindings@,
        r.0 == final(m).nodes@.len() - 1,
        r.0 >= old(m).nodes@.len(),
        final(m).nodes@.len() == old(m).nodes@.len() + 1,
        crate::density::untyped_growth(*old(m), *final(m)),
        is_builtin_named(*final(m), r, "record"@),
        final(m).at(r) matches Node::Call(c) && c.args@.len() == 0 && c.inputs is None
            && c.named@.len() == fields@.len() && forall|k: int|
            0 <= k < fields@.len() ==> (#[trigger] c.named@[k]) == (NamedArg {
                kind: NamedKind::Field,
                name: fields@[k].0,
                value: fields@[k].1,
            }),
{
    let mut named: Vec<NamedArg> = Vec::new();
    let mut i: usize = 0;
    while i < fields.len()
        invariant
            i <= fields@.len(),
            named@.len() == i,
            forall|k: int|
                0 <= k < i ==> (#[trigger] named@[k]) == (NamedArg {
                    kind: NamedKind::Field,
                    name: fields@[k].0,
                    value: fields@[k].1,
                }),
        decreases fields@.len() - i,
    {
        let (name, value) = fields[i];
        named.push(NamedArg { kind: NamedKind::Field, name, value });
        i += 1;
    }
    let record = m.intern("record");
    let call = Call { head: CallHead::Builtin(record), args: Vec::new(), named, inputs: None };
    proof {
        let ch = crate::ir::call_children(call);
        assert forall|k: int| 0 <= k < ch.len() implies (#[trigger] ch[k]).0 < m.nodes@.len() by {
            assert(ch[k] == named@[k].value);
        }
        assert forall|k: int| 0 <= k < call.named@.len() implies (#[trigger] call.named@[k]).name.0
            < m.symbols@.len() by {
            assert(call.named@[k].name == fields@[k].0);
        }
    }
    m.add_node(Node::Call(call))
}

/// The left fold of `terms` under `add`: one term stands for itself.
pub open spec fn add_chain(ts: Seq<Term>, add: Symbol) -> Term
    decreases ts.len(),
{
    if ts.len() <= 1 {
        if ts.len() == 1 { ts[0] } else { Term::Hole }
    } else {
        Term::Call {
            builtin: Some(add),
            kids: seq![add_chain(ts.drop_last(), add), ts.last()],
            nargs: 2,
            named: Seq::empty(),
            inputs: None,
        }
    }
}

/// Combine density terms with `add`: one term passes through; more fold left
/// into nested binary `add(acc, term)` calls.
pub fn fold_add(m: &mut Module, terms: &[NodeId]) -> (r: NodeId)
    requires
        old(m).wf(),
        terms@.len() >= 1,
        forall|k: int| 0 <= k < terms@.len() ==> (#[trigger] terms@[k]).0 < old(m).nodes@.len(),
    ensures
        final(m).wf(),
        final(m).extends(old(m)),
        final(m).bindings@ == old(m).bindings@,
        crate::density::untyped_growth(*old(m), *final(m)),
        r.0 < final(m).nodes@.len(),
        terms@.len() > 1 ==> (exists|add: Symbol|
            final(m).name_of(add) == "add"@ && term(*final(m), r) == add_chain(
                terms@.map_values(|t: NodeId| term(*old(m), t)),
                add,
            )),
        terms@.len() == 1 ==> r == terms@[0],
{
    let ghost m0 = *m;
    let ghost ts = terms@.map_values(|t: NodeId| term(m0, t));
    let mut acc = terms[0];
    if terms.len() == 1 {
        return acc;
    }
    let add = m.intern("add");
    let mut i: usize = 1;
    proof {
        crate::term::lemma_term_stable(m0, *m, acc);
        assert(add_chain(ts.subrange(0, 1), add) == ts[0]);
    }
    while i < terms.len()
        invariant
            m0.wf(),
            1 <= i <= terms@.len(),
            m.wf(),
            m.extends(&m0),
            m.bindings@ == m0.bindings@,
            crate::density::untyped_growth(m0, *m),
            add.0 < m.symbols@.len(),
            m.name_of(add) == "add"@,
            acc.0 < m.nodes@.len(),
            forall|k: int| 0 <= k < terms@.len() ==> (#[trigger] terms@[k]).0 < m0.nodes@.len(),
            ts == terms@.map_values(|t: NodeId| term(m0, t)),
            term(*m, acc) == add_chain(ts.subrange(0, i as int), add),
        decreases terms@.len() - i,
    {
        let ghost mi = *m;
        let ghost prev = acc;
        let t = terms[i];
        let mut v: Vec<NodeId> = Vec::new();
        v.push(acc);
        v.push(t);
        let call = Call { head: CallHead::Builtin(add), args: v, named: Vec::new(), inputs: None };
        proof {
            assert(crate::ir::call_children(call) =~= seq![acc, t]);
        }
        acc = m.add_node(Node::Call(call));
        i += 1;
        proof {
            lemma_term_stable_chain(m0, mi, *m, t);
            crate::term::lemma_term_stable(mi, *m, prev);
            let sub = ts.subrange(0, i as int);
            assert(sub.drop_last() =~= ts.subrange(0, i - 1));
            assert(sub.last() == term(m0, t));
            assert(crate::ir::call_children(call) =~= seq![prev, t]);
            if let Term::Call { kids, named, .. } = term(*m, acc) {
                assert(kids =~= seq![add_chain(sub.drop_last(), add), sub.last()]);
                assert(named =~= Seq::<(NamedKind, Symbol)>::empty());
            }
        }
    }
    assert(ts.subrange(0, terms@.len() as int) =~= ts);
    acc
}

proof fn lemma_term_stable_chain(m0: Module, m1: Module, m2: Module, t: NodeId)
    requires
        m0.wf(),
        m1.wf(),
        m1.extends(&m0),
        m2.extends(&m1),
        t.0 < m0.nodes@.len(),
    ensures
        term(m2, t) == term(m0, t),
{
    crate::term::lemma_term_stable(m0, m1, t);
    crate::term::lemma_term_stable(m1, m2, t);
}

/// If `id` is `draw(mᵢ)`, return `mᵢ`.
pub fn draw_argument(m: &Module, id: NodeId) -> (r: Option<NodeId>)
    requires
        m.wf(),
        id.0 < m.nodes@.len(),
    ensures
        r == unary_builtin_arg(*m, id, "draw"@),
{
    let c = match expect_builtin_call(m, id, "draw") {
        Some(c) => c,
        None => return None,
    };
    if c.args.len() != 1 {
        return None;
    }
    Some(c.args[0])
}

/// The value of the `%field` entry `name` in `named`, if present.
pub fn lookup_field(named: &[NamedArg], name: Symbol) -> (r: Option<NodeId>)
    ensures
        match r {
            Some(v) => exists|k: int|
                0 <= k < named@.len() && (#[trigger] named@[k]).kind == NamedKind::Field
                    && named@[k].name == name && named@[k].value == v && forall|j: int|
                    0 <= j < k ==> !(named@[j].kind == NamedKind::Field && named@[j].name == name),
            None => forall|k: int|
                0 <= k < named@.len() ==> !((#[trigger] named@[k]).kind == NamedKind::Field
                    && named@[k].name == name),
        },
{
    let mut i: usize = 0;
    while i < named.len()
        invariant
            i <= named@.len(),
            forall|j: int|
                0 <= j < i ==> !((#[trigger] named@[j]).kind == NamedKind::Field && named@[j].name
                    == name),
        decreases named@.len() - i,
    {
        if named[i].kind == NamedKind::Field && named[i].name == name {
            return Some(named[i].value);
        }
        i += 1;
    }
    None
}

/// The construct name a refusal at `id` reports: the built-in head, `user-call`
/// for an applied value, else the node's `Debug` rendering.
pub open spec fn construct_name(m: Module, id: NodeId) -> Seq<char> {
    match m.at(id) {
        Node::Call(c) => match c.head {
            CallHead::Builtin(s) => m.name_of(s),
            CallHead::User(_) => "user-call"@,
        },
        other => debug_text(other),
    }
}

/// A refusal naming the construct at `id`.
pub fn refuse(id: NodeId, m: &Module, reason: &str) -> (e: RefuseError)
    requires
        m.wf(),
        id.0 < m.nodes@.len(),
    ensures
        e.node == id,
        e.construct@ == construct_name(*m, id),
        e.reason@ == reason@,
{
    broadcast use vstd::string::group_string_axioms;

    proof {
        assert(node_wf(m.nodes@[id.0 as int], id.0 as int, m.symbols@.len()));
        reveal_strlit("user-call");
    }
    let construct = match m.node(id) {
        Node::Call(c) => match c.head {
            CallHead::Builtin(sym) => m.resolve(sym).to_string(),
            CallHead::User(_) => "user-call".to_string(),
        },
        other => node_debug_text(other),
    };
    RefuseError { node: id, construct, reason: reason.to_string() }
}


/// The measure-algebra combinator vocabulary: a head in it is a combinator,
/// not a leaf distribution constructor.
pub open spec fn measure_combinator(name: Seq<char>) -> bool {
    ||| name == "pushfwd"@
    ||| name == "weighted"@
    ||| name == "logweighted"@
    ||| name == "superpose"@
    ||| name == "normalize"@
    ||| name == "truncate"@
    ||| name == "joint"@
    ||| name == "jointchain"@
    ||| name == "iid"@
    ||| name == "lawof"@
    ||| name == "draw"@
    ||| name == "kchain"@
    ||| name == "kscan"@
    ||| name == "markovchain"@
    ||| name == "locscale"@
    ||| name == "restrict"@
    ||| name == "bayesupdate"@
    ||| name == "disintegrate"@
    ||| name == "likelihoodof"@
    ||| name == "joint_likelihood"@
}

/// Whether `name` is a measure-algebra combinator (see [`measure_combinator`]).
pub fn is_measure_combinator_op(name: &str) -> (r: bool)
    ensures
        r == measure_combinator(name@),
{
    str_eq(name, "pushfwd") || str_eq(name, "weighted") || str_eq(name, "logweighted") || str_eq(
        name,
        "superpose",
    ) || str_eq(name, "normalize") || str_eq(name, "truncate") || str_eq(name, "joint") || str_eq(
        name,
        "jointchain",
    ) || str_eq(name, "iid") || str_eq(name, "lawof") || str_eq(name, "draw") || str_eq(name, "kchain")
        || str_eq(name, "kscan") || str_eq(name, "markovchain") || str_eq(name, "locscale") || str_eq(
        name,
        "restrict",
    ) || str_eq(name, "bayesupdate") || str_eq(name, "disintegrate") || str_eq(name, "likelihoodof")
        || str_eq(name, "joint_likelihood")
}

/// Whether `base`'s built-in head is a measure-algebra combinator rather than
/// a leaf distribution constructor.
pub fn base_is_measure_combinator(m: &Module, base: NodeId) -> (r: bool)
    requires
        m.wf(),
        base.0 < m.nodes@.len(),
    ensures
        r == (builtin_of(*m, base) matches Some(s) && measure_combinator(m.name_of(s))),
{
    match builtin_name(m, base) {
        Some(name) => is_measure_combinator_op(name),
        None => false,
    }
}

/// The refusal text for a measure op the density lowering does not handle.
pub open spec fn refuse_op_reason(op: Seq<char>) -> Seq<char> {
    "density lowering for `"@ + op + "` is not implemented (deferred to a later task)"@
}

/// A refusal for an unhandled measure op: its head name, or `unknown`.
pub fn refuse_op(id: NodeId, m: &Module) -> (e: RefuseError)
    requires
        m.wf(),
        id.0 < m.nodes@.len(),
    ensures
        e.node == id,
        e.construct@ == (match builtin_of(*m, id) {
            Some(s) => m.name_of(s),
            None => "unknown"@,
        }),
        e.reason@ == refuse_op_reason(e.construct@),
{
    broadcast use vstd::string::group_string_axioms;

    let op = match builtin_name(m, id) {
        Some(name) => name.to_string(),
        None => {
            proof {
                reveal_strlit("unknown");
            }
            "unknown".to_string()
        },
    };
    let mut reason = String::from_str("density lowering for `");
    reason.append(op.as_str());
    reason.append("` is not implemented (deferred to a later task)");
    proof {
        reveal_strlit("density lowering for `");
        reveal_strlit("` is not implemented (deferred to a later task)");
    }
    RefuseError { node: id, construct: op, reason }
}

} // verus!
