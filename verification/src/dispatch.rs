//! The density dispatcher: `logdensityof(M, v)` lowered by recursion over the
//! measure expression `M`, one rule per measure combinator, down to the
//! primitive constructors' `builtin_logdensityof` terms.
//!
//! | measure                 | log-density at `v`                              |
//! |-------------------------|-------------------------------------------------|
//! | `weighted(w, M)`        | `add(log(w), density(M))`, `w(v)` for a function |
//! | `logweighted(ℓ, M)`     | `add(ℓ, density(M))`, `ℓ(v)` for a function      |
//! | `superpose(M₁, …, Mₖ)`  | `logsumexp(vector(density(M₁), …))`              |
//! | `normalize(M)`          | as `lower_normalize` reads it, finished by `density(M)` |
//! | `pushfwd(fn(get(_, s)), M)` | the marginal over the selected components  |
//! | `joint(M₁, …)`          | `Σ density(Mᵢ, get0(v, i))`                     |
//! | `joint(a = M₁, …)`      | `Σ density(Mᵢ, v.a)`                            |
//! | `broadcast(K, data…)`   | the kernel-broadcast density of the cells       |
//! | a primitive constructor | `builtin_logdensityof(Ctor, record(…), v)`      |
//!
//! The queries that read a likelihood or a posterior, and the combinators
//! whose rules stand outside this dispatcher, are refused by name rather than
//! read as a primitive constructor.

use vstd::prelude::*;
use crate::invert::{pushfwd_plan, pushfwd_plan_spec, PushfwdPlan, PushfwdPlanV};
use crate::projection::{lower_projection_pushfwd, projection_step, IndexProjection, NamedProjection, ProjectionStep};
use crate::density::{
    finish_convex_normalize, finish_truncated_normalize, lower_normalize, normalize_step, step_in, truncated_normalized,
    NormalizeStep, build_density_term, constructor_reason, kernel_split, kind_mismatch, lemma_record_types_grow, mismatch_reason,
    opt_strs, record_types_interned, refusal, untyped_growth,
};
use crate::disintegrate::strs_view;
use crate::ir::{str_eq, BindingId, CallHead, Module, NamedArg, NamedKind, Node, NodeId, Symbol, Type};
use crate::refuse::RefuseError;
use crate::shape::{
    build_call, build_user_call, builtin_name, builtin_of, construct_name, expect_builtin_call, is_builtin_named,
    refuse, refuse_op, refuse_op_reason, resolve_one_spec, resolve_ref_one, self_ref_name,
};
use crate::term::lemma_extends_trans;

verus! {

// ---------------------------------------------------------------------------
// The constructor parameter table
// ---------------------------------------------------------------------------

/// A table of distribution constructors by name with their ordered parameter
/// names, as plain values.
pub open spec fn table_view(tab: Seq<(String, Vec<String>)>) -> Seq<(Seq<char>, Seq<Seq<char>>)> {
    tab.map_values(|p: (String, Vec<String>)| (p.0@, strs_view(p.1@)))
}

/// The parameter names of constructor `name`: its first entry of the table
/// from the `k`-th on.
pub open spec fn params_from(tab: Seq<(Seq<char>, Seq<Seq<char>>)>, name: Seq<char>, k: nat) -> Option<Seq<Seq<char>>>
    decreases tab.len() - k,
{
    if k >= tab.len() {
        None
    } else if tab[k as int].0 == name {
        Some(tab[k as int].1)
    } else {
        params_from(tab, name, k + 1)
    }
}

/// The parameter names of the constructor heading `node`, if the table knows it.
pub open spec fn ctor_params(m: Module, node: NodeId, tab: Seq<(Seq<char>, Seq<Seq<char>>)>) -> Option<Seq<Seq<char>>> {
    match builtin_of(m, node) {
        Some(s) => params_from(tab, m.name_of(s), 0),
        None => None,
    }
}

fn copy_strings(v: &Vec<String>) -> (r: Vec<String>)
    ensures
        strs_view(r@) == strs_view(v@),
{
    let mut r: Vec<String> = Vec::new();
    let mut i: usize = 0;
    while i < v.len()
        invariant
            i <= v@.len(),
            r@.len() == i,
            forall|j: int| 0 <= j < i ==> (#[trigger] r@[j])@ == v@[j]@,
        decreases v@.len() - i,
    {
        r.push(v[i].clone());
        i += 1;
    }
    assert(strs_view(r@) =~= strs_view(v@));
    r
}

/// Look constructor `name` up in the table.
pub fn lookup_params(tab: &Vec<(String, Vec<String>)>, name: &str) -> (r: Option<Vec<String>>)
    ensures
        opt_strs(r) == params_from(table_view(tab@), name@, 0),
{
    let ghost t = table_view(tab@);
    let mut k: usize = 0;
    while k < tab.len()
        invariant
            k <= tab@.len(),
            t == table_view(tab@),
            params_from(t, name@, 0) == params_from(t, name@, k as nat),
        decreases tab@.len() - k,
    {
        if str_eq(tab[k].0.as_str(), name) {
            let r = copy_strings(&tab[k].1);
            return Some(r);
        }
        k += 1;
    }
    None
}

/// The table's parameter names for the constructor heading `node`.
fn params_for(m: &Module, node: NodeId, tab: &Vec<(String, Vec<String>)>) -> (r: Option<Vec<String>>)
    requires
        m.wf(),
        node.0 < m.nodes@.len(),
    ensures
        opt_strs(r) == ctor_params(*m, node, table_view(tab@)),
{
    match builtin_name(m, node) {
        Some(name) => lookup_params(tab, name),
        None => None,
    }
}

/// The parameter names of the constructor a kernel broadcast at `node`
/// names by its head, if the table knows it.
pub open spec fn broadcast_params(m: Module, node: NodeId, tab: Seq<(Seq<char>, Seq<Seq<char>>)>) -> Option<Seq<Seq<char>>> {
    match crate::canon::flatten::builtin_call_named(m, node, "broadcast"@) {
        Some(c) => if c.args@.len() > 0 {
            match crate::kernel_broadcast::broadcast_head_ctor(m, c.args@[0]) {
                Some(k) => params_from(tab, m.name_of(k), 0),
                None => None,
            }
        } else {
            None
        },
        None => None,
    }
}

/// The table's parameter names for the constructor a broadcast names.
fn broadcast_params_for(m: &Module, node: NodeId, tab: &Vec<(String, Vec<String>)>) -> (r: Option<Vec<String>>)
    requires
        m.wf(),
        node.0 < m.nodes@.len(),
    ensures
        opt_strs(r) == broadcast_params(*m, node, table_view(tab@)),
{
    let c = match expect_builtin_call(m, node, "broadcast") {
        Some(c) => c,
        None => {
            return None;
        },
    };
    if c.args.len() == 0 {
        return None;
    }
    proof {
        crate::invert::lemma_args_older(*m, node);
        assert(crate::ir::node_wf(m.nodes@[c.args@[0].0 as int], c.args@[0].0 as int, m.symbols@.len()));
    }
    let k = match m.node(c.args[0]) {
        Node::Const(s) => *s,
        Node::Ref(x) => match x.ns {
            crate::ir::RefNs::Module(_) => x.name,
            _ => {
                return None;
            },
        },
        _ => {
            return None;
        },
    };
    lookup_params(tab, m.resolve(k))
}

// ---------------------------------------------------------------------------
// The dispatch rules
// ---------------------------------------------------------------------------

/// Combinators refused at the dispatcher: queries of a chain, a posterior, a
/// disintegration, a restriction or a likelihood, entered as a bare measure.
pub open spec fn refused_op(name: Seq<char>) -> bool {
    ||| name == "markovchain"@
    ||| name == "kscan"@
    ||| name == "bayesupdate"@
    ||| name == "disintegrate"@
    ||| name == "restrict"@
    ||| name == "likelihoodof"@
    ||| name == "joint_likelihood"@
}

/// Combinators whose density rule this dispatcher does not hold.
pub open spec fn held_out(name: Seq<char>) -> bool {
    ||| name == "record"@
    ||| name == "lawof"@
    ||| name == "truncate"@
    ||| name == "kchain"@
    ||| name == "jointchain"@
    ||| name == "iid"@
    ||| name == "functionof"@
    ||| name == "kernelof"@
    ||| name == "locscale"@
}

pub open spec fn held_out_reason() -> Seq<char> {
    "no density rule for this measure construct in this dispatcher — refuse rather than mislower"@
}

pub open spec fn depth_reason() -> Seq<char> {
    "measure expression nests deeper than the module has nodes (a reference cycle) — refuse rather than loop"@
}

/// A weight is a function of the variate: a reified callable by its type, or
/// a `functionof` / `kernelof` one reference hop away.
pub open spec fn variate_dependent(m: Module, w: NodeId) -> bool {
    let res = resolve_one_spec(m, w).0;
    ||| m.types@[w.0 as int] == Some(Type::Function)
    ||| m.types@[w.0 as int] == Some(Type::Kernel)
    ||| is_builtin_named(m, res, "functionof"@)
    ||| is_builtin_named(m, res, "kernelof"@)
    ||| m.types@[res.0 as int] == Some(Type::Function)
    ||| m.types@[res.0 as int] == Some(Type::Kernel)
}

/// `m1` is a later state of `m0` that a recursive step starts from.
pub open spec fn grown(m0: Module, m1: Module) -> bool {
    &&& m1.wf()
    &&& m1.extends(&m0)
    &&& m1.bindings@ == m0.bindings@
}

/// The weight term of a `weighted` / `logweighted` at `v`: the weight itself,
/// or the user call `w(v)` for a weight that is a function of the variate.
pub open spec fn weight_term(m0: Module, m: Module, ws: NodeId, w: NodeId, v: NodeId) -> bool {
    if variate_dependent(m0, w) {
        &&& ws.0 < m.nodes@.len()
        &&& m.at(ws) matches Node::Call(c) && c.head == CallHead::User(w) && c.args@ == seq![v]
            && c.named@.len() == 0 && c.inputs is None
    } else {
        ws == w
    }
}

/// `t` is `add(log(w'), d)` (`add(w', d)` for `logweighted`), `w'` the weight
/// term.
pub open spec fn weighted_node(m0: Module, m: Module, t: NodeId, w: NodeId, d: NodeId, v: NodeId, take_log: bool) -> bool {
    &&& t.0 < m.nodes@.len()
    &&& crate::density::plain_args(m, t, "add"@) matches Some(a) && a.len() == 2 && a[1] == d && (if take_log {
        crate::density::plain_args(m, a[0], "log"@) matches Some(l) && l.len() == 1 && weight_term(m0, m, l[0], w, v)
    } else {
        weight_term(m0, m, a[0], w, v)
    })
}

/// `t` is `logsumexp(vector(ds…))`.
pub open spec fn superpose_node(m: Module, t: NodeId, ds: Seq<NodeId>) -> bool {
    &&& t.0 < m.nodes@.len()
    &&& crate::density::plain_args(m, t, "logsumexp"@) matches Some(a) && a.len() == 1
        && crate::density::plain_args(m, a[0], "vector"@) == Some(ds)
}

/// A recursive step's result with the states it started from and left.
pub open spec fn stepped(sub: Result<NodeId, RefuseError>, ma: Module, mb: Module) -> bool {
    true
}

/// A normalize step with the state it left.
pub open spec fn normalized(st: Result<NormalizeStep, RefuseError>, m1: Module) -> bool {
    true
}

/// `t` is `sub(d, log(Σ weights))`: the density `d` less the log of the
/// total mass of a convex superposition (see `finish_convex_normalize`).
pub open spec fn convex_finished(m0: Module, m: Module, d: NodeId, ws: Seq<NodeId>, t: NodeId) -> bool {
    &&& t.0 < m.nodes@.len()
    &&& crate::density::plain_args(m, t, "sub"@) matches Some(a) && a.len() == 2 && a[0] == d && a[1].0 < m.nodes@.len()
        && (crate::density::plain_args(m, a[1], "log"@) matches Some(l) && l.len() == 1 && l[0].0 < m.nodes@.len()
        && crate::density::weights_sum(m0, m, l[0], ws))
}

pub open spec fn joint_mix_reason() -> Seq<char> {
    "joint mixes positional and keyword components; a joint is either the positional cat-variate form or the keyword record-variate form, not both"@
}

pub open spec fn joint_scalar_reason() -> Seq<char> {
    "joint component variate kind is not confirmed scalar (unknown/deferred or non-scalar); refuse rather than mislower a cat-slice"@
}

pub open spec fn non_field_reason() -> Seq<char> {
    "non-field named arg in keyword joint (expected `name = measure` components)"@
}

/// The value of the first `%field` entry named `name` in `named`, from the
/// `k`-th on.
pub open spec fn field_value(named: Seq<NamedArg>, name: Symbol, k: nat) -> Option<NodeId>
    decreases named.len() - k,
{
    if k >= named.len() {
        None
    } else if named[k as int].kind == NamedKind::Field && named[k as int].name == name {
        Some(named[k as int].value)
    } else {
        field_value(named, name, k + 1)
    }
}

/// The first component of a keyword joint, from the `k`-th on, whose name
/// the value record lacks.
pub open spec fn first_missing(comps: Seq<NamedArg>, vals: Seq<NamedArg>, k: nat) -> Option<int>
    decreases comps.len() - k,
{
    if k >= comps.len() {
        None
    } else if field_value(vals, comps[k as int].name, 0) is None {
        Some(k as int)
    } else {
        first_missing(comps, vals, k + 1)
    }
}

/// The (measure, point) pairs of a keyword joint `joint(name = M, …)` at the
/// value record `v` (one reference hop): each component scored at the field
/// of its name. Refused: a component that is not a `%field` entry; a value
/// that is not a record, or carries positional entries; a missing field.
pub open spec fn keyword_points(m: Module, node: NodeId, comps: Seq<NamedArg>, v: NodeId) -> Result<Seq<(NodeId, NodeId)>, (NodeId, Seq<char>)> {
    let vr = resolve_one_spec(m, v).0;
    if exists|k: int| 0 <= k < comps.len() && (#[trigger] comps[k]).kind != NamedKind::Field {
        Err((node, non_field_reason()))
    } else if !is_builtin_named(m, vr, "record"@) {
        Err((vr, "joint value must be a record"@))
    } else if m.at(vr)->Call_0.args@.len() != 0 {
        Err((vr, "joint value record carries positional args"@))
    } else {
        let vals = m.at(vr)->Call_0.named@;
        match first_missing(comps, vals, 0) {
            Some(j) => Err((vr, "missing field "@ + m.name_of(comps[j].name) + " in joint value record"@)),
            None => Ok(Seq::new(comps.len(), |j: int| (comps[j].value, field_value(vals, comps[j].name, 0).unwrap()))),
        }
    }
}

/// The slots a positional joint is scored at, in the state that built them.
pub open spec fn slotted(m1: Module, pairs: Seq<(NodeId, NodeId)>) -> bool {
    true
}

/// A projection step with the state it left.
pub open spec fn projected(ps: Result<ProjectionStep, RefuseError>, m1: Module) -> bool {
    true
}

pub open spec fn no_component_reason() -> Seq<char> {
    "structural projection selects no component — refuse rather than mislower"@
}

/// `t` is the sum of the terms `ds`: the one term itself, or their left
/// fold under `add`.
pub open spec fn sum_node(m: Module, t: NodeId, ds: Seq<NodeId>) -> bool {
    &&& t.0 < m.nodes@.len()
    &&& ds.len() == 1 ==> t == ds[0]
    &&& ds.len() > 1 ==> exists|add: crate::ir::Symbol|
        m.name_of(add) == "add"@ && #[trigger] crate::term::term(m, t) == crate::shape::add_chain(
            ds.map_values(|d: NodeId| crate::term::term(m, d)),
            add,
        )
}

/// The nodes of successful step results.
pub open spec fn oks(subs: Seq<Result<NodeId, RefuseError>>) -> Seq<NodeId> {
    subs.map_values(|x: Result<NodeId, RefuseError>| x->Ok_0)
}

/// The step results of `n` components, with the states each started from and
/// left.
pub open spec fn traced(n: int, subs: Seq<Result<NodeId, RefuseError>>, mas: Seq<Module>, mbs: Seq<Module>) -> bool {
    subs.len() == n && mas.len() == n && mbs.len() == n
}

/// A primitive constructor scored at `v` (see `build_density_term`).
pub open spec fn primitive_at(
    m0: Module,
    m: Module,
    node: NodeId,
    v: NodeId,
    tab: Seq<(Seq<char>, Seq<Seq<char>>)>,
    r: Result<NodeId, RefuseError>,
) -> bool {
    let params = ctor_params(m0, node, tab);
    match r {
        Ok(t) => {
            &&& !kind_mismatch(m0, node, v)
            &&& t.0 < m.nodes@.len()
            &&& exists|ctor: crate::ir::Symbol, args: Seq<(crate::ir::Symbol, NodeId)>|
                #[trigger] kernel_split(m0, m, node, params, Some((ctor, args)))
                    && crate::density::density_term(m, t, ctor, args, v)
        },
        Err(e) => if kind_mismatch(m0, node, v) {
            &&& e.node == v
            &&& e.construct@ == construct_name(m0, v)
            &&& e.reason@ == mismatch_reason()
        } else {
            &&& kernel_split(m0, m, node, params, None)
            &&& e.node == node
            &&& e.construct@ == construct_name(m0, node)
            &&& e.reason@ == constructor_reason()
        },
    }
}

/// What the dispatcher gives for the measure `expr` at `v`, following at most
/// `depth` levels of nesting: `expr` one reference hop resolved, then its
/// rule by head. A sub-measure's density is what the dispatcher gives for it
/// one level down, from a later state `ma` of the module (same bindings),
/// leaving a state `mb` that the final one extends.
/// - `weighted(w, M)`: `add(log(w'), d)`, `logweighted(ℓ, M)`: `add(ℓ', d)`,
///   with `d` the density of `M` and `w'` / `ℓ'` the weight, applied to `v`
///   when it is a function of the variate;
/// - `superpose(M₁, …, Mₖ)`: `logsumexp(vector(d₁, …, dₖ))`, the components
///   scored in order and the first refusal passed on;
/// - a chain, posterior, disintegration, restriction or likelihood entered as
///   a bare measure: refused by op name;
/// - a combinator whose rule stands outside the dispatcher, or an applied
///   kernel: refused;
/// - anything else: a primitive constructor.
pub open spec fn density_at(
    m0: Module,
    m: Module,
    expr: NodeId,
    v: NodeId,
    tab: Seq<(Seq<char>, Seq<Seq<char>>)>,
    depth: nat,
    r: Result<NodeId, RefuseError>,
) -> bool
    decreases depth,
{
    let node = resolve_one_spec(m0, expr).0;
    if depth == 0 {
        &&& refusal(r, node, construct_name(m0, node), depth_reason())
        &&& m == m0
    } else {
        let d1 = (depth - 1) as nat;
        match builtin_of(m0, node) {
            Some(s) => {
                let op = m0.name_of(s);
                if op == "weighted"@ || op == "logweighted"@ {
                    let c = m0.at(node)->Call_0;
                    if c.args@.len() != 2 {
                        &&& refusal(r, node, construct_name(m0, node), op + " expects 2 args"@)
                        &&& m == m0
                    } else {
                        exists|sub: Result<NodeId, RefuseError>, ma: Module, mb: Module|
                            #[trigger] stepped(sub, ma, mb) && density_at(ma, mb, c.args@[1], v, tab, d1, sub) && grown(m0, ma) && mb.wf()
                                && m.extends(&mb) && match sub {
                                Err(e) => r == Err::<NodeId, RefuseError>(e),
                                Ok(d) => r matches Ok(t) && weighted_node(m0, m, t, c.args@[0], d, v, op == "weighted"@),
                            }
                    }
                } else if op == "superpose"@ {
                    let args = m0.at(node)->Call_0.args@;
                    if args.len() < 2 {
                        &&& refusal(r, node, construct_name(m0, node), "superpose needs at least 2 components"@)
                        &&& m == m0
                    } else {
                        exists|n: int, subs: Seq<Result<NodeId, RefuseError>>, mas: Seq<Module>, mbs: Seq<Module>|
                            {
                                &&& 1 <= n <= args.len()
                                &&& #[trigger] traced(n, subs, mas, mbs)
                                &&& forall|i: int| #![trigger mas[i]] 0 <= i < n ==> density_at(mas[i], mbs[i], args[i], v, tab, d1, subs[i])
                                    && grown(m0, mas[i]) && mbs[i].wf() && m.extends(&mbs[i])
                                &&& forall|i: int| 0 <= i < n - 1 ==> #[trigger] subs[i] is Ok
                                &&& if subs[n - 1] is Err {
                                    r == subs[n - 1]
                                } else {
                                    &&& n == args.len()
                                    &&& r matches Ok(t) && superpose_node(m, t, oks(subs))
                                }
                            }
                    }
                } else if op == "normalize"@ {
                    exists|st: Result<NormalizeStep, RefuseError>, m1: Module|
                        #[trigger] normalized(st, m1) && normalize_step(m0, m1, node, v, params_from(tab, "Normal"@, 0), st)
                            && grown(m0, m1) && untyped_growth(m0, m1) && match st {
                                Err(e) => r == Err::<NodeId, RefuseError>(e) && m == m1,
                                Ok(NormalizeStep::Lowered(t)) => r == Ok::<NodeId, RefuseError>(t) && m == m1,
                                Ok(NormalizeStep::Inner(i)) => exists|sub: Result<NodeId, RefuseError>, ma: Module, mb: Module|
                                    #[trigger] stepped(sub, ma, mb) && density_at(ma, mb, i, v, tab, d1, sub) && grown(m1, ma)
                                        && mb.wf() && m.extends(&mb) && r == sub,
                                Ok(NormalizeStep::Truncated { inner, base, lo, hi }) => exists|sub: Result<NodeId, RefuseError>, ma: Module, mb: Module|
                                    #[trigger] stepped(sub, ma, mb) && density_at(ma, mb, inner, v, tab, d1, sub) && grown(m1, ma)
                                        && mb.wf() && m.extends(&mb) && match sub {
                                        Err(e) => r == Err::<NodeId, RefuseError>(e),
                                        Ok(d) => truncated_normalized(mb, m, d, base, lo, hi, ctor_params(mb, resolve_one_spec(mb, base).0, tab), r),
                                    },
                                Ok(NormalizeStep::Convex { inner, weights }) => exists|sub: Result<NodeId, RefuseError>, ma: Module, mb: Module|
                                    #[trigger] stepped(sub, ma, mb) && density_at(ma, mb, inner, v, tab, d1, sub) && grown(m1, ma)
                                        && mb.wf() && m.extends(&mb) && match sub {
                                        Err(e) => r == Err::<NodeId, RefuseError>(e),
                                        Ok(d) => r matches Ok(t) && convex_finished(mb, m, d, weights@, t),
                                    },
                            }
                } else if op == "pushfwd"@ {
                    match pushfwd_plan_spec(m0, node) {
                        Err((at, reason)) => refusal(r, at, construct_name(m0, at), reason) && m == m0,
                        Ok(PushfwdPlanV::Projection(sel, subset, inner)) => exists|ps: Result<ProjectionStep, RefuseError>, m1: Module|
                            #[trigger] projected(ps, m1) && projection_step(m0, m1, inner, sel, subset, v, ps) && grown(m0, m1)
                                && untyped_growth(m0, m1) && match ps {
                                Err(e) => r == Err::<NodeId, RefuseError>(e) && m == m1,
                                Ok(ProjectionStep::Named(NamedProjection::Score(sub_measure))) => exists|sub: Result<NodeId, RefuseError>, ma: Module, mb: Module|
                                    #[trigger] stepped(sub, ma, mb) && density_at(ma, mb, sub_measure, v, tab, d1, sub) && grown(m1, ma)
                                        && mb.wf() && m.extends(&mb) && r == sub,
                                Ok(ProjectionStep::Index(IndexProjection::ScoreEach(pairs))) => if pairs@.len() == 0 {
                                    refusal(r, node, construct_name(m0, node), no_component_reason()) && m == m1
                                } else {
                                    exists|n: int, subs: Seq<Result<NodeId, RefuseError>>, mas: Seq<Module>, mbs: Seq<Module>|
                                        {
                                            &&& 1 <= n <= pairs@.len()
                                            &&& #[trigger] traced(n, subs, mas, mbs)
                                            &&& forall|i: int| #![trigger mas[i]] 0 <= i < n ==> density_at(mas[i], mbs[i], pairs@[i].0, pairs@[i].1, tab, d1, subs[i])
                                                && grown(m1, mas[i]) && mbs[i].wf() && m.extends(&mbs[i])
                                            &&& forall|i: int| 0 <= i < n - 1 ==> #[trigger] subs[i] is Ok
                                            &&& if subs[n - 1] is Err {
                                                r == subs[n - 1]
                                            } else {
                                                &&& n == pairs@.len()
                                                &&& r matches Ok(t) && sum_node(m, t, oks(subs))
                                            }
                                        }
                                },
                                Ok(_) => refusal(r, node, construct_name(m0, node), held_out_reason()) && m == m1,
                            },
                        Ok(_) => refusal(r, node, construct_name(m0, node), held_out_reason()) && m == m0,
                    }
                } else if op == "joint"@ {
                    let c = m0.at(node)->Call_0;
                    if c.args@.len() > 0 && c.named@.len() > 0 {
                        refusal(r, node, construct_name(m0, node), joint_mix_reason()) && m == m0
                    } else if c.named@.len() > 0 {
                        match keyword_points(m0, node, c.named@, v) {
                            Err((at, reason)) => refusal(r, at, construct_name(m0, at), reason) && m == m0,
                            Ok(pairs) => exists|n: int, subs: Seq<Result<NodeId, RefuseError>>, mas: Seq<Module>, mbs: Seq<Module>|
                                {
                                    &&& 1 <= n <= pairs.len()
                                    &&& #[trigger] traced(n, subs, mas, mbs)
                                    &&& forall|i: int| #![trigger mas[i]] 0 <= i < n ==> density_at(mas[i], mbs[i], pairs[i].0, pairs[i].1, tab, d1, subs[i])
                                        && grown(m0, mas[i]) && mbs[i].wf() && m.extends(&mbs[i])
                                    &&& forall|i: int| 0 <= i < n - 1 ==> #[trigger] subs[i] is Ok
                                    &&& if subs[n - 1] is Err {
                                        r == subs[n - 1]
                                    } else {
                                        &&& n == pairs.len()
                                        &&& r matches Ok(t) && sum_node(m, t, oks(subs))
                                    }
                                },
                        }
                    } else if c.args@.len() < 2 {
                        refusal(r, node, construct_name(m0, node), "joint needs at least 2 components"@) && m == m0
                    } else {
                        match crate::projection::first_nonscalar(m0, c.args@, 0) {
                            Some(bad) => refusal(r, bad, construct_name(m0, bad), joint_scalar_reason()) && m == m0,
                            None => exists|m1: Module, pairs: Seq<(NodeId, NodeId)>|
                                #[trigger] slotted(m1, pairs) && grown(m0, m1) && pairs.len() == c.args@.len()
                                    && (forall|j: int| 0 <= j < pairs.len() ==> (#[trigger] pairs[j]).0 == c.args@[j]
                                    && crate::projection::slot_point(m1, pairs[j].1, v, j))
                                    && exists|n: int, subs: Seq<Result<NodeId, RefuseError>>, mas: Seq<Module>, mbs: Seq<Module>|
                                {
                                    &&& 1 <= n <= pairs.len()
                                    &&& #[trigger] traced(n, subs, mas, mbs)
                                    &&& forall|i: int| #![trigger mas[i]] 0 <= i < n ==> density_at(mas[i], mbs[i], pairs[i].0, pairs[i].1, tab, d1, subs[i])
                                        && grown(m1, mas[i]) && mbs[i].wf() && m.extends(&mbs[i])
                                    &&& forall|i: int| 0 <= i < n - 1 ==> #[trigger] subs[i] is Ok
                                    &&& if subs[n - 1] is Err {
                                        r == subs[n - 1]
                                    } else {
                                        &&& n == pairs.len()
                                        &&& r matches Ok(t) && sum_node(m, t, oks(subs))
                                    }
                                },
                        }
                    }
                } else if op == "broadcast"@ {
                    crate::kernel_broadcast::kernel_broadcast(m0, m, node, v, broadcast_params(m0, node, tab), r)
                } else if refused_op(op) {
                    &&& refusal(r, node, op, refuse_op_reason(op))
                    &&& m == m0
                } else if held_out(op) {
                    &&& refusal(r, node, construct_name(m0, node), held_out_reason())
                    &&& m == m0
                } else {
                    primitive_at(m0, m, node, v, tab, r)
                }
            },
            None => if m0.at(node) matches Node::Call(c) && c.head is User {
                &&& refusal(r, node, construct_name(m0, node), held_out_reason())
                &&& m == m0
            } else {
                primitive_at(m0, m, node, v, tab, r)
            },
        }
    }
}

// ---------------------------------------------------------------------------
// Stability
// ---------------------------------------------------------------------------

/// One reference hop resolves alike in a later state with the same bindings.
proof fn lemma_resolve_one_same(m0: Module, m1: Module, id: NodeId)
    requires
        m0.wf(),
        m1.extends(&m0),
        m1.bindings@ == m0.bindings@,
        id.0 < m0.nodes@.len(),
    ensures
        resolve_one_spec(m1, id) == resolve_one_spec(m0, id),
        resolve_one_spec(m0, id).0.0 < m0.nodes@.len(),
{
    assert(m1.nodes@[id.0 as int] == m0.nodes@[id.0 as int]);
    assert(self_ref_name(m1, id) == self_ref_name(m0, id));
    if let Some(name) = self_ref_name(m0, id) {
        if m0.has_binding_named(name) {
            let b = choose|b: BindingId| m0.live(b) && #[trigger] m0.bind(b).name == name;
            assert(m1.live(b) && m1.bind(b).name == name);
            assert(m0.binding_wf(m0.bind(b)));
        }
        if m1.has_binding_named(name) {
            let b = choose|b: BindingId| m1.live(b) && #[trigger] m1.bind(b).name == name;
            assert(m0.live(b) && m0.bind(b).name == name);
        }
        assert((|b: BindingId| m0.live(b) && m0.bind(b).name == name) =~= (|b: BindingId| m1.live(b) && m1.bind(b).name == name));
    }
}

// ---------------------------------------------------------------------------
// The dispatcher
// ---------------------------------------------------------------------------

/// Whether the weight `w` is a function of the variate (see
/// [`variate_dependent`]).
fn weight_is_variate_dependent(m: &Module, w: NodeId) -> (b: bool)
    requires
        m.wf(),
        w.0 < m.nodes@.len(),
    ensures
        b == variate_dependent(*m, w),
{
    let direct = match m.type_of(w) {
        Some(Type::Function) => true,
        Some(Type::Kernel) => true,
        _ => false,
    };
    let (res, _) = resolve_ref_one(m, w);
    let reified = match builtin_name(m, res) {
        Some(name) => str_eq(name, "functionof") || str_eq(name, "kernelof"),
        None => false,
    };
    let typed = match m.type_of(res) {
        Some(Type::Function) => true,
        Some(Type::Kernel) => true,
        _ => false,
    };
    direct || reified || typed
}

/// Score the measure `expr` at `v`, following at most `depth` levels of
/// nesting (see [`density_at`]).
pub fn density_at_depth(
    m: &mut Module,
    expr: NodeId,
    v: NodeId,
    tab: &Vec<(String, Vec<String>)>,
    depth: usize,
) -> (r: Result<NodeId, RefuseError>)
    requires
        old(m).wf(),
        expr.0 < old(m).nodes@.len(),
        v.0 < old(m).nodes@.len(),
        record_types_interned(*old(m)),
    ensures
        final(m).wf(),
        final(m).extends(old(m)),
        final(m).bindings@ == old(m).bindings@,
        untyped_growth(*old(m), *final(m)),
        density_at(*old(m), *final(m), expr, v, table_view(tab@), depth as nat, r),
        r matches Ok(t) ==> t.0 < final(m).nodes@.len(),
    decreases depth, 2nat,
{
    let ghost m0 = *m;
    let ghost tv = table_view(tab@);
    let (node, _) = resolve_ref_one(m, expr);
    proof {
        crate::ir::lemma_node_wf_grow(m.nodes@[node.0 as int], node.0 as int, m.symbols@.len(), m.symbols@.len());
        assert(crate::ir::node_wf(m.nodes@[node.0 as int], node.0 as int, m.symbols@.len()));
    }
    if depth == 0 {
        return Err(refuse(node, m, "measure expression nests deeper than the module has nodes (a reference cycle) — refuse rather than loop"));
    }
    let op = builtin_name(m, node);
    match op {
        Some(name) => {
            if str_eq(name, "weighted") || str_eq(name, "logweighted") {
                let take_log = str_eq(name, "weighted");
                return lower_weighted(m, expr, node, v, tab, depth, take_log);
            }
            if str_eq(name, "superpose") {
                return lower_superpose(m, expr, node, v, tab, depth);
            }
            if str_eq(name, "normalize") {
                return lower_normalize_arm(m, expr, node, v, tab, depth);
            }
            if str_eq(name, "pushfwd") {
                return lower_pushfwd_arm(m, expr, node, v, tab, depth);
            }
            if str_eq(name, "joint") {
                return lower_joint_arm(m, expr, node, v, tab, depth);
            }
            if str_eq(name, "broadcast") {
                let params = broadcast_params_for(m, node, tab);
                let out = crate::kernel_broadcast::lower_broadcast_kernel(m, node, v, &params);
                return out;
            }
            if str_eq(name, "markovchain") || str_eq(name, "kscan") || str_eq(name, "bayesupdate") || str_eq(
                name,
                "disintegrate",
            ) || str_eq(name, "restrict") || str_eq(name, "likelihoodof") || str_eq(name, "joint_likelihood") {
                return Err(refuse_op(node, m));
            }
            if str_eq(name, "record") || str_eq(name, "lawof") || str_eq(name, "truncate")
                || str_eq(name, "kchain") || str_eq(name, "jointchain") || str_eq(name, "iid") || str_eq(name, "functionof") || str_eq(
                name,
                "kernelof",
            ) || str_eq(name, "locscale") {
                return Err(refuse(node, m, "no density rule for this measure construct in this dispatcher — refuse rather than mislower"));
            }
        },
        None => {
            let user = match m.node(node) {
                Node::Call(c) => match c.head {
                    CallHead::User(_) => true,
                    CallHead::Builtin(_) => false,
                },
                _ => false,
            };
            if user {
                return Err(refuse(node, m, "no density rule for this measure construct in this dispatcher — refuse rather than mislower"));
            }
        },
    }
    let params = params_for(m, node, tab);
    proof {
        assert(crate::density::record_type_interned(m0, node));
        match m0.at(node) {
            Node::Call(c) => {
                if c.args@.len() == 1 {
                    let h: Seq<NodeId> = match c.head {
                        CallHead::User(f) => seq![f],
                        CallHead::Builtin(_) => Seq::empty(),
                    };
                    assert(crate::ir::node_children(m0.at(node))[h.len() as int] == c.args@[0]);
                    assert(crate::density::record_type_interned(m0, c.args@[0]));
                }
            },
            _ => {},
        }
    }
    build_density_term(m, node, v, &params)
}

/// `weighted(w, M)` / `logweighted(ℓ, M)` at `v`, for `node` the measure
/// `expr` resolves to.
fn lower_weighted(
    m: &mut Module,
    expr: NodeId,
    node: NodeId,
    v: NodeId,
    tab: &Vec<(String, Vec<String>)>,
    depth: usize,
    take_log: bool,
) -> (r: Result<NodeId, RefuseError>)
    requires
        old(m).wf(),
        expr.0 < old(m).nodes@.len(),
        node == resolve_one_spec(*old(m), expr).0,
        v.0 < old(m).nodes@.len(),
        record_types_interned(*old(m)),
        depth >= 1,
        builtin_of(*old(m), node) matches Some(s) && (old(m).name_of(s) == "weighted"@ || old(m).name_of(s) == "logweighted"@)
            && take_log == (old(m).name_of(s) == "weighted"@),
    ensures
        final(m).wf(),
        final(m).extends(old(m)),
        final(m).bindings@ == old(m).bindings@,
        untyped_growth(*old(m), *final(m)),
        density_at(*old(m), *final(m), expr, v, table_view(tab@), depth as nat, r),
        r matches Ok(t) ==> t.0 < final(m).nodes@.len(),
    decreases depth, 1nat,
{
    let ghost m0 = *m;
    let ghost tv = table_view(tab@);
    proof {
        lemma_resolve_one_same(m0, m0, expr);
        crate::term::lemma_extends_refl(m0);
    }
    let c = match m.node(node) {
        Node::Call(c) => c,
        _ => {
            assert(false);
            return Err(refuse(node, m, "expected weighted"));
        },
    };
    if c.args.len() != 2 {
        let mut reason = String::from_str(if take_log { "weighted" } else { "logweighted" });
        reason.append(" expects 2 args");
        proof {
            reveal_strlit("weighted");
            reveal_strlit("logweighted");
        }
        return Err(refuse(node, m, reason.as_str()));
    }
    proof {
        crate::invert::lemma_args_older(m0, node);
    }
    let w = c.args[0];
    let inner = c.args[1];
    let ghost ma = *m;
    let sub = density_at_depth(m, inner, v, tab, depth - 1);
    let ghost mb = *m;
    proof {
        crate::term::lemma_extends_refl(mb);
        assert(grown(m0, ma));
    }
    let d = match sub {
        Ok(d) => d,
        Err(e) => {
            proof {
                assert(density_at(ma, mb, inner, v, tv, (depth - 1) as nat, sub));
                assert(stepped(sub, ma, mb));
            }
            return Err(e);
        },
    };
    let dependent = weight_is_variate_dependent(m, w);
    proof {
        assert(m.types@[w.0 as int] == m0.types@[w.0 as int]);
        lemma_resolve_one_same(m0, *m, w);
        let res = resolve_one_spec(m0, w).0;
        assert(m.types@[res.0 as int] == m0.types@[res.0 as int]);
        assert(crate::ir::node_wf(m0.nodes@[res.0 as int], res.0 as int, m0.symbols@.len()));
        assert(m.nodes@[res.0 as int] == m0.nodes@[res.0 as int]);
        assert(is_builtin_named(*m, res, "functionof"@) == is_builtin_named(m0, res, "functionof"@));
        assert(is_builtin_named(*m, res, "kernelof"@) == is_builtin_named(m0, res, "kernelof"@));
        assert(dependent == variate_dependent(m0, w));
    }
    let ws = if dependent {
        build_user_call(m, w, v)
    } else {
        w
    };
    let ghost mw = *m;
    assert(ws.0 < m.nodes@.len() && d.0 < m.nodes@.len());
    let head = if take_log {
        build_call(m, "log", &[ws])
    } else {
        ws
    };
    let ghost mh = *m;
    assert(head.0 < m.nodes@.len() && d.0 < m.nodes@.len());
    let t = build_call(m, "add", &[head, d]);
    proof {
        lemma_extends_trans(mb, mw, mh);
        lemma_extends_trans(mb, mh, *m);
        lemma_extends_trans(m0, mb, *m);
        if dependent {
            lemma_extends_trans(mw, mh, *m);
            assert(m.nodes@[ws.0 as int] == mw.nodes@[ws.0 as int]);
        }
        if take_log {
            assert(m.nodes@[head.0 as int] == mh.nodes@[head.0 as int]);
            assert(crate::density::plain_args(*m, head, "log"@) == Some(seq![ws]));
        }
        assert(crate::density::plain_args(*m, t, "add"@) == Some(seq![head, d]));
        assert(weighted_node(m0, *m, t, w, d, v, take_log));
        assert(density_at(ma, mb, inner, v, tv, (depth - 1) as nat, sub));
        assert(stepped(sub, ma, mb));
    }
    Ok(t)
}

/// `normalize(M)` at `v`, for `node` the measure `expr` resolves to: the
/// step [`lower_normalize`] reads, finished by the density of its inner
/// measure where it names one.
fn lower_normalize_arm(
    m: &mut Module,
    expr: NodeId,
    node: NodeId,
    v: NodeId,
    tab: &Vec<(String, Vec<String>)>,
    depth: usize,
) -> (r: Result<NodeId, RefuseError>)
    requires
        old(m).wf(),
        expr.0 < old(m).nodes@.len(),
        node == resolve_one_spec(*old(m), expr).0,
        v.0 < old(m).nodes@.len(),
        record_types_interned(*old(m)),
        depth >= 1,
        is_builtin_named(*old(m), node, "normalize"@),
        !is_builtin_named(*old(m), node, "weighted"@),
        !is_builtin_named(*old(m), node, "logweighted"@),
        !is_builtin_named(*old(m), node, "superpose"@),
    ensures
        final(m).wf(),
        final(m).extends(old(m)),
        final(m).bindings@ == old(m).bindings@,
        untyped_growth(*old(m), *final(m)),
        density_at(*old(m), *final(m), expr, v, table_view(tab@), depth as nat, r),
        r matches Ok(t) ==> t.0 < final(m).nodes@.len(),
    decreases depth, 1nat,
{
    let ghost m0 = *m;
    let ghost tv = table_view(tab@);
    proof {
        lemma_resolve_one_same(m0, m0, expr);
        crate::term::lemma_extends_refl(m0);
        assert(crate::ir::node_wf(m0.nodes@[node.0 as int], node.0 as int, m0.symbols@.len()));
    }
    let np = lookup_params(tab, "Normal");
    let st = lower_normalize(m, node, v, &np);
    let ghost m1 = *m;
    proof {
        crate::term::lemma_extends_refl(m1);
        lemma_record_types_grow(m0, m1);
        assert(normalized(st, m1));
    }
    match st {
        Err(e) => Err(e),
        Ok(NormalizeStep::Lowered(t)) => Ok(t),
        Ok(NormalizeStep::Inner(i)) => {
            let ghost ma = *m;
            let sub = density_at_depth(m, i, v, tab, depth - 1);
            let ghost mb = *m;
            proof {
                crate::term::lemma_extends_refl(mb);
                lemma_extends_trans(m0, m1, mb);
                crate::density::lemma_untyped_trans(m0, m1, mb);
                assert(stepped(sub, ma, mb));
            }
            sub
        },
        Ok(NormalizeStep::Truncated { inner, base, lo, hi }) => {
            let ghost ma = *m;
            let sub = density_at_depth(m, inner, v, tab, depth - 1);
            let ghost mb = *m;
            proof {
                crate::term::lemma_extends_refl(mb);
                lemma_extends_trans(m0, m1, mb);
                crate::density::lemma_untyped_trans(m0, m1, mb);
                lemma_record_types_grow(m1, mb);
                assert(stepped(sub, ma, mb));
            }
            let d = match sub {
                Ok(d) => d,
                Err(e) => {
                    return Err(e);
                },
            };
            let (bres, _) = resolve_ref_one(m, base);
            let bp = params_for(m, bres, tab);
            let out = finish_truncated_normalize(m, d, base, lo, hi, &bp);
            proof {
                lemma_extends_trans(m0, mb, *m);
                crate::density::lemma_untyped_trans(m0, mb, *m);
            }
            out
        },
        Ok(NormalizeStep::Convex { inner, weights }) => {
            let ghost ma = *m;
            let sub = density_at_depth(m, inner, v, tab, depth - 1);
            let ghost mb = *m;
            proof {
                crate::term::lemma_extends_refl(mb);
                lemma_extends_trans(m0, m1, mb);
                crate::density::lemma_untyped_trans(m0, m1, mb);
                assert(stepped(sub, ma, mb));
            }
            let d = match sub {
                Ok(d) => d,
                Err(e) => {
                    return Err(e);
                },
            };
            if weights.len() == 0 {
                assert(false);
                return Err(refuse(node, m, "expected normalize"));
            }
            let t = finish_convex_normalize(m, d, &weights);
            proof {
                lemma_extends_trans(m0, mb, *m);
                crate::density::lemma_untyped_trans(m0, mb, *m);
                assert(convex_finished(mb, *m, d, weights@, t));
            }
            Ok(t)
        },
    }
}

/// `pushfwd(f, M)` at `v`, for `node` the measure `expr` resolves to: a
/// structural projection scores the selected components; a change of
/// variables is refused here.
#[verifier::rlimit(40)]
fn lower_pushfwd_arm(
    m: &mut Module,
    expr: NodeId,
    node: NodeId,
    v: NodeId,
    tab: &Vec<(String, Vec<String>)>,
    depth: usize,
) -> (r: Result<NodeId, RefuseError>)
    requires
        old(m).wf(),
        expr.0 < old(m).nodes@.len(),
        node == resolve_one_spec(*old(m), expr).0,
        v.0 < old(m).nodes@.len(),
        record_types_interned(*old(m)),
        depth >= 1,
        is_builtin_named(*old(m), node, "pushfwd"@),
        !is_builtin_named(*old(m), node, "weighted"@),
        !is_builtin_named(*old(m), node, "logweighted"@),
        !is_builtin_named(*old(m), node, "superpose"@),
        !is_builtin_named(*old(m), node, "normalize"@),
    ensures
        final(m).wf(),
        final(m).extends(old(m)),
        final(m).bindings@ == old(m).bindings@,
        untyped_growth(*old(m), *final(m)),
        density_at(*old(m), *final(m), expr, v, table_view(tab@), depth as nat, r),
        r matches Ok(t) ==> t.0 < final(m).nodes@.len(),
    decreases depth, 1nat,
{
    let ghost m0 = *m;
    let ghost tv = table_view(tab@);
    proof {
        lemma_resolve_one_same(m0, m0, expr);
        crate::term::lemma_extends_refl(m0);
    }
    let plan = match pushfwd_plan(m, node) {
        Ok(p) => p,
        Err(e) => {
            return Err(e);
        },
    };
    let (proj, inner) = match plan {
        PushfwdPlan::Projection { proj, inner } => (proj, inner),
        _ => {
            return Err(refuse(node, m, "no density rule for this measure construct in this dispatcher — refuse rather than mislower"));
        },
    };
    let ps = lower_projection_pushfwd(m, inner, &proj, v);
    let ghost m1 = *m;
    let ghost psg = ps;
    proof {
        crate::term::lemma_extends_refl(m1);
        lemma_record_types_grow(m0, m1);
        assert(projected(ps, m1));
        assert(crate::ir::node_wf(m0.nodes@[node.0 as int], node.0 as int, m0.symbols@.len()));
    }
    match ps {
        Err(e) => Err(e),
        Ok(ProjectionStep::Named(NamedProjection::Score(sub_measure))) => {
            let ghost ma = *m;
            let sub = density_at_depth(m, sub_measure, v, tab, depth - 1);
            let ghost mb = *m;
            proof {
                crate::term::lemma_extends_refl(mb);
                lemma_extends_trans(m0, m1, mb);
                crate::density::lemma_untyped_trans(m0, m1, mb);
                assert(stepped(sub, ma, mb));
            }
            sub
        },
        Ok(ProjectionStep::Index(IndexProjection::ScoreEach(pairs))) => {
            if pairs.len() == 0 {
                return Err(refuse(node, m, "structural projection selects no component — refuse rather than mislower"));
            }
            let out = score_pairs(m, &pairs, tab, depth);
            proof {
                lemma_extends_trans(m0, m1, *m);
                crate::density::lemma_untyped_trans(m0, m1, *m);
            }
            out
        },
        Ok(_) => Err(refuse(node, m, "no density rule for this measure construct in this dispatcher — refuse rather than mislower")),
    }
}

/// Score each measure at its point, in order, passing on the first refusal,
/// and sum the terms (see [`sum_node`]).
fn score_pairs(
    m: &mut Module,
    pairs: &Vec<(NodeId, NodeId)>,
    tab: &Vec<(String, Vec<String>)>,
    depth: usize,
) -> (r: Result<NodeId, RefuseError>)
    requires
        old(m).wf(),
        record_types_interned(*old(m)),
        depth >= 1,
        pairs@.len() >= 1,
        forall|j: int| 0 <= j < pairs@.len() ==> (#[trigger] pairs@[j]).0.0 < old(m).nodes@.len() && pairs@[j].1.0 < old(m).nodes@.len(),
    ensures
        final(m).wf(),
        final(m).extends(old(m)),
        final(m).bindings@ == old(m).bindings@,
        untyped_growth(*old(m), *final(m)),
        r matches Ok(t) ==> t.0 < final(m).nodes@.len(),
        exists|n: int, subs: Seq<Result<NodeId, RefuseError>>, mas: Seq<Module>, mbs: Seq<Module>|
            {
                &&& 1 <= n <= pairs@.len()
                &&& #[trigger] traced(n, subs, mas, mbs)
                &&& forall|i: int| #![trigger mas[i]] 0 <= i < n ==> density_at(mas[i], mbs[i], pairs@[i].0, pairs@[i].1, table_view(tab@), (depth - 1) as nat, subs[i])
                    && grown(*old(m), mas[i]) && mbs[i].wf() && final(m).extends(&mbs[i])
                &&& forall|i: int| 0 <= i < n - 1 ==> #[trigger] subs[i] is Ok
                &&& if subs[n - 1] is Err {
                    r == subs[n - 1]
                } else {
                    &&& n == pairs@.len()
                    &&& r matches Ok(t) && sum_node(*final(m), t, oks(subs))
                }
            },
    decreases depth, 0nat,
{
    let ghost m1 = *m;
    let ghost tv = table_view(tab@);
    proof {
        crate::term::lemma_extends_refl(m1);
    }
    let ghost d1 = (depth - 1) as nat;
    let ghost mut subs: Seq<Result<NodeId, RefuseError>> = Seq::empty();
    let ghost mut mas: Seq<Module> = Seq::empty();
    let ghost mut mbs: Seq<Module> = Seq::empty();
    let mut ds: Vec<NodeId> = Vec::new();
    let mut k: usize = 0;
    while k < pairs.len()
        invariant
            m1 == *old(m),
            m1.wf(),
            m.wf(),
            m.extends(&m1),
            m.bindings@ == m1.bindings@,
            untyped_growth(m1, *m),
            record_types_interned(*m),
            depth >= 1,
            d1 == (depth - 1) as nat,
            tv == table_view(tab@),
            pairs@.len() >= 1,
            forall|j: int| 0 <= j < pairs@.len() ==> (#[trigger] pairs@[j]).0.0 < m1.nodes@.len() && pairs@[j].1.0 < m1.nodes@.len(),
            k <= pairs@.len(),
            traced(k as int, subs, mas, mbs),
            ds@.len() == k,
            forall|i: int| #![trigger mas[i]] 0 <= i < k ==> density_at(mas[i], mbs[i], pairs@[i].0, pairs@[i].1, tv, d1, subs[i])
                && grown(m1, mas[i]) && mbs[i].wf() && m.extends(&mbs[i]),
            forall|i: int| 0 <= i < k ==> #[trigger] subs[i] == Ok::<NodeId, RefuseError>(ds@[i]),
            forall|j: int| 0 <= j < ds@.len() ==> (#[trigger] ds@[j]).0 < m.nodes@.len(),
        decreases pairs@.len() - k,
    {
        let ghost ma = *m;
        let (meas, point) = pairs[k];
        let sub = density_at_depth(m, meas, point, tab, depth - 1);
        let ghost mb = *m;
        proof {
            crate::term::lemma_extends_refl(mb);
            lemma_extends_trans(m1, ma, mb);
            crate::density::lemma_untyped_trans(m1, ma, mb);
            lemma_record_types_grow(ma, mb);
            assert forall|i: int| #![trigger mas[i]] 0 <= i < k implies density_at(mas[i], mbs[i], pairs@[i].0, pairs@[i].1, tv, d1, subs[i])
                && grown(m1, mas[i]) && mbs[i].wf() && mb.extends(&mbs[i]) by {
                assert(density_at(mas[i], mbs[i], pairs@[i].0, pairs@[i].1, tv, d1, subs[i]));
                lemma_extends_trans(mbs[i], ma, mb);
            }
            assert(grown(m1, ma));
            let ghost osubs = subs;
            let ghost omas = mas;
            let ghost ombs = mbs;
            subs = subs.push(sub);
            mas = mas.push(ma);
            mbs = mbs.push(mb);
            assert forall|i: int| #![trigger mas[i]] 0 <= i < k + 1 implies density_at(mas[i], mbs[i], pairs@[i].0, pairs@[i].1, tv, d1, subs[i])
                && grown(m1, mas[i]) && mbs[i].wf() && mb.extends(&mbs[i]) by {
                if i < k {
                    assert(mas[i] == omas[i] && mbs[i] == ombs[i] && subs[i] == osubs[i]);
                    assert(density_at(omas[i], ombs[i], pairs@[i].0, pairs@[i].1, tv, d1, osubs[i]));
                }
            }
        }
        match sub {
            Ok(d) => {
                ds.push(d);
            },
            Err(e) => {
                proof {
                    assert(traced((k + 1) as int, subs, mas, mbs));
                    assert(forall|i: int| 0 <= i < (k + 1) as int - 1 ==> #[trigger] subs[i] is Ok);
                }
                return Err(e);
            },
        }
        k += 1;
    }
    let ghost mc = *m;
    let t = crate::shape::fold_add(m, ds.as_slice());
    proof {
        lemma_extends_trans(m1, mc, *m);
        crate::density::lemma_untyped_trans(m1, mc, *m);
        assert forall|i: int| #![trigger mas[i]] 0 <= i < k implies density_at(mas[i], mbs[i], pairs@[i].0, pairs@[i].1, tv, d1, subs[i])
            && grown(m1, mas[i]) && mbs[i].wf() && m.extends(&mbs[i]) by {
            assert(density_at(mas[i], mbs[i], pairs@[i].0, pairs@[i].1, tv, d1, subs[i]));
            lemma_extends_trans(mbs[i], mc, *m);
        }
        assert(oks(subs) =~= ds@);
        assert forall|i: int| 0 <= i < ds@.len() implies crate::term::term(mc, #[trigger] ds@[i]) == crate::term::term(*m, ds@[i]) by {
            crate::term::lemma_term_stable(mc, *m, ds@[i]);
        }
        assert(ds@.map_values(|d: NodeId| crate::term::term(mc, d)) =~= ds@.map_values(|d: NodeId| crate::term::term(*m, d)));
        assert(sum_node(*m, t, oks(subs)));
        assert(forall|i: int| 0 <= i < k - 1 ==> #[trigger] subs[i] is Ok);
    }
    Ok(t)
}

/// The value of the first `%field` entry named `name` (see [`field_value`]).
fn find_field(named: &Vec<NamedArg>, name: Symbol) -> (r: Option<NodeId>)
    ensures
        r == field_value(named@, name, 0),
{
    let mut k: usize = 0;
    while k < named.len()
        invariant
            k <= named@.len(),
            field_value(named@, name, 0) == field_value(named@, name, k as nat),
        decreases named@.len() - k,
    {
        if named[k].kind == NamedKind::Field && named[k].name == name {
            return Some(named[k].value);
        }
        k += 1;
    }
    None
}

/// The (measure, point) pairs of a keyword joint at `v` (see
/// [`keyword_points`]).
fn keyword_pairs(m: &Module, node: NodeId, comps: &Vec<NamedArg>, v: NodeId) -> (r: Result<Vec<(NodeId, NodeId)>, RefuseError>)
    requires
        m.wf(),
        node.0 < m.nodes@.len(),
        v.0 < m.nodes@.len(),
        forall|q: int| 0 <= q < comps@.len() ==> (#[trigger] comps@[q]).value.0 < m.nodes@.len() && comps@[q].name.0 < m.symbols@.len(),
    ensures
        match keyword_points(*m, node, comps@, v) {
            Err((at, reason)) => refusal(r, at, construct_name(*m, at), reason),
            Ok(p) => r matches Ok(q) && q@ == p && forall|j: int| 0 <= j < q@.len() ==> (#[trigger] q@[j]).0.0 < m.nodes@.len()
                && q@[j].1.0 < m.nodes@.len(),
        },
{
    let mut k: usize = 0;
    while k < comps.len()
        invariant
            m.wf(),
            node.0 < m.nodes@.len(),
            k <= comps@.len(),
            forall|q: int| 0 <= q < k ==> (#[trigger] comps@[q]).kind == NamedKind::Field,
        decreases comps@.len() - k,
    {
        if comps[k].kind != NamedKind::Field {
            proof {
                reveal_strlit("non-field named arg in keyword joint (expected `name = measure` components)");
                assert(comps@[k as int].kind != NamedKind::Field);
            }
            return Err(refuse(node, m, "non-field named arg in keyword joint (expected `name = measure` components)"));
        }
        k += 1;
    }
    let (vr, _) = resolve_ref_one(m, v);
    proof {
        assert(crate::ir::node_wf(m.nodes@[vr.0 as int], vr.0 as int, m.symbols@.len()));
    }
    let rec = match expect_builtin_call(m, vr, "record") {
        Some(c) => c,
        None => {
            return Err(refuse(vr, m, "joint value must be a record"));
        },
    };
    if rec.args.len() != 0 {
        return Err(refuse(vr, m, "joint value record carries positional args"));
    }
    let ghost vals = rec.named@;
    let mut pairs: Vec<(NodeId, NodeId)> = Vec::new();
    let mut j: usize = 0;
    while j < comps.len()
        invariant
            m.wf(),
            vr.0 < m.nodes@.len(),
            vr == resolve_one_spec(*m, v).0,
            is_builtin_named(*m, vr, "record"@),
            node.0 < m.nodes@.len(),
            forall|q: int| 0 <= q < comps@.len() ==> (#[trigger] comps@[q]).kind == NamedKind::Field,
            m.at(vr) == Node::Call(*rec),
            vals == rec.named@,
            rec.args@.len() == 0,
            forall|q: int| 0 <= q < comps@.len() ==> (#[trigger] comps@[q]).value.0 < m.nodes@.len() && comps@[q].name.0 < m.symbols@.len(),
            j <= comps@.len(),
            first_missing(comps@, vals, 0) == first_missing(comps@, vals, j as nat),
            pairs@.len() == j,
            forall|q: int| 0 <= q < j ==> (#[trigger] pairs@[q]) == (comps@[q].value, field_value(vals, comps@[q].name, 0).unwrap())
                && field_value(vals, comps@[q].name, 0) is Some,
            forall|q: int| 0 <= q < j ==> (#[trigger] pairs@[q]).1.0 < m.nodes@.len(),
        decreases comps@.len() - j,
    {
        let name = comps[j].name;
        match find_field(&rec.named, name) {
            Some(val) => {
                proof {
                    crate::invert::lemma_args_older(*m, vr);
                    lemma_field_value_in(*m, vr, vals, name, 0);
                }
                pairs.push((comps[j].value, val));
            },
            None => {
                let mut reason = String::from_str("missing field ");
                reason.append(m.resolve(name));
                reason.append(" in joint value record");
                proof {
                    reveal_strlit("missing field ");
                    reveal_strlit(" in joint value record");
                }
                return Err(refuse(vr, m, reason.as_str()));
            },
        }
        j += 1;
    }
    proof {
        assert(pairs@ =~= Seq::new(comps@.len(), |q: int| (comps@[q].value, field_value(vals, comps@[q].name, 0).unwrap())));
    }
    Ok(pairs)
}

/// A field value of a call's named entries is one of its children.
proof fn lemma_field_value_in(m: Module, id: NodeId, vals: Seq<NamedArg>, name: Symbol, k: nat)
    requires
        m.wf(),
        id.0 < m.nodes@.len(),
        m.at(id) matches Node::Call(c) && c.named@ == vals,
    ensures
        field_value(vals, name, k) matches Some(x) ==> x.0 < m.nodes@.len(),
    decreases vals.len() - k,
{
    if k < vals.len() {
        if vals[k as int].kind == NamedKind::Field && vals[k as int].name == name {
            assert(crate::ir::node_wf(m.nodes@[id.0 as int], id.0 as int, m.symbols@.len()));
            if let Node::Call(c) = m.at(id) {
                let h: Seq<NodeId> = match c.head {
                    CallHead::User(f) => seq![f],
                    CallHead::Builtin(_) => Seq::empty(),
                };
                assert(crate::ir::call_children(c)[(h.len() + c.args@.len() + k) as int] == vals[k as int].value);
                assert(crate::ir::node_children(m.nodes@[id.0 as int])[(h.len() + c.args@.len() + k) as int] == vals[k as int].value);
            }
        } else {
            lemma_field_value_in(m, id, vals, name, k + 1);
        }
    }
}

/// `joint(…)` at `v`, for `node` the measure `expr` resolves to: the sum of
/// the component densities, each at its own slot of `v` (`get0(v, i)` for
/// the positional form, the field of its name for the keyword form).
fn lower_joint_arm(
    m: &mut Module,
    expr: NodeId,
    node: NodeId,
    v: NodeId,
    tab: &Vec<(String, Vec<String>)>,
    depth: usize,
) -> (r: Result<NodeId, RefuseError>)
    requires
        old(m).wf(),
        expr.0 < old(m).nodes@.len(),
        node == resolve_one_spec(*old(m), expr).0,
        v.0 < old(m).nodes@.len(),
        record_types_interned(*old(m)),
        depth >= 1,
        is_builtin_named(*old(m), node, "joint"@),
        !is_builtin_named(*old(m), node, "weighted"@),
        !is_builtin_named(*old(m), node, "logweighted"@),
        !is_builtin_named(*old(m), node, "superpose"@),
        !is_builtin_named(*old(m), node, "normalize"@),
        !is_builtin_named(*old(m), node, "pushfwd"@),
    ensures
        final(m).wf(),
        final(m).extends(old(m)),
        final(m).bindings@ == old(m).bindings@,
        untyped_growth(*old(m), *final(m)),
        density_at(*old(m), *final(m), expr, v, table_view(tab@), depth as nat, r),
        r matches Ok(t) ==> t.0 < final(m).nodes@.len(),
    decreases depth, 1nat,
{
    let ghost m0 = *m;
    let ghost tv = table_view(tab@);
    proof {
        lemma_resolve_one_same(m0, m0, expr);
        crate::term::lemma_extends_refl(m0);
        assert(crate::ir::node_wf(m0.nodes@[node.0 as int], node.0 as int, m0.symbols@.len()));
    }
    let c = match m.node(node) {
        Node::Call(c) => c,
        _ => {
            assert(false);
            return Err(refuse(node, m, "expected joint"));
        },
    };
    if c.args.len() > 0 && c.named.len() > 0 {
        return Err(refuse(node, m, "joint mixes positional and keyword components; a joint is either the positional cat-variate form or the keyword record-variate form, not both"));
    }
    proof {
        crate::invert::lemma_args_older(m0, node);
        assert forall|q: int| 0 <= q < c.named@.len() implies (#[trigger] c.named@[q]).value.0 < m0.nodes@.len()
            && c.named@[q].name.0 < m0.symbols@.len() by {
            assert(crate::ir::node_children(m0.nodes@[node.0 as int])[c.args@.len() + q] == c.named@[q].value);
        }
    }
    if c.named.len() > 0 {
        let comps = crate::ir::copy_named(&c.named);
        let pairs = match keyword_pairs(m, node, &comps, v) {
            Ok(p) => p,
            Err(e) => {
                return Err(e);
            },
        };
        let out = score_pairs(m, &pairs, tab, depth);
        return out;
    }
    if c.args.len() < 2 {
        proof {
            reveal_strlit("joint needs at least 2 components");
        }
        return Err(refuse(node, m, "joint needs at least 2 components"));
    }
    let comps = crate::ir::copy_ids(&c.args);
    let mut k: usize = 0;
    while k < comps.len()
        invariant
            m0.wf(),
            *m == m0,
            m0 == *old(m),
            node == resolve_one_spec(m0, expr).0,
            is_builtin_named(m0, node, "joint"@),
            !is_builtin_named(m0, node, "weighted"@),
            !is_builtin_named(m0, node, "logweighted"@),
            !is_builtin_named(m0, node, "superpose"@),
            !is_builtin_named(m0, node, "normalize"@),
            !is_builtin_named(m0, node, "pushfwd"@),
            depth >= 1,
            m0.at(node)->Call_0.named@.len() == 0,
            comps@.len() >= 2,
            comps@ == m0.at(node)->Call_0.args@,
            forall|q: int| 0 <= q < comps@.len() ==> (#[trigger] comps@[q]).0 < m0.nodes@.len(),
            k <= comps@.len(),
            crate::projection::first_nonscalar(m0, comps@, 0) == crate::projection::first_nonscalar(m0, comps@, k as nat),
        decreases comps@.len() - k,
    {
        let (res, _) = resolve_ref_one(m, comps[k]);
        let kind = match m.type_of(res) {
            Some(Type::Measure { domain, .. }) => crate::density::variate_kind(domain),
            _ => None,
        };
        let scalar = match kind {
            Some(crate::density::VariateKind::Scalar) => true,
            _ => false,
        };
        if !scalar {
            return Err(refuse(comps[k], m, "joint component variate kind is not confirmed scalar (unknown/deferred or non-scalar); refuse rather than mislower a cat-slice"));
        }
        k += 1;
    }
    let mut pairs: Vec<(NodeId, NodeId)> = Vec::new();
    let mut j: usize = 0;
    while j < comps.len()
        invariant
            m0.wf(),
            m.wf(),
            m.extends(&m0),
            m.bindings@ == m0.bindings@,
            untyped_growth(m0, *m),
            v.0 < m0.nodes@.len(),
            forall|q: int| 0 <= q < comps@.len() ==> (#[trigger] comps@[q]).0 < m0.nodes@.len(),
            j <= comps@.len(),
            pairs@.len() == j,
            forall|q: int| 0 <= q < j ==> (#[trigger] pairs@[q]).0 == comps@[q] && pairs@[q].1.0 < m.nodes@.len()
                && crate::projection::slot_point(*m, pairs@[q].1, v, q),
        decreases comps@.len() - j,
    {
        let ghost before = *m;
        let p = crate::projection::slot_of(m, v, j);
        proof {
            assert forall|q: int| 0 <= q < j implies crate::projection::slot_point(*m, (#[trigger] pairs@[q]).1, v, q) by {
                crate::projection::lemma_slot_point_stable(before, *m, pairs@[q].1, v, q);
            }
            lemma_extends_trans(m0, before, *m);
            crate::density::lemma_untyped_trans(m0, before, *m);
        }
        pairs.push((comps[j], p));
        j += 1;
    }
    let ghost m1 = *m;
    proof {
        crate::term::lemma_extends_refl(m1);
        lemma_record_types_grow(m0, m1);
        assert(slotted(m1, pairs@));
    }
    let out = score_pairs(m, &pairs, tab, depth);
    proof {
        lemma_extends_trans(m0, m1, *m);
        crate::density::lemma_untyped_trans(m0, m1, *m);
    }
    out
}

/// `superpose(M₁, …, Mₖ)` at `v`, for `node` the measure `expr` resolves to.
#[verifier::spinoff_prover]
#[verifier::rlimit(60)]
fn lower_superpose(
    m: &mut Module,
    expr: NodeId,
    node: NodeId,
    v: NodeId,
    tab: &Vec<(String, Vec<String>)>,
    depth: usize,
) -> (r: Result<NodeId, RefuseError>)
    requires
        old(m).wf(),
        expr.0 < old(m).nodes@.len(),
        node == resolve_one_spec(*old(m), expr).0,
        v.0 < old(m).nodes@.len(),
        record_types_interned(*old(m)),
        depth >= 1,
        is_builtin_named(*old(m), node, "superpose"@),
        !is_builtin_named(*old(m), node, "weighted"@),
        !is_builtin_named(*old(m), node, "logweighted"@),
    ensures
        final(m).wf(),
        final(m).extends(old(m)),
        final(m).bindings@ == old(m).bindings@,
        untyped_growth(*old(m), *final(m)),
        density_at(*old(m), *final(m), expr, v, table_view(tab@), depth as nat, r),
        r matches Ok(t) ==> t.0 < final(m).nodes@.len(),
    decreases depth, 1nat,
{
    let ghost m0 = *m;
    let ghost tv = table_view(tab@);
    proof {
        lemma_resolve_one_same(m0, m0, expr);
        crate::term::lemma_extends_refl(m0);
    }
    let comps = match m.node(node) {
        Node::Call(c) => crate::ir::copy_ids(&c.args),
        _ => {
            assert(false);
            return Err(refuse(node, m, "expected superpose"));
        },
    };
    if comps.len() < 2 {
        proof {
            reveal_strlit("superpose needs at least 2 components");
        }
        return Err(refuse(node, m, "superpose needs at least 2 components"));
    }
    proof {
        crate::invert::lemma_args_older(m0, node);
    }
    let ghost d1 = (depth - 1) as nat;
    let ghost mut subs: Seq<Result<NodeId, RefuseError>> = Seq::empty();
    let ghost mut mas: Seq<Module> = Seq::empty();
    let ghost mut mbs: Seq<Module> = Seq::empty();
    let mut ds: Vec<NodeId> = Vec::new();
    let mut k: usize = 0;
    while k < comps.len()
        invariant
            m0.wf(),
            m0 == *old(m),
            node == resolve_one_spec(m0, expr).0,
            is_builtin_named(m0, node, "superpose"@),
            !is_builtin_named(m0, node, "weighted"@),
            !is_builtin_named(m0, node, "logweighted"@),
            comps@.len() >= 2,
            m.wf(),
            m.extends(&m0),
            m.bindings@ == m0.bindings@,
            untyped_growth(m0, *m),
            record_types_interned(*m),
            depth >= 1,
            d1 == (depth - 1) as nat,
            v.0 < m0.nodes@.len(),
            tv == table_view(tab@),
            m0.at(node) matches Node::Call(c) && c.args@ == comps@,
            forall|j: int| 0 <= j < comps@.len() ==> (#[trigger] comps@[j]).0 < m0.nodes@.len(),
            k <= comps@.len(),
            subs.len() == k && mas.len() == k && mbs.len() == k && ds@.len() == k,
            forall|i: int| #![trigger mas[i]] 0 <= i < k ==> density_at(mas[i], mbs[i], comps@[i], v, tv, d1, subs[i])
                && grown(m0, mas[i]) && mbs[i].wf() && m.extends(&mbs[i]),
            forall|i: int| 0 <= i < k ==> #[trigger] subs[i] == Ok::<NodeId, RefuseError>(ds@[i]),
            forall|j: int| 0 <= j < ds@.len() ==> (#[trigger] ds@[j]).0 < m.nodes@.len(),
        decreases comps@.len() - k,
    {
        let ghost ma = *m;
        let sub = density_at_depth(m, comps[k], v, tab, depth - 1);
        let ghost mb = *m;
        proof {
            crate::term::lemma_extends_refl(mb);
            lemma_extends_trans(m0, ma, mb);
            lemma_record_types_grow(ma, mb);
            assert forall|i: int| #![trigger mas[i]] 0 <= i < k implies density_at(mas[i], mbs[i], comps@[i], v, tv, d1, subs[i])
                && grown(m0, mas[i]) && mbs[i].wf() && mb.extends(&mbs[i]) by {
                assert(density_at(mas[i], mbs[i], comps@[i], v, tv, d1, subs[i]));
                lemma_extends_trans(mbs[i], ma, mb);
            }
            let ghost osubs = subs;
            let ghost omas = mas;
            let ghost ombs = mbs;
            subs = subs.push(sub);
            mas = mas.push(ma);
            mbs = mbs.push(mb);
            assert forall|i: int| #![trigger mas[i]] 0 <= i < k + 1 implies density_at(mas[i], mbs[i], comps@[i], v, tv, d1, subs[i])
                && grown(m0, mas[i]) && mbs[i].wf() && mb.extends(&mbs[i]) by {
                if i < k {
                    assert(mas[i] == omas[i] && mbs[i] == ombs[i] && subs[i] == osubs[i]);
                    assert(density_at(omas[i], ombs[i], comps@[i], v, tv, d1, osubs[i]));
                }
            }
        }
        match sub {
            Ok(d) => {
                ds.push(d);
            },
            Err(e) => {
                proof {
                    let n = (k + 1) as int;
                    assert(forall|i: int| #![trigger mas[i]] 0 <= i < n ==> density_at(mas[i], mbs[i], comps@[i], v, tv, d1, subs[i])
                        && grown(m0, mas[i]) && mbs[i].wf() && mb.extends(&mbs[i]));
                    assert(forall|i: int| 0 <= i < n - 1 ==> #[trigger] subs[i] is Ok);
                    assert(traced(n, subs, mas, mbs));
                    assert(1 <= n <= comps@.len());
                    assert(subs[n - 1] is Err);
                    assert(Err::<NodeId, RefuseError>(e) == subs[n - 1]);
                    assert(forall|i: int| #![trigger mas[i]] 0 <= i < n ==> density_at(mas[i], mbs[i], comps@[i], v, tv, d1, subs[i])
                        && grown(m0, mas[i]) && mbs[i].wf() && mb.extends(&mbs[i]));
                    let args = m0.at(node)->Call_0.args@;
                    assert(args == comps@);
                    let r: Result<NodeId, RefuseError> = Err(e);
                    assert(exists|n: int, subs: Seq<Result<NodeId, RefuseError>>, mas: Seq<Module>, mbs: Seq<Module>|
                            {
                                &&& 1 <= n <= args.len()
                                &&& #[trigger] traced(n, subs, mas, mbs)
                                &&& forall|i: int| #![trigger mas[i]] 0 <= i < n ==> density_at(mas[i], mbs[i], args[i], v, tv, d1, subs[i])
                                    && grown(m0, mas[i]) && mbs[i].wf() && mb.extends(&mbs[i])
                                &&& forall|i: int| 0 <= i < n - 1 ==> #[trigger] subs[i] is Ok
                                &&& if subs[n - 1] is Err {
                                    r == subs[n - 1]
                                } else {
                                    &&& n == args.len()
                                    &&& r matches Ok(t) && superpose_node(mb, t, oks(subs))
                                }
                            });
                    assert(density_at(m0, mb, expr, v, tv, depth as nat, r));
                }
                return Err(e);
            },
        }
        k += 1;
    }
    let ghost mc = *m;
    let vec_node = build_call(m, "vector", ds.as_slice());
    let ghost mv = *m;
    let t = build_call(m, "logsumexp", &[vec_node]);
    proof {
        lemma_extends_trans(mc, mv, *m);
        lemma_extends_trans(m0, mc, *m);
        assert forall|i: int| #![trigger mas[i]] 0 <= i < k implies density_at(mas[i], mbs[i], comps@[i], v, tv, d1, subs[i])
            && grown(m0, mas[i]) && mbs[i].wf() && m.extends(&mbs[i]) by {
            assert(density_at(mas[i], mbs[i], comps@[i], v, tv, d1, subs[i]));
            lemma_extends_trans(mbs[i], mc, *m);
        }
        assert(m.nodes@[vec_node.0 as int] == mv.nodes@[vec_node.0 as int]);
        assert(crate::density::plain_args(*m, vec_node, "vector"@) == Some(ds@));
        assert(crate::density::plain_args(*m, t, "logsumexp"@) == Some(seq![vec_node]));
        assert(oks(subs) =~= ds@);
        assert(superpose_node(*m, t, oks(subs)));
        assert(forall|i: int| 0 <= i < k - 1 ==> #[trigger] subs[i] is Ok);
        assert(traced(k as int, subs, mas, mbs));
    }
    Ok(t)
}

// ---------------------------------------------------------------------------
// Laws
// ---------------------------------------------------------------------------

/// Normalizing a probability measure leaves its density unchanged: for
/// `normalize(M)` with `M` (one reference hop) a probability measure, the
/// dispatcher's result is exactly its result for `M` one level down, from a
/// later state of the module with the same bindings.
pub proof fn law_normalize_probability_is_identity(
    m0: Module,
    m: Module,
    expr: NodeId,
    v: NodeId,
    tab: Seq<(Seq<char>, Seq<Seq<char>>)>,
    depth: nat,
    r: Result<NodeId, RefuseError>,
)
    requires
        m0.wf(),
        depth >= 1,
        density_at(m0, m, expr, v, tab, depth, r),
        crate::canon::flatten::builtin_call_named(m0, resolve_one_spec(m0, expr).0, "normalize"@) matches Some(c)
            && c.args@.len() == 1 && crate::density::normalized_measure(
            m0.types@[resolve_one_spec(m0, c.args@[0]).0.0 as int],
        ),
    ensures
        exists|sub: Result<NodeId, RefuseError>, ma: Module, mb: Module|
            #[trigger] stepped(sub, ma, mb) && density_at(
                ma,
                mb,
                m0.at(resolve_one_spec(m0, expr).0)->Call_0.args@[0],
                v,
                tab,
                (depth - 1) as nat,
                sub,
            ) && grown(m0, ma) && m.extends(&mb) && r == sub,
{
    reveal_strlit("normalize");
    reveal_strlit("weighted");
    reveal_strlit("logweighted");
    reveal_strlit("superpose");
    assert("normalize"@[0] != "weighted"@[0]);
    assert("normalize"@[0] != "logweighted"@[0]);
    assert("normalize"@[0] != "superpose"@[0]);
    let (st, m1) = choose|st: Result<NormalizeStep, RefuseError>, m1: Module|
        #[trigger] normalized(st, m1) && normalize_step(m0, m1, resolve_one_spec(m0, expr).0, v, params_from(tab, "Normal"@, 0), st)
            && grown(m0, m1) && untyped_growth(m0, m1) && match st {
            Err(e) => r == Err::<NodeId, RefuseError>(e) && m == m1,
            Ok(NormalizeStep::Lowered(t)) => r == Ok::<NodeId, RefuseError>(t) && m == m1,
            Ok(NormalizeStep::Inner(i)) => exists|sub: Result<NodeId, RefuseError>, ma: Module, mb: Module|
                #[trigger] stepped(sub, ma, mb) && density_at(ma, mb, i, v, tab, (depth - 1) as nat, sub) && grown(m1, ma)
                    && mb.wf() && m.extends(&mb) && r == sub,
            Ok(NormalizeStep::Truncated { inner, base, lo, hi }) => exists|sub: Result<NodeId, RefuseError>, ma: Module, mb: Module|
                #[trigger] stepped(sub, ma, mb) && density_at(ma, mb, inner, v, tab, (depth - 1) as nat, sub) && grown(m1, ma)
                    && mb.wf() && m.extends(&mb) && match sub {
                    Err(e) => r == Err::<NodeId, RefuseError>(e),
                    Ok(d) => truncated_normalized(mb, m, d, base, lo, hi, ctor_params(mb, resolve_one_spec(mb, base).0, tab), r),
                },
            Ok(NormalizeStep::Convex { inner, weights }) => exists|sub: Result<NodeId, RefuseError>, ma: Module, mb: Module|
                #[trigger] stepped(sub, ma, mb) && density_at(ma, mb, inner, v, tab, (depth - 1) as nat, sub) && grown(m1, ma)
                    && mb.wf() && m.extends(&mb) && match sub {
                    Err(e) => r == Err::<NodeId, RefuseError>(e),
                    Ok(d) => r matches Ok(t) && convex_finished(mb, m, d, weights@, t),
                },
        };
    let (sub, ma, mb) = choose|sub: Result<NodeId, RefuseError>, ma: Module, mb: Module|
        #[trigger] stepped(sub, ma, mb) && density_at(ma, mb, m0.at(resolve_one_spec(m0, expr).0)->Call_0.args@[0], v, tab, (depth - 1) as nat, sub)
            && grown(m1, ma) && mb.wf() && m.extends(&mb) && r == sub;
    lemma_extends_trans(m0, m1, ma);
}

/// The density of a structural projection by name is the density of the
/// sub-joint over the selected fields: for `pushfwd(fn(get(_, [names…])), M)`
/// the dispatcher reads the projection step, and where that step scores the
/// sub-product `s`, its result is exactly its result for `s` at the same
/// point one level down.
pub proof fn law_named_projection_scores_sub_joint(
    m0: Module,
    m: Module,
    expr: NodeId,
    v: NodeId,
    tab: Seq<(Seq<char>, Seq<Seq<char>>)>,
    depth: nat,
    r: Result<NodeId, RefuseError>,
)
    requires
        depth >= 1,
        density_at(m0, m, expr, v, tab, depth, r),
        is_builtin_named(m0, resolve_one_spec(m0, expr).0, "pushfwd"@),
        pushfwd_plan_spec(m0, resolve_one_spec(m0, expr).0) is Ok,
        pushfwd_plan_spec(m0, resolve_one_spec(m0, expr).0)->Ok_0 is Projection,
    ensures
        exists|ps: Result<ProjectionStep, RefuseError>, m1: Module|
            #[trigger] projected(ps, m1) && projection_step(
                m0,
                m1,
                pushfwd_plan_spec(m0, resolve_one_spec(m0, expr).0)->Ok_0->Projection_2,
                pushfwd_plan_spec(m0, resolve_one_spec(m0, expr).0)->Ok_0->Projection_0,
                pushfwd_plan_spec(m0, resolve_one_spec(m0, expr).0)->Ok_0->Projection_1,
                v,
                ps,
            ) && (ps matches Ok(ProjectionStep::Named(NamedProjection::Score(s))) ==> exists|
                sub: Result<NodeId, RefuseError>,
                ma: Module,
                mb: Module,
            | #[trigger] stepped(sub, ma, mb) && density_at(ma, mb, s, v, tab, (depth - 1) as nat, sub) && m.extends(&mb) && r == sub),
{
    reveal_strlit("pushfwd");
    reveal_strlit("weighted");
    reveal_strlit("logweighted");
    reveal_strlit("superpose");
    reveal_strlit("normalize");
    assert("pushfwd"@[0] != "weighted"@[0]);
    assert("pushfwd"@[0] != "logweighted"@[0]);
    assert("pushfwd"@[0] != "superpose"@[0]);
    assert("pushfwd"@[0] != "normalize"@[0]);
}

// ---------------------------------------------------------------------------
// Entry points
// ---------------------------------------------------------------------------

/// The log-density of the measure `measure` at `v` (see [`density_at`]). The
/// nesting is followed as deep as the module has nodes: a module without
/// reference cycles never reaches that bound, and a cycle is refused rather
/// than followed forever. `tab` names each known distribution constructor's
/// parameters in order.
pub fn lower_measure_density(
    m: &mut Module,
    measure: NodeId,
    v: NodeId,
    tab: &Vec<(String, Vec<String>)>,
) -> (r: Result<NodeId, RefuseError>)
    requires
        old(m).wf(),
        measure.0 < old(m).nodes@.len(),
        v.0 < old(m).nodes@.len(),
        record_types_interned(*old(m)),
    ensures
        final(m).wf(),
        final(m).extends(old(m)),
        final(m).bindings@ == old(m).bindings@,
        untyped_growth(*old(m), *final(m)),
        density_at(*old(m), *final(m), measure, v, table_view(tab@), old(m).nodes@.len(), r),
        r matches Ok(t) ==> t.0 < final(m).nodes@.len(),
{
    let depth = m.nodes.len();
    density_at_depth(m, measure, v, tab, depth)
}

/// The two positional arguments of the query `op(arg1, arg2)` at `query`, or
/// the reason it is refused.
pub open spec fn query_args(m: Module, query: NodeId, op: Seq<char>) -> Result<(NodeId, NodeId), Seq<char>> {
    if !is_builtin_named(m, query, op) {
        Err("expected "@ + op)
    } else if m.at(query)->Call_0.args@.len() != 2 {
        Err(op + " expects 2 args"@)
    } else {
        Ok((m.at(query)->Call_0.args@[0], m.at(query)->Call_0.args@[1]))
    }
}

/// A query's first argument is a likelihood or a posterior: typed as a
/// likelihood, or one reference hop from `likelihoodof`, `joint_likelihood`
/// or `bayesupdate`.
pub open spec fn likelihood_query(m: Module, arg: NodeId) -> bool {
    let res = resolve_one_spec(m, arg).0;
    ||| m.types@[arg.0 as int] == Some(Type::Likelihood)
    ||| is_builtin_named(m, res, "likelihoodof"@)
    ||| is_builtin_named(m, res, "joint_likelihood"@)
    ||| is_builtin_named(m, res, "bayesupdate"@)
}

pub open spec fn marginal_law_reason() -> Seq<char> {
    "lawof of a measure parameterized by a draw is that value's MARGINAL law (§04: lawof reifies the TOTAL law), which is a kchain marginal — refuse rather than score the conditional at a pinned latent"@
}

/// The measure a query scores: the argument of a `lawof` one reference hop
/// away, else the query argument itself; the node and reason of a refusal
/// for a malformed `lawof`, or one over a measure parameterized by a draw
/// (`marginal`).
pub open spec fn measure_of(m: Module, arg: NodeId, marginal: bool) -> Result<NodeId, (NodeId, Seq<char>)> {
    let res = resolve_one_spec(m, arg).0;
    if is_builtin_named(m, res, "lawof"@) {
        let a = m.at(res)->Call_0.args@;
        if a.len() != 1 {
            Err((res, "lawof expects 1 arg"@))
        } else if marginal {
            Err((resolve_one_spec(m, a[0]).0, marginal_law_reason()))
        } else {
            Ok(a[0])
        }
    } else {
        Ok(arg)
    }
}

/// What the density query `op(arg1, arg2)` at `query` gives: a malformed
/// query, a likelihood or posterior query, or a malformed or marginal
/// `lawof`, refused; else the dispatcher's log-density of the measure at
/// `arg2`.
pub open spec fn query_density(
    m0: Module,
    m: Module,
    query: NodeId,
    op: Seq<char>,
    tab: Seq<(Seq<char>, Seq<Seq<char>>)>,
    marginal: bool,
    r: Result<NodeId, RefuseError>,
) -> bool {
    match query_args(m0, query, op) {
        Err(reason) => refusal(r, query, construct_name(m0, query), reason) && m == m0,
        Ok((a1, a2)) => if likelihood_query(m0, a1) {
            let res = resolve_one_spec(m0, a1).0;
            refusal(r, res, construct_name(m0, res), held_out_reason()) && m == m0
        } else {
            match measure_of(m0, a1, marginal) {
                Err((at, reason)) => refusal(r, at, construct_name(m0, at), reason) && m == m0,
                Ok(meas) => density_at(m0, m, meas, a2, tab, m0.nodes@.len(), r),
            }
        },
    }
}

/// The measure and point of the density query `op(M, x)` at `query`, or its
/// refusal (see [`query_density`]).
fn query_measure(m: &Module, query: NodeId, op: &str, marginal: bool) -> (r: Result<(NodeId, NodeId), RefuseError>)
    requires
        m.wf(),
        query.0 < m.nodes@.len(),
    ensures
        match query_args(*m, query, op@) {
            Err(reason) => refusal(r, query, construct_name(*m, query), reason),
            Ok((a1, a2)) => if likelihood_query(*m, a1) {
                let res = resolve_one_spec(*m, a1).0;
                refusal(r, res, construct_name(*m, res), held_out_reason())
            } else {
                match measure_of(*m, a1, marginal) {
                    Err((at, reason)) => refusal(r, at, construct_name(*m, at), reason),
                    Ok(meas) => r matches Ok((x, y)) && x == meas && y == a2 && x.0 < m.nodes@.len() && y.0 < m.nodes@.len(),
                }
            },
        },
{
    let c = match expect_builtin_call(m, query, op) {
        Some(c) => c,
        None => {
            let mut reason = String::from_str("expected ");
            reason.append(op);
            proof {
                reveal_strlit("expected ");
            }
            return Err(refuse(query, m, reason.as_str()));
        },
    };
    if c.args.len() != 2 {
        let mut reason = String::from_str(op);
        reason.append(" expects 2 args");
        return Err(refuse(query, m, reason.as_str()));
    }
    proof {
        crate::invert::lemma_args_older(*m, query);
    }
    let a1 = c.args[0];
    let a2 = c.args[1];
    let (res, _) = resolve_ref_one(m, a1);
    proof {
        assert(crate::ir::node_wf(m.nodes@[res.0 as int], res.0 as int, m.symbols@.len()));
    }
    let typed_likelihood = match m.type_of(a1) {
        Some(Type::Likelihood) => true,
        _ => false,
    };
    let named_likelihood = match builtin_name(m, res) {
        Some(name) => str_eq(name, "likelihoodof") || str_eq(name, "joint_likelihood") || str_eq(name, "bayesupdate"),
        None => false,
    };
    if typed_likelihood || named_likelihood {
        return Err(refuse(res, m, "no density rule for this measure construct in this dispatcher — refuse rather than mislower"));
    }
    match expect_builtin_call(m, res, "lawof") {
        Some(law) => {
            if law.args.len() != 1 {
                return Err(refuse(res, m, "lawof expects 1 arg"));
            }
            proof {
                crate::invert::lemma_args_older(*m, res);
            }
            let inner = law.args[0];
            if marginal {
                let (ir, _) = resolve_ref_one(m, inner);
                return Err(refuse(ir, m, "lawof of a measure parameterized by a draw is that value's MARGINAL law (§04: lawof reifies the TOTAL law), which is a kchain marginal — refuse rather than score the conditional at a pinned latent"));
            }
            Ok((inner, a2))
        },
        None => Ok((a1, a2)),
    }
}

/// Lower `logdensityof(M, x)` at `query`: the log-density of `M` (a `lawof`
/// one reference hop away unwrapped) at `x` (see [`query_density`]).
/// `marginal` is the caller's finding that the measure under such a `lawof`
/// is parameterized by a draw, whose total law is a marginal this lowering
/// does not score.
pub fn lower_logdensityof(
    m: &mut Module,
    query: NodeId,
    tab: &Vec<(String, Vec<String>)>,
    marginal: bool,
) -> (r: Result<NodeId, RefuseError>)
    requires
        old(m).wf(),
        query.0 < old(m).nodes@.len(),
        record_types_interned(*old(m)),
    ensures
        final(m).wf(),
        final(m).extends(old(m)),
        final(m).bindings@ == old(m).bindings@,
        untyped_growth(*old(m), *final(m)),
        query_density(*old(m), *final(m), query, "logdensityof"@, table_view(tab@), marginal, r),
{
    proof {
        crate::term::lemma_extends_refl(*m);
    }
    let (meas, point) = match query_measure(m, query, "logdensityof", marginal) {
        Ok(p) => p,
        Err(e) => {
            return Err(e);
        },
    };
    lower_measure_density(m, meas, point, tab)
}

/// Lower `densityof(M, x)` at `query`: `exp` of the log-density, refused
/// exactly where `logdensityof` would be.
pub fn lower_densityof(
    m: &mut Module,
    query: NodeId,
    tab: &Vec<(String, Vec<String>)>,
    marginal: bool,
) -> (r: Result<NodeId, RefuseError>)
    requires
        old(m).wf(),
        query.0 < old(m).nodes@.len(),
        record_types_interned(*old(m)),
    ensures
        final(m).wf(),
        final(m).extends(old(m)),
        final(m).bindings@ == old(m).bindings@,
        match r {
            Ok(t) => exists|mid: Module, l: NodeId|
                #[trigger] query_density(*old(m), mid, query, "densityof"@, table_view(tab@), marginal, Ok(l))
                    && final(m).extends(&mid) && crate::density::plain_args(*final(m), t, "exp"@) == Some(seq![l])
                    && t.0 < final(m).nodes@.len(),
            Err(e) => query_density(*old(m), *final(m), query, "densityof"@, table_view(tab@), marginal, Err(e)),
        },
{
    proof {
        crate::term::lemma_extends_refl(*m);
    }
    let (meas, point) = match query_measure(m, query, "densityof", marginal) {
        Ok(p) => p,
        Err(e) => {
            return Err(e);
        },
    };
    let l = match lower_measure_density(m, meas, point, tab) {
        Ok(l) => l,
        Err(e) => {
            return Err(e);
        },
    };
    let ghost mid = *m;
    let t = build_call(m, "exp", &[l]);
    proof {
        assert(query_density(*old(m), mid, query, "densityof"@, table_view(tab@), marginal, Ok::<NodeId, RefuseError>(l)));
    }
    Ok(t)
}


/// Node `u` is the user call `w(v)`: the callable `w` applied at the variate.
pub open spec fn applied_at(m: Module, u: NodeId, w: NodeId, v: NodeId) -> bool {
    &&& u.0 < m.nodes@.len()
    &&& m.at(u) matches Node::Call(c) && c.head == CallHead::User(w) && c.args@ == seq![v]
}

/// A weight that is a `functionof` / `kernelof` reification (directly or one
/// reference away) is applied at the variate: the density of
/// `weighted(w, M)` at `v` is `add(log(w(v)), d)`, and that of
/// `logweighted(w, M)` is `add(w(v), d)`, never the callable `w` itself as a
/// constant weight.
pub proof fn law_reified_weight_applied_at_variate(
    m0: Module,
    m: Module,
    expr: NodeId,
    v: NodeId,
    tab: Seq<(Seq<char>, Seq<Seq<char>>)>,
    depth: nat,
    t: NodeId,
    w: NodeId,
)
    requires
        depth >= 1,
        density_at(m0, m, expr, v, tab, depth, Ok(t)),
        is_builtin_named(m0, resolve_one_spec(m0, expr).0, "weighted"@) || is_builtin_named(
            m0,
            resolve_one_spec(m0, expr).0,
            "logweighted"@,
        ),
        m0.at(resolve_one_spec(m0, expr).0) matches Node::Call(c) && c.args@.len() >= 1 && c.args@[0] == w,
        is_builtin_named(m0, resolve_one_spec(m0, w).0, "functionof"@) || is_builtin_named(
            m0,
            resolve_one_spec(m0, w).0,
            "kernelof"@,
        ),
    ensures
        crate::density::plain_args(m, t, "add"@) matches Some(a) && a.len() == 2 && (if is_builtin_named(
            m0,
            resolve_one_spec(m0, expr).0,
            "weighted"@,
        ) {
            crate::density::plain_args(m, a[0], "log"@) matches Some(l) && l.len() == 1 && applied_at(m, l[0], w, v)
        } else {
            applied_at(m, a[0], w, v)
        }),
{
    reveal_strlit("weighted");
    reveal_strlit("logweighted");
    let node = resolve_one_spec(m0, expr).0;
    let c = m0.at(node)->Call_0;
    let op = m0.name_of(builtin_of(m0, node).unwrap());
    assert(op == "weighted"@ || op == "logweighted"@);
    assert(c.args@.len() == 2);
    let (sub, ma, mb) = choose|sub: Result<NodeId, RefuseError>, ma: Module, mb: Module|
        #[trigger] stepped(sub, ma, mb) && density_at(ma, mb, c.args@[1], v, tab, (depth - 1) as nat, sub)
            && grown(m0, ma) && mb.wf() && m.extends(&mb) && match sub {
            Err(e) => Ok::<NodeId, RefuseError>(t) == Err::<NodeId, RefuseError>(e),
            Ok(d) => Ok::<NodeId, RefuseError>(t) matches Ok(t2) && weighted_node(m0, m, t2, c.args@[0], d, v, op == "weighted"@),
        };
    assert(variate_dependent(m0, w));
}

} // verus!
