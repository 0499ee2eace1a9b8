//! Density of the trajectory measures `markovchain(kernel, init, n)` and
//! `kscan(kernel, init, xs)`: a static unroll into one kernel application per
//! trajectory step, each scored at its own slot of the point.

use vstd::prelude::*;
use crate::ir::{Call, CallHead, Module, NamedArg, Node, NodeId, Scalar};
use crate::projection::{lemma_slot_point_stable, refused, slot_of, slot_point};
use crate::refuse::RefuseError;
use crate::shape::refuse;
use crate::text::{decimal, decimal_string};

verus! {

/// Which trajectory measure.
#[derive(Clone, Copy, PartialEq, Eq, Structural, Debug)]
pub enum ChainKind {
    /// `markovchain(kernel, init, n)`: the step kernel reads the previous state.
    MarkovChain,
    /// `kscan(kernel, init, xs)`: the step kernel reads the previous state and `xs[i]`.
    KScan,
}

/// The boundary of the reified step kernel.
#[derive(Clone, Copy, PartialEq, Eq, Structural, Debug)]
pub struct KernelBoundary {
    /// The boundary is `%autoinputs` (keyword-only).
    pub auto: bool,
    /// The number of boundary inputs.
    pub inputs: usize,
}

pub open spec fn op_text(k: ChainKind) -> Seq<char> {
    match k {
        ChainKind::MarkovChain => "markovchain"@,
        ChainKind::KScan => "kscan"@,
    }
}

pub open spec fn third_text(k: ChainKind) -> Seq<char> {
    match k {
        ChainKind::MarkovChain => "n"@,
        ChainKind::KScan => "xs"@,
    }
}

/// The number of inputs the step kernel takes.
pub open spec fn kernel_arity(k: ChainKind) -> nat {
    match k {
        ChainKind::MarkovChain => 1,
        ChainKind::KScan => 2,
    }
}

pub open spec fn arity_reason(k: ChainKind) -> Seq<char> {
    op_text(k) + " expects 3 positional args (kernel, init, "@ + third_text(k) + ")"@
}

pub open spec fn length_reason(k: ChainKind) -> Seq<char> {
    op_text(k) + " trajectory length is not a statically-resolved 1-D count (a dynamic length, or a record-state chain whose trajectory is a table): only a static length is unrolled, and FlatPDL has no loop or scan primitive to carry a runtime step count"@
}

pub open spec fn not_reified_reason(k: ChainKind) -> Seq<char> {
    op_text(k) + " kernel is not a functionof/kernelof with boundary inputs"@
}

pub open spec fn auto_reason(k: ChainKind) -> Seq<char> {
    op_text(k) + " kernel has an `%autoinputs` (keyword-only) boundary, but §06 gives the step kernel a POSITIONAL signature; spell the boundary explicitly or write the kernel as a lambda"@
}

pub open spec fn inputs_reason(k: ChainKind, inputs: nat) -> Seq<char> {
    op_text(k) + " kernel takes "@ + decimal(inputs) + " boundary input(s), but §06 gives it "@ + decimal(kernel_arity(k))
}

/// Why the chain at `node` is refused, given its static trajectory length `n`
/// and the boundary of its reified kernel (`None` where either is unknown).
pub open spec fn chain_refusal(m: Module, node: NodeId, k: ChainKind, n: Option<usize>, kernel: Option<KernelBoundary>) -> Option<Seq<char>> {
    match m.at(node) {
        Node::Call(c) => if c.named@.len() != 0 || c.args@.len() != 3 {
            Some(arity_reason(k))
        } else if n is None {
            Some(length_reason(k))
        } else if kernel is None {
            Some(not_reified_reason(k))
        } else if kernel.unwrap().auto {
            Some(auto_reason(k))
        } else if kernel.unwrap().inputs != kernel_arity(k) {
            Some(inputs_reason(k, kernel.unwrap().inputs as nat))
        } else {
            None
        },
        _ => Some("expected a chain call"@),
    }
}

/// The positional arguments of the chain call at `node`.
pub open spec fn chain_args(m: Module, node: NodeId) -> Seq<NodeId> {
    match m.at(node) {
        Node::Call(c) => c.args@,
        _ => Seq::empty(),
    }
}

/// Step `i` of the unroll: `pair.0` is the kernel application `K(prev)`
/// (`K(prev, get0(xs, i))` for `kscan`), with `prev` the initial value for the
/// first step and `get0(v, i - 1)` after it; `pair.1` is the slot `get0(v, i)`
/// it is scored at.
pub open spec fn chain_step(m: Module, pair: (NodeId, NodeId), kernel: NodeId, init: NodeId, third: NodeId, v: NodeId, i: int, k: ChainKind) -> bool {
    &&& pair.1.0 < m.nodes@.len()
    &&& slot_point(m, pair.1, v, i)
    &&& pair.0.0 < m.nodes@.len()
    &&& m.at(pair.0) matches Node::Call(c)
    &&& c.head == CallHead::User(kernel)
    &&& c.named@.len() == 0
    &&& c.inputs is None
    &&& c.args@.len() == kernel_arity(k)
    &&& (if i == 0 { c.args@[0] == init } else { slot_point(m, c.args@[0], v, i - 1) })
    &&& (k == ChainKind::KScan ==> slot_point(m, c.args@[1], third, i))
}

proof fn lemma_chain_step_stable(m1: Module, m2: Module, pair: (NodeId, NodeId), kernel: NodeId, init: NodeId, third: NodeId, v: NodeId, i: int, k: ChainKind)
    requires
        m1.wf(),
        m2.extends(&m1),
        chain_step(m1, pair, kernel, init, third, v, i, k),
    ensures
        chain_step(m2, pair, kernel, init, third, v, i, k),
{
    lemma_slot_point_stable(m1, m2, pair.1, v, i);
    assert(m2.nodes@[pair.0.0 as int] == m1.nodes@[pair.0.0 as int]);
    assert(crate::ir::node_wf(m1.nodes@[pair.0.0 as int], pair.0.0 as int, m1.symbols@.len()));
    if let Node::Call(c) = m1.at(pair.0) {
        let h: Seq<NodeId> = seq![kernel];
        assert(crate::ir::call_children(c)[1] == c.args@[0]);
        assert(crate::ir::node_children(m1.nodes@[pair.0.0 as int])[1] == c.args@[0]);
        if i != 0 {
            lemma_slot_point_stable(m1, m2, c.args@[0], v, i - 1);
        }
        if k == ChainKind::KScan {
            assert(crate::ir::node_children(m1.nodes@[pair.0.0 as int])[2] == c.args@[1]);
            lemma_slot_point_stable(m1, m2, c.args@[1], third, i);
        }
    }
}

fn kind_text(k: ChainKind) -> (s: &'static str)
    ensures
        s@ == op_text(k),
{
    match k {
        ChainKind::MarkovChain => "markovchain",
        ChainKind::KScan => "kscan",
    }
}

/// The refusal of the chain at `node` for the text `op` followed by `rest`.
fn refuse_with(m: &Module, node: NodeId, op: &str, rest: &str) -> (e: RefuseError)
    requires
        m.wf(),
        node.0 < m.nodes@.len(),
    ensures
        e.node == node,
        e.construct@ == crate::shape::construct_name(*m, node),
        e.reason@ == op@ + rest@,
{
    let mut msg = String::from_str(op);
    msg.append(rest);
    refuse(node, m, msg.as_str())
}

/// Unroll `logdensityof(markovchain(K, init, n), v)` or
/// `logdensityof(kscan(K, init, xs), v)` over the static trajectory length
/// `n`: one kernel application per step, paired with the slot of `v` it is
/// scored at, in step order. `init` is a value, not a draw, and carries no
/// term. The caller scores each application at its slot and sums the terms
/// with [`trajectory_density`]. `n` is the length read off the chain's
/// inferred domain, and `kernel` the boundary of its reified kernel.
pub fn lower_chain(
    m: &mut Module,
    node: NodeId,
    v: NodeId,
    k: ChainKind,
    n: Option<usize>,
    kernel: Option<KernelBoundary>,
) -> (r: Result<Vec<(NodeId, NodeId)>, RefuseError>)
    requires
        old(m).wf(),
        node.0 < old(m).nodes@.len(),
        v.0 < old(m).nodes@.len(),
    ensures
        final(m).wf(),
        final(m).extends(old(m)),
        final(m).bindings@ == old(m).bindings@,
        match chain_refusal(*old(m), node, k, n, kernel) {
            Some(reason) => refused(*old(m), r, node, reason),
            None => r matches Ok(steps) && steps@.len() == n.unwrap() && forall|i: int|
                0 <= i < steps@.len() ==> chain_step(
                    *final(m),
                    #[trigger] steps@[i],
                    chain_args(*old(m), node)[0],
                    chain_args(*old(m), node)[1],
                    chain_args(*old(m), node)[2],
                    v,
                    i,
                    k,
                ),
        },
{
    broadcast use vstd::string::group_string_axioms;

    let ghost m0 = *m;
    proof {
        reveal_strlit("expected a chain call");
        assert(crate::ir::node_wf(m.nodes@[node.0 as int], node.0 as int, m.symbols@.len()));
    }
    let op = kind_text(k);
    let (k_arg, init, third) = match m.node(node) {
        Node::Call(c) => {
            if c.named.len() != 0 || c.args.len() != 3 {
                let mut rest = String::from_str(" expects 3 positional args (kernel, init, ");
                match k {
                    ChainKind::MarkovChain => rest.append("n"),
                    ChainKind::KScan => rest.append("xs"),
                }
                rest.append(")");
                proof {
                    assert(op@ + rest@ =~= arity_reason(k));
                }
                return Err(refuse_with(m, node, op, rest.as_str()));
            }
            proof {
                crate::invert::lemma_args_older(*m, node);
                assert(c.args@[0].0 < node.0 && c.args@[1].0 < node.0 && c.args@[2].0 < node.0);
            }
            (c.args[0], c.args[1], c.args[2])
        },
        _ => return Err(refuse(node, m, "expected a chain call")),
    };
    let n = match n {
        Some(n) => n,
        None => return Err(refuse_with(m, node, op, " trajectory length is not a statically-resolved 1-D count (a dynamic length, or a record-state chain whose trajectory is a table): only a static length is unrolled, and FlatPDL has no loop or scan primitive to carry a runtime step count")),
    };
    let kernel = match kernel {
        Some(b) => b,
        None => return Err(refuse_with(m, node, op, " kernel is not a functionof/kernelof with boundary inputs")),
    };
    if kernel.auto {
        return Err(refuse_with(m, node, op, " kernel has an `%autoinputs` (keyword-only) boundary, but §06 gives the step kernel a POSITIONAL signature; spell the boundary explicitly or write the kernel as a lambda"));
    }
    let expected: usize = match k {
        ChainKind::MarkovChain => 1,
        ChainKind::KScan => 2,
    };
    if kernel.inputs != expected {
        let mut rest = String::from_str(" kernel takes ");
        let count = decimal_string(kernel.inputs as u128);
        rest.append(count.as_str());
        rest.append(" boundary input(s), but §06 gives it ");
        let want = decimal_string(expected as u128);
        rest.append(want.as_str());
        proof {
            assert(expected as nat == kernel_arity(k));
            assert(op@ + rest@ =~= inputs_reason(k, kernel.inputs as nat));
        }
        return Err(refuse_with(m, node, op, rest.as_str()));
    }
    let mut steps: Vec<(NodeId, NodeId)> = Vec::new();
    let mut i: usize = 0;
    while i < n
        invariant
            m0.wf(),
            m.wf(),
            m.extends(&m0),
            m.bindings@ == m0.bindings@,
            k_arg.0 < m0.nodes@.len(),
            init.0 < m0.nodes@.len(),
            third.0 < m0.nodes@.len(),
            v.0 < m0.nodes@.len(),
            i <= n,
            steps@.len() == i,
            forall|q: int| 0 <= q < i ==> chain_step(*m, #[trigger] steps@[q], k_arg, init, third, v, q, k),
        decreases n - i,
    {
        let ghost before = *m;
        let mut app_args: Vec<NodeId> = Vec::new();
        if i == 0 {
            app_args.push(init);
        } else {
            let prev = slot_of(m, v, i - 1);
            app_args.push(prev);
        }
        let ghost after_prev = *m;
        if matches!(k, ChainKind::KScan) {
            let x = slot_of(m, third, i);
            app_args.push(x);
        }
        let ghost after_x = *m;
        proof {
            crate::term::lemma_extends_trans(before, after_prev, after_x);
            if i > 0 {
                lemma_slot_point_stable(after_prev, after_x, app_args@[0], v, i - 1);
            }
        }
        let call = Call { head: CallHead::User(k_arg), args: app_args, named: Vec::<NamedArg>::new(), inputs: None };
        proof {
            assert forall|q: int| 0 <= q < crate::ir::node_children(Node::Call(call)).len() implies (#[trigger] crate::ir::node_children(Node::Call(call))[q]).0 < m.nodes@.len() by {
                assert(crate::ir::call_children(call) =~= seq![k_arg] + call.args@);
            }
        }
        let step = m.add_node(Node::Call(call));
        let ghost after_step = *m;
        let cur = slot_of(m, v, i);
        proof {
            crate::term::lemma_extends_trans(after_x, after_step, *m);
            crate::term::lemma_extends_trans(before, after_x, *m);
            crate::term::lemma_extends_trans(m0, before, *m);
            if i > 0 {
                lemma_slot_point_stable(after_x, *m, call.args@[0], v, i - 1);
            }
            if k == ChainKind::KScan {
                lemma_slot_point_stable(after_x, *m, call.args@[1], third, i as int);
            }
            assert(m.nodes@[step.0 as int] == after_step.nodes@[step.0 as int]);
            assert(chain_step(*m, (step, cur), k_arg, init, third, v, i as int, k));
            assert forall|q: int| 0 <= q < i implies chain_step(*m, #[trigger] steps@[q], k_arg, init, third, v, q, k) by {
                lemma_chain_step_stable(before, *m, steps@[q], k_arg, init, third, v, q, k);
            }
        }
        steps.push((step, cur));
        i += 1;
    }
    Ok(steps)
}

/// Sum the per-step log-density terms of a trajectory: the literal `0.0` for
/// an empty trajectory (the product over no steps is 1), one term standing
/// for itself, more folded left under `add`.
pub fn trajectory_density(m: &mut Module, terms: &Vec<NodeId>) -> (r: NodeId)
    requires
        old(m).wf(),
        forall|q: int| 0 <= q < terms@.len() ==> (#[trigger] terms@[q]).0 < old(m).nodes@.len(),
    ensures
        final(m).wf(),
        final(m).extends(old(m)),
        final(m).bindings@ == old(m).bindings@,
        r.0 < final(m).nodes@.len(),
        terms@.len() == 0 ==> final(m).at(r) == Node::Lit(Scalar::Real(0)),
        terms@.len() == 1 ==> r == terms@[0],
        terms@.len() > 1 ==> (exists|add: crate::ir::Symbol|
            final(m).name_of(add) == "add"@ && crate::term::term(*final(m), r) == crate::shape::add_chain(
                terms@.map_values(|t: NodeId| crate::term::term(*old(m), t)),
                add,
            )),
{
    if terms.len() == 0 {
        m.add_node(Node::Lit(Scalar::Real(0)))
    } else {
        crate::shape::fold_add(m, terms.as_slice())
    }
}

} // verus!
