//! Applications of a bare built-in: `(%call <atom> args…)` spelled as the
//! direct built-in call it denotes.

use vstd::prelude::*;
use crate::ir::{call_children, copy_ids, copy_inputs, copy_named, node_children, node_wf, same_inputs, Call, CallHead, Module, Node, NodeId};

verus! {

/// The `Builtin` head an application of a bare atom spells directly.
pub open spec fn callee_head_spec(m: Module, id: NodeId) -> Option<CallHead> {
    match m.at(id) {
        Node::Call(c) => match c.head {
            CallHead::User(callee) => match m.at(callee) {
                Node::Const(sym) => Some(CallHead::Builtin(sym)),
                _ => None,
            },
            CallHead::Builtin(_) => None,
        },
        _ => None,
    }
}

/// If `id` is `(%call <bare built-in> args…)`, the `Builtin` head the same
/// application spells directly.
pub fn builtin_callee_head(m: &Module, id: NodeId) -> (r: Option<CallHead>)
    requires
        m.wf(),
        id.0 < m.nodes@.len(),
    ensures
        r == callee_head_spec(*m, id),
        r matches Some(CallHead::Builtin(s)) ==> s.0 < m.symbols@.len(),
{
    proof {
        assert(node_wf(m.nodes@[id.0 as int], id.0 as int, m.symbols@.len()));
    }
    let c = match m.node(id) {
        Node::Call(c) => c,
        _ => return None,
    };
    let callee = match c.head {
        CallHead::User(callee) => callee,
        CallHead::Builtin(_) => return None,
    };
    proof {
        assert(node_children(m.at(id))[0] == callee);
        assert(node_wf(m.nodes@[callee.0 as int], callee.0 as int, m.symbols@.len()));
    }
    match m.node(callee) {
        Node::Const(sym) => Some(CallHead::Builtin(*sym)),
        _ => None,
    }
}

/// Re-allocate the call at `id` with `head`, keeping its positional and
/// named arguments and reification inputs (a user head's callee is dropped:
/// it has become the head); a non-call is returned as is.
pub fn rebuild_with_head(m: &mut Module, id: NodeId, head: CallHead) -> (r: NodeId)
    requires
        old(m).wf(),
        id.0 < old(m).nodes@.len(),
        match head {
            CallHead::Builtin(s) => s.0 < old(m).symbols@.len(),
            CallHead::User(f) => f.0 < old(m).nodes@.len(),
        },
    ensures
        final(m).wf(),
        final(m).extends(old(m)),
        final(m).bindings@ == old(m).bindings@,
        match old(m).at(id) {
            Node::Call(c) => r.0 == old(m).nodes@.len() && match final(m).at(r) {
                Node::Call(n) => n.head == head && n.args@ == c.args@ && n.named@ == c.named@ && same_inputs(
                    n.inputs,
                    c.inputs,
                ),
                _ => false,
            },
            _ => r == id && *final(m) == *old(m),
        },
{
    proof {
        assert(node_wf(m.nodes@[id.0 as int], id.0 as int, m.symbols@.len()));
    }
    let call = match m.node(id) {
        Node::Call(c) => {
            let args = copy_ids(&c.args);
            let named = copy_named(&c.named);
            let inputs = copy_inputs(&c.inputs);
            Call { head, args, named, inputs }
        },
        _ => return id,
    };
    proof {
        if let Node::Call(c) = m.at(id) {
            let ch = call_children(call);
            let och = call_children(c);
            let body = c.args@ + c.named@.map_values(|na: crate::ir::NamedArg| na.value);
            let nh: Seq<NodeId> = match head {
                CallHead::User(f) => seq![f],
                CallHead::Builtin(_) => Seq::empty(),
            };
            let oh: Seq<NodeId> = match c.head {
                CallHead::User(f) => seq![f],
                CallHead::Builtin(_) => Seq::empty(),
            };
            assert(call.named@.map_values(|na: crate::ir::NamedArg| na.value) =~= c.named@.map_values(|na: crate::ir::NamedArg| na.value));
            assert(ch =~= nh + body);
            assert(och =~= oh + body);
            assert forall|k: int| 0 <= k < ch.len() implies (#[trigger] ch[k]).0 < m.nodes@.len() by {
                if k < nh.len() {
                } else {
                    assert(ch[k] == body[k - nh.len()]);
                    assert(och[k - nh.len() + oh.len()] == body[k - nh.len()]);
                    assert(node_children(m.at(id)) == och);
                    assert(node_children(m.at(id))[k - nh.len() + oh.len()].0 < id.0);
                }
            }
            assert(forall|k: int| 0 <= k < call.named@.len() ==> (#[trigger] call.named@[k]).name.0 < m.symbols@.len());
            assert(node_wf(Node::Call(call), m.nodes@.len() as int, m.symbols@.len()));
        }
    }
    m.add_node(Node::Call(call))
}

} // verus!
