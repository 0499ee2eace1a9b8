use determinizer::canon::dce::retain_reachable;
use determinizer::canon::flatten::{flatten_structural, project};
use determinizer::canon::fold::{is_zeroed_sentinel, resolve_alias_refs, sweep_dead_bindings};
use determinizer::canon::inline::{builtin_callee_head, rebuild_with_head};
use determinizer::canon::{abi_tuple_elems, is_reserved_abi_binding, promoted_input_names};
use determinizer::ir::{
    Binding, BindingId, Call, CallHead, Inputs, Module, NamedArg, NamedKind, Node, NodeId, Ref,
    RefNs, Scalar, Symbol,
};

fn call(m: &mut Module, head: &str, args: Vec<NodeId>) -> NodeId {
    let h = m.intern(head);
    m.add_node(Node::Call(Call { head: CallHead::Builtin(h), args, named: Vec::new(), inputs: None }))
}

fn int_node(m: &mut Module, i: i64) -> NodeId {
    m.add_node(Node::Lit(Scalar::Int(i)))
}

fn self_ref(m: &mut Module, name: &str) -> NodeId {
    let s = m.intern(name);
    m.add_node(Node::Ref(Ref { ns: RefNs::SelfMod, name: s }))
}

fn bind_with(m: &mut Module, name: &str, rhs: NodeId, public: bool, synthetic: bool) -> BindingId {
    let s = m.intern(name);
    m.add_binding(Binding { name: s, rhs, doc: None, public, synthetic })
}

fn bind(m: &mut Module, name: &str, rhs: NodeId) -> BindingId {
    bind_with(m, name, rhs, true, false)
}

fn binding_named(m: &Module, name: &str) -> Option<BindingId> {
    m.binding_ids().into_iter().find(|b| m.resolve(m.binding(*b).name) == name)
}

#[test]
fn dce_keeps_exactly_the_roots_and_what_they_reach() {
    let mut m = Module::new();
    let one = int_node(&mut m, 1);
    bind(&mut m, "a", one);
    let ra = self_ref(&mut m, "a");
    bind(&mut m, "b", ra);
    let two = int_node(&mut m, 2);
    bind(&mut m, "c", two);
    let x = m.intern("x");
    let cs = m.intern("c");
    let fo = m.intern("functionof");
    let body = m.add_node(Node::Ref(Ref { ns: RefNs::Local, name: x }));
    let f = m.add_node(Node::Call(Call {
        head: CallHead::Builtin(fo),
        args: vec![body],
        named: Vec::new(),
        inputs: Some(Inputs::Spec(vec![(cs, Ref { ns: RefNs::SelfMod, name: cs })])),
    }));
    bind(&mut m, "d", f);
    let three = int_node(&mut m, 3);
    bind(&mut m, "e", three);
    let b = m.intern("b");
    let d = m.intern("d");
    let missing = m.intern("nowhere");
    retain_reachable(&mut m, &[b, d, missing]);
    for kept in ["a", "b", "c", "d"] {
        assert!(binding_named(&m, kept).is_some(), "{} must be kept", kept);
    }
    assert!(binding_named(&m, "e").is_none(), "e is unreachable");
}

#[test]
fn alias_refs_resolve_to_trivial_values_but_not_promoted_inputs() {
    let mut m = Module::new();
    let three = int_node(&mut m, 3);
    bind(&mut m, "x", three);
    let five = int_node(&mut m, 5);
    bind(&mut m, "w", five);
    let rw = self_ref(&mut m, "w");
    let inputs_tuple = call(&mut m, "tuple", vec![rw]);
    let inputs = bind(&mut m, "inputs", inputs_tuple);
    let rx = self_ref(&mut m, "x");
    let rw2 = self_ref(&mut m, "w");
    let sum = call(&mut m, "add", vec![rx, rw2]);
    let y = bind(&mut m, "y", sum);
    assert!(resolve_alias_refs(&mut m));
    let rhs = m.binding(y).rhs;
    match m.node(rhs) {
        Node::Call(c) => {
            assert_eq!(c.args[0], three, "x is a trivial literal binding");
            assert_eq!(c.args[1], rw2, "w is promoted to an argument and stays a reference");
        }
        other => panic!("unexpected {:?}", other),
    }
    assert_eq!(m.binding(inputs).rhs, inputs_tuple, "the reserved inputs binding is left whole");
    // A second pass has nothing left to resolve.
    assert!(!resolve_alias_refs(&mut m));
}

#[test]
fn sweep_zeroes_unreferenced_synthetic_bindings_only() {
    let mut m = Module::new();
    let a = int_node(&mut m, 1);
    let dead = bind_with(&mut m, "_tmp", a, false, true);
    let b = int_node(&mut m, 2);
    let public = bind_with(&mut m, "kept", b, true, false);
    let c = int_node(&mut m, 3);
    let used = bind_with(&mut m, "_used", c, false, true);
    let r = self_ref(&mut m, "_used");
    bind(&mut m, "reader", r);
    let d = int_node(&mut m, 4);
    let reserved = bind_with(&mut m, "inputs", d, false, true);
    assert!(sweep_dead_bindings(&mut m));
    let z = m.binding(dead).rhs;
    assert!(matches!(m.node(z), Node::Lit(Scalar::Real(0))));
    assert!(is_zeroed_sentinel(&m, z));
    assert_eq!(m.binding(public).rhs, b);
    assert_eq!(m.binding(used).rhs, c);
    assert_eq!(m.binding(reserved).rhs, d);
    assert!(!sweep_dead_bindings(&mut m), "already at its fixpoint");
}

#[test]
fn zero_sentinel_of_either_sign() {
    let mut m = Module::new();
    let pz = m.add_node(Node::Lit(Scalar::Real(0.0f64.to_bits())));
    let nz = m.add_node(Node::Lit(Scalar::Real((-0.0f64).to_bits())));
    let one = m.add_node(Node::Lit(Scalar::Real(1.0f64.to_bits())));
    let i = int_node(&mut m, 0);
    assert!(is_zeroed_sentinel(&m, pz));
    assert!(is_zeroed_sentinel(&m, nz));
    assert!(!is_zeroed_sentinel(&m, one));
    assert!(!is_zeroed_sentinel(&m, i));
}

#[test]
fn static_projections_resolve_to_the_element() {
    let mut m = Module::new();
    let v = self_ref(&mut m, "v");
    let k = m.intern("k");
    let rec_head = m.intern("record");
    let rec = m.add_node(Node::Call(Call {
        head: CallHead::Builtin(rec_head),
        args: Vec::new(),
        named: vec![NamedArg { kind: NamedKind::Field, name: k, value: v }],
        inputs: None,
    }));
    let key = m.add_node(Node::Lit(Scalar::Str("k".to_string())));
    let get = call(&mut m, "get", vec![rec, key]);
    assert_eq!(project(&m, get), Some(v));
    let e0 = int_node(&mut m, 10);
    let e1 = int_node(&mut m, 11);
    let vec_node = call(&mut m, "vector", vec![e0, e1]);
    let one = int_node(&mut m, 1);
    let get0 = call(&mut m, "get0", vec![vec_node, one]);
    assert_eq!(project(&m, get0), Some(e1));
    let nine = int_node(&mut m, 9);
    let out = call(&mut m, "get0", vec![vec_node, nine]);
    assert_eq!(project(&m, out), None);
    let neg = int_node(&mut m, -1);
    let negative = call(&mut m, "get0", vec![vec_node, neg]);
    assert_eq!(project(&m, negative), None);

    let exp = call(&mut m, "exp", vec![get0]);
    let bid = bind(&mut m, "y", exp);
    let kept = bind(&mut m, "inputs", get);
    assert!(flatten_structural(&mut m));
    match m.node(m.binding(bid).rhs) {
        Node::Call(c) => assert_eq!(c.args, vec![e1]),
        other => panic!("unexpected {:?}", other),
    }
    assert_eq!(m.binding(kept).rhs, get, "the reserved inputs binding is left whole");
    assert!(!flatten_structural(&mut m));
}

#[test]
fn reserved_inputs_declaration() {
    let mut m = Module::new();
    let ra = self_ref(&mut m, "a");
    let rb = self_ref(&mut m, "b");
    let three = int_node(&mut m, 3);
    let tuple = call(&mut m, "tuple", vec![ra, rb, three]);
    assert_eq!(abi_tuple_elems(&m, tuple), vec![ra, rb, three]);
    assert_eq!(abi_tuple_elems(&m, three), vec![three]);
    let other = bind(&mut m, "outputs", three);
    let inputs = bind(&mut m, "inputs", tuple);
    assert!(is_reserved_abi_binding(&m, inputs));
    assert!(!is_reserved_abi_binding(&m, other));
    let mut names: Vec<String> =
        promoted_input_names(&m).iter().map(|s: &Symbol| m.resolve(*s).to_string()).collect();
    names.sort();
    names.dedup();
    assert_eq!(names, vec!["a".to_string(), "b".to_string()]);
}

#[test]
fn application_of_a_bare_builtin_is_the_builtin_call() {
    let mut m = Module::new();
    let log = m.intern("log");
    let callee = m.add_node(Node::Const(log));
    let half = int_node(&mut m, 1);
    let app = m.add_node(Node::Call(Call {
        head: CallHead::User(callee),
        args: vec![half],
        named: Vec::new(),
        inputs: None,
    }));
    let head = builtin_callee_head(&m, app).expect("a bare built-in callee");
    assert_eq!(head, CallHead::Builtin(log));
    let direct = rebuild_with_head(&mut m, app, head);
    match m.node(direct) {
        Node::Call(c) => {
            assert_eq!(c.head, CallHead::Builtin(log));
            assert_eq!(c.args, vec![half]);
        }
        other => panic!("unexpected {:?}", other),
    }
    let r = self_ref(&mut m, "f");
    let user = m.add_node(Node::Call(Call {
        head: CallHead::User(r),
        args: vec![half],
        named: Vec::new(),
        inputs: None,
    }));
    assert_eq!(builtin_callee_head(&m, user), None);
}
