use determinizer::ir::{Call, CallHead, Module, NamedArg, NamedKind, Node, NodeId, Ref, RefNs, Scalar};
use determinizer::kernel_broadcast::{emit_kernel_broadcast_density, lower_broadcast_kernel, singleton_kernel_input};
use determinizer::shape::build_call;

fn call_of(m: &Module, id: NodeId) -> (String, Vec<NodeId>, Vec<(NamedKind, String, NodeId)>) {
    match m.node(id) {
        Node::Call(c) => {
            let head = match c.head {
                CallHead::Builtin(s) => m.resolve(s).to_string(),
                CallHead::User(_) => panic!("expected a built-in call"),
            };
            let named = c.named.iter().map(|na| (na.kind, m.resolve(na.name).to_string(), na.value)).collect();
            (head, c.args.clone(), named)
        }
        other => panic!("expected a call, got {:?}", other),
    }
}

fn const_name(m: &Module, id: NodeId) -> String {
    match m.node(id) {
        Node::Const(s) => m.resolve(*s).to_string(),
        other => panic!("expected a constant, got {:?}", other),
    }
}

fn poisson_params() -> Option<Vec<String>> {
    Some(vec!["lambda".to_string()])
}

fn normal_params() -> Option<Vec<String>> {
    Some(vec!["mu".to_string(), "sigma".to_string()])
}

fn broadcast(m: &mut Module, head: NodeId, pos: Vec<NodeId>, kw: &[(&str, NodeId)]) -> NodeId {
    let b = m.intern("broadcast");
    let mut args = vec![head];
    args.extend(pos);
    let mut named = Vec::new();
    for (n, v) in kw {
        let s = m.intern(n);
        named.push(NamedArg { kind: NamedKind::Kwarg, name: s, value: *v });
    }
    m.add_node(Node::Call(Call { head: CallHead::Builtin(b), args, named, inputs: None }))
}

/// The per-cell records and the observations of a kernel-broadcast density.
fn density_parts(m: &Module, t: NodeId) -> (String, NodeId, NodeId) {
    let (head, sum_args, _) = call_of(m, t);
    assert_eq!(head, "sum");
    let (head, cell, _) = call_of(m, sum_args[0]);
    assert_eq!(head, "broadcast");
    assert_eq!(const_name(m, cell[0]), "builtin_logdensityof");
    (const_name(m, cell[1]), cell[2], cell[3])
}

#[test]
fn kernel_broadcast_scores_each_cell_record() {
    let mut m = Module::new();
    let p = m.intern("Normal");
    let head = m.add_node(Node::Const(p));
    let mus = m.add_node(Node::Hole);
    let sigmas = m.add_node(Node::Hole);
    let obs = m.add_node(Node::Hole);
    let measure = broadcast(&mut m, head, vec![mus], &[("sigma", sigmas)]);
    let t = lower_broadcast_kernel(&mut m, measure, obs, &normal_params()).expect("a kernel broadcast");
    let (ctor, records, at) = density_parts(&m, t);
    assert_eq!(ctor, "Normal");
    assert_eq!(at, obs);
    let (head, args, named) = call_of(&m, records);
    assert_eq!(head, "broadcast");
    assert_eq!(args.len(), 1);
    assert_eq!(const_name(&m, args[0]), "record");
    assert_eq!(
        named,
        vec![(NamedKind::Kwarg, "mu".to_string(), mus), (NamedKind::Kwarg, "sigma".to_string(), sigmas)]
    );
}

#[test]
fn kernel_broadcast_accepts_a_module_member_head() {
    let mut m = Module::new();
    let hep = m.intern("hepphys");
    let cp = m.intern("ContinuedPoisson");
    let head = m.add_node(Node::Ref(Ref { ns: RefNs::Module(hep), name: cp }));
    let rates = m.add_node(Node::Hole);
    let obs = m.add_node(Node::Hole);
    let measure = broadcast(&mut m, head, vec![rates], &[]);
    let t = lower_broadcast_kernel(&mut m, measure, obs, &poisson_params()).expect("module member");
    assert_eq!(density_parts(&m, t).0, "ContinuedPoisson");
}

#[test]
fn kernel_broadcast_refusals() {
    let mut m = Module::new();
    let obs = m.add_node(Node::Hole);
    let not_broadcast = build_call(&mut m, "sum", &[obs]);
    let e = lower_broadcast_kernel(&mut m, not_broadcast, obs, &None).expect_err("not a broadcast");
    assert_eq!(e.reason, "expected broadcast");

    let empty = build_call(&mut m, "broadcast", &[]);
    let e = lower_broadcast_kernel(&mut m, empty, obs, &None).expect_err("no head");
    assert_eq!(e.reason, "broadcast has no head argument");

    let a = m.intern("a");
    let local = m.add_node(Node::Ref(Ref { ns: RefNs::Local, name: a }));
    let value = broadcast(&mut m, local, vec![obs], &[]);
    let e = lower_broadcast_kernel(&mut m, value, obs, &poisson_params()).expect_err("value broadcast");
    assert_eq!(e.node, value);
    assert_eq!(e.construct, "broadcast");
    assert_eq!(e.reason, "broadcast head is not a distribution constructor (value-broadcast used as a measure)");

    let add = m.intern("add");
    let op = m.add_node(Node::Const(add));
    let value = broadcast(&mut m, op, vec![obs, obs], &[]);
    let e = lower_broadcast_kernel(&mut m, value, obs, &None).expect_err("unknown constructor");
    assert_eq!(e.reason, "broadcast head is not a known distribution constructor");

    let p = m.intern("Poisson");
    let head = m.add_node(Node::Const(p));
    let over = broadcast(&mut m, head, vec![obs, obs], &[]);
    let e = lower_broadcast_kernel(&mut m, over, obs, &poisson_params()).expect_err("too many");
    assert_eq!(e.reason, "broadcast has more positional data-args than the constructor has parameters");
}

#[test]
fn singleton_kernel_input_wraps_each_parameter_once_per_layer() {
    let mut m = Module::new();
    let mu = m.add_node(Node::Lit(Scalar::Real(0.0f64.to_bits())));
    let name = m.intern("mu");
    let ki = singleton_kernel_input(&mut m, &vec![(name, mu)], 2);
    let (head, args, named) = call_of(&m, ki);
    assert_eq!(head, "broadcast");
    assert_eq!(const_name(&m, args[0]), "record");
    assert_eq!(named.len(), 1);
    assert_eq!(named[0].1, "mu");
    let (outer, inner, _) = call_of(&m, named[0].2);
    assert_eq!(outer, "vector");
    let (inner_head, leaf, _) = call_of(&m, inner[0]);
    assert_eq!(inner_head, "vector");
    assert_eq!(leaf, vec![mu]);

    let obs = m.add_node(Node::Hole);
    let t = emit_kernel_broadcast_density(&mut m, name, ki, obs);
    assert_eq!(density_parts(&m, t), ("mu".to_string(), ki, obs));
}
