use determinizer::dispatch::{lower_densityof, lower_logdensityof, lower_measure_density};
use determinizer::ir::{Binding, Call, CallHead, Mass, Module, NamedArg, NamedKind, Node, NodeId, Ref, RefNs, Scalar, Type};
use determinizer::shape::build_call;

fn table() -> Vec<(String, Vec<String>)> {
    vec![
        ("Normal".to_string(), vec!["mu".to_string(), "sigma".to_string()]),
        ("Exponential".to_string(), vec!["rate".to_string()]),
    ]
}

fn real_node(m: &mut Module, x: f64) -> NodeId {
    m.add_node(Node::Lit(Scalar::Real(x.to_bits())))
}

fn head_args(m: &Module, id: NodeId) -> (String, Vec<NodeId>) {
    match m.node(id) {
        Node::Call(c) => {
            let head = match c.head {
                CallHead::Builtin(s) => m.resolve(s).to_string(),
                CallHead::User(_) => "user-call".to_string(),
            };
            (head, c.args.clone())
        }
        other => panic!("expected a call, got {:?}", other),
    }
}

fn normal(m: &mut Module, mu: f64, sigma: f64) -> NodeId {
    let n = m.intern("Normal");
    let mu_s = m.intern("mu");
    let sigma_s = m.intern("sigma");
    let a = real_node(m, mu);
    let b = real_node(m, sigma);
    m.add_node(Node::Call(Call {
        head: CallHead::Builtin(n),
        args: vec![],
        named: vec![
            NamedArg { kind: NamedKind::Kwarg, name: mu_s, value: a },
            NamedArg { kind: NamedKind::Kwarg, name: sigma_s, value: b },
        ],
        inputs: None,
    }))
}

/// The constructor name and the point of a `builtin_logdensityof` term.
fn primitive_term(m: &Module, t: NodeId) -> (String, NodeId) {
    let (head, args) = head_args(m, t);
    assert_eq!(head, "builtin_logdensityof");
    let ctor = match m.node(args[0]) {
        Node::Const(s) => m.resolve(*s).to_string(),
        other => panic!("expected a constructor constant, got {:?}", other),
    };
    (ctor, args[2])
}

#[test]
fn primitive_constructor_scores_builtin_density() {
    let mut m = Module::new();
    let n = normal(&mut m, 0.0, 1.0);
    let v = real_node(&mut m, 0.5);
    let t = lower_measure_density(&mut m, n, v, &table()).unwrap();
    assert_eq!(primitive_term(&m, t), ("Normal".to_string(), v));
}

#[test]
fn weighted_adds_log_weight() {
    let mut m = Module::new();
    let w = real_node(&mut m, 2.0);
    let n = normal(&mut m, 0.0, 1.0);
    let node = build_call(&mut m, "weighted", &[w, n]);
    let v = real_node(&mut m, 0.5);
    let t = lower_measure_density(&mut m, node, v, &table()).unwrap();
    let (head, args) = head_args(&m, t);
    assert_eq!(head, "add");
    assert_eq!(head_args(&m, args[0]), ("log".to_string(), vec![w]));
    assert_eq!(primitive_term(&m, args[1]), ("Normal".to_string(), v));
}

#[test]
fn logweighted_adds_log_weight_as_is() {
    let mut m = Module::new();
    let lw = real_node(&mut m, -1.5);
    let n = normal(&mut m, 0.0, 1.0);
    let node = build_call(&mut m, "logweighted", &[lw, n]);
    let v = real_node(&mut m, 0.5);
    let t = lower_measure_density(&mut m, node, v, &table()).unwrap();
    let (head, args) = head_args(&m, t);
    assert_eq!(head, "add");
    assert_eq!(args[0], lw);
}

#[test]
fn function_weight_is_applied_at_the_variate() {
    let mut m = Module::new();
    let f = m.intern("f");
    let w = m.add_node(Node::Const(f));
    m.set_type(w, Type::Function);
    let n = normal(&mut m, 0.0, 1.0);
    let node = build_call(&mut m, "weighted", &[w, n]);
    let v = real_node(&mut m, 0.5);
    let t = lower_measure_density(&mut m, node, v, &table()).unwrap();
    let (_, args) = head_args(&m, t);
    let (_, log_args) = head_args(&m, args[0]);
    match m.node(log_args[0]) {
        Node::Call(c) => {
            assert_eq!(c.head, CallHead::User(w));
            assert_eq!(c.args, vec![v]);
        }
        other => panic!("expected w(v), got {:?}", other),
    }
}

#[test]
fn superpose_is_logsumexp_of_components() {
    let mut m = Module::new();
    let a = normal(&mut m, 0.0, 1.0);
    let b = normal(&mut m, 3.0, 2.0);
    let node = build_call(&mut m, "superpose", &[a, b]);
    let v = real_node(&mut m, 0.5);
    let t = lower_measure_density(&mut m, node, v, &table()).unwrap();
    let (head, args) = head_args(&m, t);
    assert_eq!(head, "logsumexp");
    let (vh, terms) = head_args(&m, args[0]);
    assert_eq!(vh, "vector");
    assert_eq!(terms.len(), 2);
    for term in terms {
        assert_eq!(primitive_term(&m, term).0, "Normal");
    }
}

#[test]
fn superpose_needs_two_components() {
    let mut m = Module::new();
    let a = normal(&mut m, 0.0, 1.0);
    let node = build_call(&mut m, "superpose", &[a]);
    let v = real_node(&mut m, 0.5);
    let e = lower_measure_density(&mut m, node, v, &table()).unwrap_err();
    assert_eq!(e.reason, "superpose needs at least 2 components");
}

#[test]
fn normalizing_a_probability_measure_keeps_its_density() {
    let mut m = Module::new();
    let n = normal(&mut m, 0.0, 1.0);
    m.set_type(n, Type::Measure { domain: Box::new(Type::Scalar(determinizer::ir::ScalarType::Real)), mass: Mass::Normalized });
    let node = build_call(&mut m, "normalize", &[n]);
    let v = real_node(&mut m, 0.5);
    let t = lower_measure_density(&mut m, node, v, &table()).unwrap();
    assert_eq!(primitive_term(&m, t), ("Normal".to_string(), v));
}

#[test]
fn chain_measure_entered_bare_is_refused_by_name() {
    let mut m = Module::new();
    let a = normal(&mut m, 0.0, 1.0);
    let node = build_call(&mut m, "markovchain", &[a]);
    let v = real_node(&mut m, 0.5);
    let e = lower_measure_density(&mut m, node, v, &table()).unwrap_err();
    assert_eq!(e.construct, "markovchain");
    assert_eq!(e.reason, "density lowering for `markovchain` is not implemented (deferred to a later task)");
}

#[test]
fn truncate_is_not_held_by_the_dispatcher() {
    let mut m = Module::new();
    let a = normal(&mut m, 0.0, 1.0);
    let s = m.intern("posreals");
    let set = m.add_node(Node::Const(s));
    let node = build_call(&mut m, "truncate", &[a, set]);
    let v = real_node(&mut m, 0.5);
    let e = lower_measure_density(&mut m, node, v, &table()).unwrap_err();
    assert_eq!(e.node, node);
    assert!(e.reason.starts_with("no density rule for this measure construct"));
}

#[test]
fn reference_cycle_is_refused() {
    let mut m = Module::new();
    let name = m.intern("w");
    let r = m.add_node(Node::Ref(Ref { ns: RefNs::SelfMod, name }));
    let one = real_node(&mut m, 1.0);
    let rhs = build_call(&mut m, "weighted", &[one, r]);
    m.add_binding(Binding { name, rhs, doc: None, public: true, synthetic: false });
    let v = real_node(&mut m, 0.5);
    let e = lower_measure_density(&mut m, r, v, &table()).unwrap_err();
    assert!(e.reason.starts_with("measure expression nests deeper than the module has nodes"));
}

#[test]
fn logdensityof_lawof_scores_the_measure() {
    let mut m = Module::new();
    let n = normal(&mut m, 0.0, 1.0);
    let law = build_call(&mut m, "lawof", &[n]);
    let v = real_node(&mut m, 0.5);
    let q = build_call(&mut m, "logdensityof", &[law, v]);
    let t = lower_logdensityof(&mut m, q, &table(), false).unwrap();
    assert_eq!(primitive_term(&m, t), ("Normal".to_string(), v));
    let e = lower_logdensityof(&mut m, q, &table(), true).unwrap_err();
    assert!(e.reason.starts_with("lawof of a measure parameterized by a draw"));
}

#[test]
fn densityof_exponentiates() {
    let mut m = Module::new();
    let n = normal(&mut m, 0.0, 1.0);
    let v = real_node(&mut m, 0.5);
    let q = build_call(&mut m, "densityof", &[n, v]);
    let t = lower_densityof(&mut m, q, &table(), false).unwrap();
    let (head, args) = head_args(&m, t);
    assert_eq!(head, "exp");
    assert_eq!(primitive_term(&m, args[0]).0, "Normal");
}

#[test]
fn malformed_queries_refuse() {
    let mut m = Module::new();
    let n = normal(&mut m, 0.0, 1.0);
    let q = build_call(&mut m, "logdensityof", &[n]);
    let e = lower_logdensityof(&mut m, q, &table(), false).unwrap_err();
    assert_eq!(e.reason, "logdensityof expects 2 args");
    let e = lower_logdensityof(&mut m, n, &table(), false).unwrap_err();
    assert_eq!(e.reason, "expected logdensityof");
    let l = build_call(&mut m, "likelihoodof", &[n]);
    let v = real_node(&mut m, 0.5);
    let q = build_call(&mut m, "logdensityof", &[l, v]);
    let e = lower_logdensityof(&mut m, q, &table(), false).unwrap_err();
    assert_eq!(e.node, l);
}

#[test]
fn unknown_constructor_is_read_by_keyword() {
    let mut m = Module::new();
    let g = m.intern("Gamma");
    let k = m.intern("shape");
    let a = real_node(&mut m, 2.0);
    let node = m.add_node(Node::Call(Call {
        head: CallHead::Builtin(g),
        args: vec![],
        named: vec![NamedArg { kind: NamedKind::Kwarg, name: k, value: a }],
        inputs: None,
    }));
    let v = real_node(&mut m, 0.5);
    let t = lower_measure_density(&mut m, node, v, &table()).unwrap();
    assert_eq!(primitive_term(&m, t).0, "Gamma");
    let pos = build_call(&mut m, "Gamma", &[a]);
    let e = lower_measure_density(&mut m, pos, v, &table()).unwrap_err();
    assert!(e.reason.starts_with("primitive measure must be a built-in constructor call"));
}

fn typed_normal(m: &mut Module) -> NodeId {
    let n = normal(m, 0.0, 1.0);
    m.set_type(n, Type::Measure { domain: Box::new(Type::Scalar(determinizer::ir::ScalarType::Real)), mass: Mass::Normalized });
    n
}

/// `functionof(get(x, <selector>))` with input `x`.
fn get_fn(m: &mut Module, head: &str, selector: NodeId) -> NodeId {
    let xs = m.intern("x");
    let r = Ref { ns: RefNs::Local, name: xs };
    let x = m.add_node(Node::Ref(r));
    let body = build_call(m, head, &[x, selector]);
    let fo = m.intern("functionof");
    m.add_node(Node::Call(Call {
        head: CallHead::Builtin(fo),
        args: vec![body],
        named: vec![],
        inputs: Some(determinizer::ir::Inputs::Spec(vec![(xs, r)])),
    }))
}

fn record_point(m: &mut Module, fields: &[(&str, f64)]) -> NodeId {
    let mut named = Vec::new();
    for (n, x) in fields {
        let s = m.intern(n);
        let val = real_node(m, *x);
        named.push(NamedArg { kind: NamedKind::Field, name: s, value: val });
    }
    let r = m.intern("record");
    m.add_node(Node::Call(Call { head: CallHead::Builtin(r), args: vec![], named, inputs: None }))
}

fn keyword_joint(m: &mut Module, comps: &[(&str, NodeId)]) -> NodeId {
    let mut named = Vec::new();
    for (n, c) in comps {
        let s = m.intern(n);
        named.push(NamedArg { kind: NamedKind::Field, name: s, value: *c });
    }
    let jh = m.intern("joint");
    m.add_node(Node::Call(Call { head: CallHead::Builtin(jh), args: vec![], named, inputs: None }))
}

#[test]
fn named_projection_scores_the_sub_joint() {
    let mut m = Module::new();
    let a = typed_normal(&mut m);
    let b = typed_normal(&mut m);
    let joint = keyword_joint(&mut m, &[("a", a), ("b", b)]);
    let name_a = m.add_node(Node::Lit(Scalar::Str("a".to_string())));
    let sel = build_call(&mut m, "vector", &[name_a]);
    let f = get_fn(&mut m, "get", sel);
    let node = build_call(&mut m, "pushfwd", &[f, joint]);
    let v = record_point(&mut m, &[("a", 0.5)]);
    let t = lower_measure_density(&mut m, node, v, &table()).unwrap();
    let (ctor, point) = primitive_term(&m, t);
    assert_eq!(ctor, "Normal");
    assert!(matches!(m.node(point), Node::Lit(Scalar::Real(_))));
}

#[test]
fn keyword_joint_sums_its_fields() {
    let mut m = Module::new();
    let a = typed_normal(&mut m);
    let b = typed_normal(&mut m);
    let joint = keyword_joint(&mut m, &[("a", a), ("b", b)]);
    let v = record_point(&mut m, &[("b", 1.0), ("a", 0.5)]);
    let t = lower_measure_density(&mut m, joint, v, &table()).unwrap();
    let (head, args) = head_args(&m, t);
    assert_eq!(head, "add");
    assert_eq!(args.len(), 2);
    let missing = record_point(&mut m, &[("a", 0.5)]);
    let e = lower_measure_density(&mut m, joint, missing, &table()).unwrap_err();
    assert_eq!(e.reason, "missing field b in joint value record");
    let scalar = real_node(&mut m, 0.5);
    let e = lower_measure_density(&mut m, joint, scalar, &table()).unwrap_err();
    assert_eq!(e.reason, "joint value must be a record");
}

#[test]
fn positional_joint_scores_each_slot() {
    let mut m = Module::new();
    let a = typed_normal(&mut m);
    let b = typed_normal(&mut m);
    let joint = build_call(&mut m, "joint", &[a, b]);
    let v = m.add_node(Node::Hole);
    let t = lower_measure_density(&mut m, joint, v, &table()).unwrap();
    let (head, args) = head_args(&m, t);
    assert_eq!(head, "add");
    for (i, term) in args.iter().enumerate() {
        let (_, point) = primitive_term(&m, *term);
        let (h, slot) = head_args(&m, point);
        assert_eq!(h, "get0");
        assert_eq!(slot[0], v);
        assert!(matches!(m.node(slot[1]), Node::Lit(Scalar::Int(j)) if *j == i as i64));
    }
    let untyped = normal(&mut m, 0.0, 1.0);
    let j2 = build_call(&mut m, "joint", &[a, untyped]);
    let e = lower_measure_density(&mut m, j2, v, &table()).unwrap_err();
    assert_eq!(e.node, untyped);
    assert!(e.reason.starts_with("joint component variate kind is not confirmed scalar"));
}

#[test]
fn index_projection_sums_the_kept_slots() {
    let mut m = Module::new();
    let x = typed_normal(&mut m);
    let size = m.add_node(Node::Lit(Scalar::Int(3)));
    let iid = build_call(&mut m, "iid", &[x, size]);
    m.set_type(
        iid,
        Type::Measure {
            domain: Box::new(Type::Array {
                shape: vec![determinizer::ir::Dim::Static(3)],
                elem: Box::new(Type::Scalar(determinizer::ir::ScalarType::Real)),
            }),
            mass: Mass::Normalized,
        },
    );
    let one = m.add_node(Node::Lit(Scalar::Int(1)));
    let three = m.add_node(Node::Lit(Scalar::Int(3)));
    let sel = build_call(&mut m, "vector", &[one, three]);
    let f = get_fn(&mut m, "get", sel);
    let node = build_call(&mut m, "pushfwd", &[f, iid]);
    let v = m.add_node(Node::Hole);
    let t = lower_measure_density(&mut m, node, v, &table()).unwrap();
    let (head, args) = head_args(&m, t);
    assert_eq!(head, "add");
    for term in args {
        let (ctor, point) = primitive_term(&m, term);
        assert_eq!(ctor, "Normal");
        assert_eq!(head_args(&m, point).0, "get0");
    }
}

#[test]
fn change_of_variables_is_refused_by_the_dispatcher() {
    let mut m = Module::new();
    let e = m.intern("exp");
    let f = m.add_node(Node::Const(e));
    let n = normal(&mut m, 0.0, 1.0);
    let node = build_call(&mut m, "pushfwd", &[f, n]);
    let v = real_node(&mut m, 0.5);
    let err = lower_measure_density(&mut m, node, v, &table()).unwrap_err();
    assert_eq!(err.node, node);
    assert!(err.reason.starts_with("no density rule for this measure construct"));
}

#[test]
fn broadcast_without_head_is_refused() {
    let mut m = Module::new();
    let node = build_call(&mut m, "broadcast", &[]);
    let v = real_node(&mut m, 0.5);
    let e = lower_measure_density(&mut m, node, v, &table()).unwrap_err();
    assert_eq!(e.reason, "broadcast has no head argument");
}
