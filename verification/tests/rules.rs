use determinizer::conformance::{is_flatpdl, NameTables};
use determinizer::driver::{
    apply_rule, determinize_step, find_measure_node, try_beta_law, Applied, Lowering, Step,
};
use determinizer::ir::{
    Binding, BindingId, Call, CallHead, Mass, Module, NamedArg, NamedKind, Node, NodeId, Phase, Ref,
    RefNs, Scalar, ScalarType, Type,
};
use determinizer::refuse::NonConformKind;

fn call(m: &mut Module, head: &str, args: Vec<NodeId>) -> NodeId {
    let h = m.intern(head);
    m.add_node(Node::Call(Call { head: CallHead::Builtin(h), args, named: Vec::new(), inputs: None }))
}

fn int_node(m: &mut Module, i: i64) -> NodeId {
    m.add_node(Node::Lit(Scalar::Int(i)))
}

fn self_ref(m: &mut Module, name: &str) -> NodeId {
    let s = m.intern(name);
    m.add_node(Node::Ref(Ref { ns: RefNs::SelfMod, name: s }))
}

fn bind(m: &mut Module, name: &str, rhs: NodeId) -> BindingId {
    let s = m.intern(name);
    m.add_binding(Binding { name: s, rhs, doc: None, public: true, synthetic: false })
}

/// Tables over `m`: every symbol in `base` is a built-in; no kernel tags.
fn tables(m: &Module, base: &[&str]) -> NameTables {
    let n = m.symbols.len();
    let mut b = vec![false; n];
    for (i, s) in m.symbols.iter().enumerate() {
        if base.contains(&s.as_str()) {
            b[i] = true;
        }
    }
    NameTables { base: b, kernel_tag: vec![false; n], tag_node: vec![None; m.nodes.len()] }
}

/// theta ~ Normal(); obs ~ Normal(theta); joint = lawof(record(theta, obs));
/// pair = disintegrate(["obs"], joint); the `get(pair, i)` node.
fn split_model(m: &mut Module, i: i64) -> (BindingId, NodeId) {
    let n1 = call(m, "Normal", vec![]);
    let d1 = call(m, "draw", vec![n1]);
    bind(m, "theta", d1);
    let t = self_ref(m, "theta");
    let n2 = call(m, "Normal", vec![t]);
    let d2 = call(m, "draw", vec![n2]);
    bind(m, "obs", d2);
    let rt = self_ref(m, "theta");
    let ro = self_ref(m, "obs");
    let th = m.intern("theta");
    let ob = m.intern("obs");
    let rh = m.intern("record");
    let rec = m.add_node(Node::Call(Call {
        head: CallHead::Builtin(rh),
        args: Vec::new(),
        named: vec![
            NamedArg { kind: NamedKind::Field, name: th, value: rt },
            NamedArg { kind: NamedKind::Field, name: ob, value: ro },
        ],
        inputs: None,
    }));
    let law = call(m, "lawof", vec![rec]);
    bind(m, "joint", law);
    let sel = m.add_node(Node::Lit(Scalar::Str("obs".to_string())));
    let vsel = call(m, "vector", vec![sel]);
    let j = self_ref(m, "joint");
    let d = call(m, "disintegrate", vec![vsel, j]);
    let idx = int_node(m, i);
    let g = call(m, "get", vec![d, idx]);
    let bid = bind(m, "kernel", g);
    (bid, g)
}

#[test]
fn get_of_a_disintegrate_takes_the_kernel() {
    let mut m = Module::new();
    let (bid, g) = split_model(&mut m, 1);
    // A reader keeps the kernel binding from being swept as dead afterwards.
    let rk = self_ref(&mut m, "kernel");
    bind(&mut m, "reader", rk);
    match apply_rule(&mut m, bid, g) {
        Ok(Applied::Rewritten { replacement, root }) => {
            assert_eq!(m.binding(bid).rhs, root);
            assert_eq!(root, replacement);
            let k = m.binding(bid).rhs;
            match m.node(k) {
                Node::Call(c) => {
                    assert!(matches!(c.head, CallHead::Builtin(s) if m.resolve(s) == "kernelof"))
                }
                other => panic!("unexpected {:?}", other),
            }
        }
        other => panic!("unexpected {:?}", other),
    }
}

#[test]
fn get_of_a_disintegrate_outside_the_pair_refuses() {
    let mut m = Module::new();
    let (bid, g) = split_model(&mut m, 3);
    let e = apply_rule(&mut m, bid, g).unwrap_err();
    assert_eq!(e.node, g);
    assert_eq!(e.construct, "get");
    assert_eq!(e.reason, "get index 3 out of range for a disintegrate (kernel, marginal) tuple");
}

#[test]
fn density_queries_and_rand_are_handed_to_their_lowering() {
    let mut m = Module::new();
    let n = call(&mut m, "Normal", vec![]);
    let x = int_node(&mut m, 0);
    let q = call(&mut m, "logdensityof", vec![n, x]);
    let bid = bind(&mut m, "lp", q);
    assert_eq!(apply_rule(&mut m, bid, q).unwrap(), Applied::Lower(Lowering::LogDensity));
    let q2 = call(&mut m, "densityof", vec![n, x]);
    let b2 = bind(&mut m, "p", q2);
    assert_eq!(apply_rule(&mut m, b2, q2).unwrap(), Applied::Lower(Lowering::Density));
    let q3 = call(&mut m, "rand", vec![n]);
    let b3 = bind(&mut m, "s", q3);
    assert_eq!(apply_rule(&mut m, b3, q3).unwrap(), Applied::Lower(Lowering::Sample));
}

#[test]
fn law_of_a_draw_is_its_measure() {
    let mut m = Module::new();
    let n = call(&mut m, "Normal", vec![]);
    let d = call(&mut m, "draw", vec![n]);
    let l = call(&mut m, "lawof", vec![d]);
    assert_eq!(try_beta_law(&m, l), Some(n));
    assert_eq!(try_beta_law(&m, d), None);
    let bid = bind(&mut m, "law", l);
    match apply_rule(&mut m, bid, l).unwrap() {
        Applied::Rewritten { replacement, root } => {
            assert_eq!(replacement, n);
            assert_eq!(m.binding(bid).rhs, root);
        }
        other => panic!("unexpected {:?}", other),
    }
}

#[test]
fn a_construct_without_a_rule_refuses_by_name() {
    let mut m = Module::new();
    let n = call(&mut m, "Normal", vec![]);
    let k = call(&mut m, "kchain", vec![n]);
    let bid = bind(&mut m, "k", k);
    let e = apply_rule(&mut m, bid, k).unwrap_err();
    assert_eq!(e.construct, "kchain");
    assert_eq!(e.reason, "no determinization rule for this measure-layer construct (Task 3+ needed)");
}

#[test]
fn restrict_outside_the_structural_case_refuses() {
    let mut m = Module::new();
    let n = call(&mut m, "Normal", vec![]);
    let x = int_node(&mut m, 1);
    let r = call(&mut m, "restrict", vec![n, x]);
    let bid = bind(&mut m, "post", r);
    let e = apply_rule(&mut m, bid, r).unwrap_err();
    assert_eq!(e.node, r);
    assert_eq!(e.construct, "restrict");
    assert_eq!(
        e.reason,
        "restrict(M, x) is not the explicit structural case: x must be a record of observed values whose fields are all variates of a lawof(record(…)) M"
    );
}

#[test]
fn disintegrate_desugaring_fires_before_the_density_query() {
    let mut m = Module::new();
    let (bid, g) = split_model(&mut m, 2);
    let n = call(&mut m, "Normal", vec![]);
    let x = int_node(&mut m, 0);
    let q = call(&mut m, "logdensityof", vec![n, x]);
    bind(&mut m, "lp", q);
    assert_eq!(find_measure_node(&m), Some((bid, g)));
}

#[test]
fn conformance_of_a_deterministic_module() {
    let mut m = Module::new();
    let a = m.add_node(Node::Lit(Scalar::Real(1.0f64.to_bits())));
    let b = m.add_node(Node::Lit(Scalar::Real(2.0f64.to_bits())));
    let s = call(&mut m, "add", vec![a, b]);
    m.set_type(s, Type::Scalar(ScalarType::Real));
    m.set_phase(s, Phase::Fixed);
    bind(&mut m, "y", s);
    let t = tables(&m, &["add"]);
    assert!(is_flatpdl(&m, &t).is_ok());
    assert_eq!(determinize_step(&mut m, &t).unwrap(), Step::Conformant);
}

#[test]
fn conformance_reports_every_violation_in_order() {
    let mut m = Module::new();
    let n = call(&mut m, "Normal", vec![]);
    m.set_type(n, Type::Measure { domain: Box::new(Type::Scalar(ScalarType::Real)), mass: Mass::Normalized });
    let dangling = self_ref(&mut m, "nowhere");
    let p = call(&mut m, "builtin_logdensityof", vec![n, dangling]);
    bind(&mut m, "lp", p);
    let t = tables(&m, &["Normal", "builtin_logdensityof"]);
    let bad = is_flatpdl(&m, &t).unwrap_err();
    let kinds: Vec<NonConformKind> = bad.iter().map(|v| v.kind).collect();
    assert_eq!(
        kinds,
        vec![NonConformKind::BuiltinArity, NonConformKind::MeasureTyped, NonConformKind::DanglingSelfRef]
    );
    assert_eq!(bad[0].reason, "builtin_logdensityof takes 3 arguments, got 2");
    assert_eq!(bad[2].reason, "dangling (%ref self nowhere) — no binding of that name in the module");
    let e = determinize_step(&mut m, &t).unwrap_err();
    assert_eq!(e.node, bad[0].node);
    assert_eq!(e.construct, "BuiltinArity");
}

#[test]
fn an_unread_rewritten_binding_is_swept() {
    let mut m = Module::new();
    let (bid, g) = split_model(&mut m, 2);
    assert!(matches!(apply_rule(&mut m, bid, g), Ok(Applied::Rewritten { .. })));
    assert!(matches!(m.node(m.binding(bid).rhs), Node::Lit(Scalar::Real(0))));
}
