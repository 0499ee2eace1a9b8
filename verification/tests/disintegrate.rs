use determinizer::disintegrate::split_disintegrate;
use determinizer::ir::{
    Binding, Call, CallHead, Inputs, Module, NamedArg, NamedKind, Node, NodeId, Ref, RefNs, Scalar,
};

/// A builtin call `head(args..., name = value...)` with keyword arguments.
fn kw_call(m: &mut Module, head: &str, args: Vec<NodeId>, kwargs: &[(&str, NodeId)]) -> NodeId {
    let h = m.intern(head);
    let mut named = Vec::new();
    for (n, v) in kwargs {
        let s = m.intern(n);
        named.push(NamedArg { kind: NamedKind::Kwarg, name: s, value: *v });
    }
    m.add_node(Node::Call(Call { head: CallHead::Builtin(h), args, named, inputs: None }))
}

fn int_lit(m: &mut Module, i: i64) -> NodeId {
    m.add_node(Node::Lit(Scalar::Int(i)))
}

fn text(m: &mut Module, s: &str) -> NodeId {
    m.add_node(Node::Lit(Scalar::Str(s.to_string())))
}

fn self_ref(m: &mut Module, name: &str) -> NodeId {
    let s = m.intern(name);
    m.add_node(Node::Ref(Ref { ns: RefNs::SelfMod, name: s }))
}

fn bind(m: &mut Module, name: &str, rhs: NodeId) {
    let s = m.intern(name);
    m.add_binding(Binding { name: s, rhs, doc: None, public: true, synthetic: false });
}

/// `name ~ measure`, i.e. `name = draw(measure)`.
fn draw(m: &mut Module, name: &str, measure: NodeId) {
    let d = kw_call(m, "draw", vec![measure], &[]);
    bind(m, name, d);
}

/// `joint_model = lawof(record(label = ref target, ...))` and the
/// `disintegrate([selected...], joint_model)` node over it.
fn joint_and_split(m: &mut Module, fields: &[(&str, &str)], selected: &[&str]) -> NodeId {
    let rec_head = m.intern("record");
    let mut named = Vec::new();
    for (label, target) in fields {
        let v = self_ref(m, target);
        let l = m.intern(label);
        named.push(NamedArg { kind: NamedKind::Field, name: l, value: v });
    }
    let rec = m.add_node(Node::Call(Call {
        head: CallHead::Builtin(rec_head),
        args: Vec::new(),
        named,
        inputs: None,
    }));
    let law = kw_call(m, "lawof", vec![rec], &[]);
    bind(m, "joint_model", law);
    let mut sel = Vec::new();
    for s in selected {
        sel.push(text(m, s));
    }
    let selector = kw_call(m, "vector", sel, &[]);
    let jm = self_ref(m, "joint_model");
    let d = kw_call(m, "disintegrate", vec![selector, jm], &[]);
    bind(m, "split", d);
    d
}

/// The builtin call at `id`, asserting its head name.
fn expect_call<'a>(m: &'a Module, id: NodeId, name: &str) -> &'a Call {
    let c = match m.node(id) {
        Node::Call(c) => c,
        other => panic!("node is not a call: {:?}", other),
    };
    match c.head {
        CallHead::Builtin(op) => assert_eq!(m.resolve(op), name, "unexpected head"),
        _ => panic!("call is not a builtin"),
    }
    c
}

/// The `%field` entries of a `record(...)` node as `(name, value)` pairs.
fn record_fields(m: &Module, id: NodeId) -> Vec<(String, NodeId)> {
    let rec = expect_call(m, id, "record");
    assert!(rec.args.is_empty(), "record has positional args");
    rec.named
        .iter()
        .map(|na| {
            assert_eq!(na.kind, NamedKind::Field, "non-field entry in record");
            (m.resolve(na.name).to_string(), na.value)
        })
        .collect()
}

/// A `(%ref self <name>)` node's bound name.
fn self_ref_name(m: &Module, id: NodeId) -> String {
    match m.node(id) {
        Node::Ref(Ref { ns: RefNs::SelfMod, name }) => m.resolve(*name).to_string(),
        other => panic!("expected `(%ref self ...)`, got {:?}", other),
    }
}

/// theta1 ~ Normal(mu = 0, sigma = 1); theta2 ~ <second prior>;
/// obs ~ iid(Normal(mu = theta1, sigma = theta2), 10).
fn priors_and_obs(m: &mut Module, second: &str, second_kw: &[(&str, i64)]) {
    let z = int_lit(m, 0);
    let one = int_lit(m, 1);
    let n1 = kw_call(m, "Normal", vec![], &[("mu", z), ("sigma", one)]);
    draw(m, "theta1", n1);
    let mut kws = Vec::new();
    for (k, v) in second_kw {
        let lit = int_lit(m, *v);
        kws.push((*k, lit));
    }
    let p2 = kw_call(m, second, vec![], &kws);
    draw(m, "theta2", p2);
    let t1 = self_ref(m, "theta1");
    let t2 = self_ref(m, "theta2");
    let n2 = kw_call(m, "Normal", vec![], &[("mu", t1), ("sigma", t2)]);
    let ten = int_lit(m, 10);
    let iid = kw_call(m, "iid", vec![n2, ten], &[]);
    draw(m, "obs", iid);
}

#[test]
fn splits_bi3_into_kernel_and_marginal() {
    let mut m = Module::new();
    priors_and_obs(&mut m, "Gamma", &[("alpha", 2), ("beta", 1)]);
    let disint = joint_and_split(
        &mut m,
        &[("theta1", "theta1"), ("theta2", "theta2"), ("obs", "obs")],
        &["obs"],
    );
    let (kernel, marginal) =
        split_disintegrate(&mut m, disint).expect("bi3 explicit-DAG disintegration must split");

    let k = expect_call(&m, kernel, "kernelof");
    assert_eq!(k.args.len(), 1, "kernelof takes one positional body");
    let body_fields = record_fields(&m, k.args[0]);
    assert_eq!(
        body_fields.iter().map(|(n, _)| n.as_str()).collect::<Vec<_>>(),
        vec!["obs"],
        "kernel body must be exactly the selected `obs` field"
    );
    assert_eq!(
        self_ref_name(&m, body_fields[0].1),
        "obs",
        "kernel body `obs` field must carry the verbatim `(%ref self obs)`"
    );
    let entries = match &k.inputs {
        Some(Inputs::Spec(entries)) => entries,
        _ => panic!("kernel must carry %specinputs"),
    };
    let got: Vec<(String, RefNs, String)> = entries
        .iter()
        .map(|(nm, r)| (m.resolve(*nm).to_string(), r.ns, m.resolve(r.name).to_string()))
        .collect();
    assert_eq!(
        got,
        vec![
            ("theta1".to_string(), RefNs::SelfMod, "theta1".to_string()),
            ("theta2".to_string(), RefNs::SelfMod, "theta2".to_string()),
        ],
        "boundary inputs must be exactly the non-selected fields bound to their value refs"
    );

    let law = expect_call(&m, marginal, "lawof");
    assert_eq!(law.args.len(), 1, "lawof takes one positional body");
    let marg_fields = record_fields(&m, law.args[0]);
    assert_eq!(
        marg_fields.iter().map(|(n, _)| n.as_str()).collect::<Vec<_>>(),
        vec!["theta1", "theta2"],
        "marginal must carry exactly the non-selected fields, in order"
    );
    assert_eq!(self_ref_name(&m, marg_fields[0].1), "theta1");
    assert_eq!(self_ref_name(&m, marg_fields[1].1), "theta2");
}

/// theta1 ~ Normal(mu = 0, sigma = 1); obs ~ Normal(mu = theta1, sigma = 1).
fn two_field_model(m: &mut Module) {
    let z = int_lit(m, 0);
    let one = int_lit(m, 1);
    let n1 = kw_call(m, "Normal", vec![], &[("mu", z), ("sigma", one)]);
    draw(m, "theta1", n1);
    let t1 = self_ref(m, "theta1");
    let one2 = int_lit(m, 1);
    let n2 = kw_call(m, "Normal", vec![], &[("mu", t1), ("sigma", one2)]);
    draw(m, "obs", n2);
}

#[test]
fn refuses_selector_naming_a_non_field() {
    let mut m = Module::new();
    two_field_model(&mut m);
    let disint = joint_and_split(&mut m, &[("theta1", "theta1"), ("obs", "obs")], &["bogus"]);
    assert!(split_disintegrate(&mut m, disint).is_none(), "a selector naming no field must refuse");
}

#[test]
fn refuses_selecting_all_fields() {
    let mut m = Module::new();
    two_field_model(&mut m);
    let disint =
        joint_and_split(&mut m, &[("theta1", "theta1"), ("obs", "obs")], &["theta1", "obs"]);
    assert!(
        split_disintegrate(&mut m, disint).is_none(),
        "selecting all fields (empty conditioning set) must refuse"
    );
}

#[test]
fn refuses_reversed_selector_under_field_aliasing() {
    let mut m = Module::new();
    priors_and_obs(&mut m, "Exponential", &[("rate", 1)]);
    let disint = joint_and_split(
        &mut m,
        &[("mu_param", "theta1"), ("sigma_param", "theta2"), ("obs", "obs")],
        &["mu_param", "sigma_param"],
    );
    assert!(
        split_disintegrate(&mut m, disint).is_none(),
        "a reversed selector under field aliasing (non-closed marginal) must refuse"
    );
}

#[test]
fn splits_valid_aliased_marginal_fields() {
    let mut m = Module::new();
    priors_and_obs(&mut m, "Exponential", &[("rate", 1)]);
    let disint = joint_and_split(
        &mut m,
        &[("mu_param", "theta1"), ("sigma_param", "theta2"), ("data", "obs")],
        &["data"],
    );
    let (kernel, marginal) = split_disintegrate(&mut m, disint)
        .expect("the valid direction with aliased marginal fields must split, not over-refuse");

    let k = expect_call(&m, kernel, "kernelof");
    let body_fields = record_fields(&m, k.args[0]);
    assert_eq!(
        body_fields.iter().map(|(n, _)| n.as_str()).collect::<Vec<_>>(),
        vec!["data"],
        "kernel body must be exactly the selected aliased field `data`"
    );
    assert_eq!(
        self_ref_name(&m, body_fields[0].1),
        "obs",
        "the selected field `data` must carry the verbatim `(%ref self obs)`"
    );
    let entries = match &k.inputs {
        Some(Inputs::Spec(entries)) => entries,
        _ => panic!("kernel must carry %specinputs"),
    };
    let got: Vec<(String, String)> = entries
        .iter()
        .map(|(nm, r)| (m.resolve(*nm).to_string(), m.resolve(r.name).to_string()))
        .collect();
    assert_eq!(
        got,
        vec![
            ("mu_param".to_string(), "theta1".to_string()),
            ("sigma_param".to_string(), "theta2".to_string()),
        ],
        "boundary inputs keep the aliased field labels, sourced from their binding refs"
    );

    let law = expect_call(&m, marginal, "lawof");
    let marg_fields = record_fields(&m, law.args[0]);
    assert_eq!(
        marg_fields.iter().map(|(n, _)| n.as_str()).collect::<Vec<_>>(),
        vec!["mu_param", "sigma_param"],
        "marginal must carry exactly the non-selected aliased fields, in order"
    );
    assert_eq!(self_ref_name(&m, marg_fields[0].1), "theta1");
    assert_eq!(self_ref_name(&m, marg_fields[1].1), "theta2");
}

/// A single string literal selects one field, exactly as a one-element
/// vector does.
#[test]
fn bare_string_selector_splits_like_a_vector() {
    let mut m = Module::new();
    two_field_model(&mut m);
    let rec_head = m.intern("record");
    let t1 = self_ref(&mut m, "theta1");
    let ob = self_ref(&mut m, "obs");
    let l1 = m.intern("theta1");
    let l2 = m.intern("obs");
    let rec = m.add_node(Node::Call(Call {
        head: CallHead::Builtin(rec_head),
        args: Vec::new(),
        named: vec![
            NamedArg { kind: NamedKind::Field, name: l1, value: t1 },
            NamedArg { kind: NamedKind::Field, name: l2, value: ob },
        ],
        inputs: None,
    }));
    let law = kw_call(&mut m, "lawof", vec![rec], &[]);
    let sel = text(&mut m, "obs");
    let d = kw_call(&mut m, "disintegrate", vec![sel, law], &[]);
    let (kernel, marginal) = split_disintegrate(&mut m, d).expect("a bare string selector splits");
    let k = expect_call(&m, kernel, "kernelof");
    let body = record_fields(&m, k.args[0]);
    assert_eq!(body.len(), 1);
    assert_eq!(body[0].0, "obs");
    let law = expect_call(&m, marginal, "lawof");
    let marg = record_fields(&m, law.args[0]);
    assert_eq!(marg.len(), 1);
    assert_eq!(marg[0].0, "theta1");
}

/// A disintegrate over a measure that is not a `lawof(record(...))` refuses.
#[test]
fn refuses_split_of_a_non_record_law() {
    let mut m = Module::new();
    two_field_model(&mut m);
    let z = int_lit(&mut m, 0);
    let one = int_lit(&mut m, 1);
    let n = kw_call(&mut m, "Normal", vec![], &[("mu", z), ("sigma", one)]);
    let sel = text(&mut m, "obs");
    let vsel = kw_call(&mut m, "vector", vec![sel], &[]);
    let d = kw_call(&mut m, "disintegrate", vec![vsel, n], &[]);
    assert!(split_disintegrate(&mut m, d).is_none());
}
