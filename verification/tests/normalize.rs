use determinizer::density::{
    finish_convex_normalize, finish_truncated_normalize, gaussian_product_density, lower_normalize,
    recognize_gaussian_product, GaussianProduct, NormalizeStep, TWO_BITS,
};
use determinizer::ir::{
    Call, CallHead, Inputs, Mass, Module, NamedArg, NamedKind, Node, NodeId, Ref, RefNs, Scalar,
    ScalarType, Type,
};
use determinizer::shape::build_call;

fn call_kw(m: &mut Module, head: &str, args: Vec<NodeId>, kwargs: &[(&str, NodeId)]) -> NodeId {
    let h = m.intern(head);
    let mut named = Vec::new();
    for (n, v) in kwargs {
        let s = m.intern(n);
        named.push(NamedArg { kind: NamedKind::Kwarg, name: s, value: *v });
    }
    m.add_node(Node::Call(Call { head: CallHead::Builtin(h), args, named, inputs: None }))
}

fn real_lit(m: &mut Module, x: f64) -> NodeId {
    m.add_node(Node::Lit(Scalar::Real(x.to_bits())))
}

fn measure(domain: Type, mass: Mass) -> Type {
    Type::Measure { domain: Box::new(domain), mass }
}

fn reals() -> Type {
    Type::Scalar(ScalarType::Real)
}

fn normal_params() -> Option<Vec<String>> {
    Some(vec!["mu".to_string(), "sigma".to_string()])
}

/// The head name and the positional arguments of the call at `id`.
fn call_of(m: &Module, id: NodeId) -> (String, Vec<NodeId>) {
    match m.node(id) {
        Node::Call(c) => match c.head {
            CallHead::Builtin(s) => (m.resolve(s).to_string(), c.args.clone()),
            CallHead::User(_) => panic!("expected a built-in call"),
        },
        other => panic!("expected a call, got {:?}", other),
    }
}

/// The `(mu, sigma)` of the `Normal` density term at `t`, and its point.
fn normal_term_parts(m: &Module, t: NodeId) -> (NodeId, NodeId, NodeId) {
    let (head, args) = call_of(m, t);
    assert_eq!(head, "builtin_logdensityof");
    assert!(matches!(m.node(args[0]), Node::Const(s) if m.resolve(*s) == "Normal"));
    match m.node(args[1]) {
        Node::Call(r) => {
            assert_eq!(r.named.len(), 2);
            assert_eq!(m.resolve(r.named[0].name), "mu");
            assert_eq!(m.resolve(r.named[1].name), "sigma");
            (r.named[0].value, r.named[1].value, args[2])
        }
        other => panic!("expected the kernel input record, got {:?}", other),
    }
}

fn is_two(m: &Module, id: NodeId) -> bool {
    matches!(m.node(id), Node::Lit(Scalar::Real(b)) if *b == TWO_BITS)
}

#[test]
fn normalize_truncate_composed_head_refuses_leaf_constructor_message() {
    let mut m = Module::new();
    let pushfwd_sym = m.intern("pushfwd");
    let a0 = real_lit(&mut m, 0.0);
    let a1 = real_lit(&mut m, 0.0);
    let base = m.add_node(Node::Call(Call {
        head: CallHead::Builtin(pushfwd_sym),
        args: vec![a0, a1],
        named: Vec::new(),
        inputs: None,
    }));
    m.set_type(base, measure(reals(), Mass::Normalized));
    let lo = real_lit(&mut m, 1.0);
    let hi = real_lit(&mut m, 3.0);
    let interval = build_call(&mut m, "interval", &[lo, hi]);
    let truncate = build_call(&mut m, "truncate", &[base, interval]);
    m.set_type(truncate, measure(reals(), Mass::Finite));
    let normalize = build_call(&mut m, "normalize", &[truncate]);
    let v = real_lit(&mut m, 2.0);

    let err = lower_normalize(&mut m, normalize, v, &normal_params())
        .expect_err("composed (pushfwd) base must refuse, not emit builtin_touniform(pushfwd)");
    assert!(err.reason.contains("leaf built-in distribution"), "refusal names the leaf-constructor requirement: {err:?}");
    assert!(
        err.reason.contains("composed") || err.reason.contains("pushfwd"),
        "refusal points at the composed/pushfwd base: {err:?}"
    );
    assert!(
        !err.reason.contains("discrete") && !err.reason.contains("multivariate"),
        "leaf-constructor refuse must be distinct from the discrete/multivariate one: {err:?}"
    );
}

#[test]
fn normalize_of_a_probability_measure_is_its_own_density() {
    let mut m = Module::new();
    let mu = real_lit(&mut m, 0.0);
    let sigma = real_lit(&mut m, 1.0);
    let g = call_kw(&mut m, "Normal", vec![], &[("mu", mu), ("sigma", sigma)]);
    m.set_type(g, measure(reals(), Mass::Normalized));
    let normalize = build_call(&mut m, "normalize", &[g]);
    let v = real_lit(&mut m, 0.5);
    match lower_normalize(&mut m, normalize, v, &normal_params()) {
        Ok(NormalizeStep::Inner(inner)) => assert_eq!(inner, g),
        other => panic!("expected the inner density, got {:?}", other),
    }
}

#[test]
fn normalize_shape_refusals() {
    let mut m = Module::new();
    let v = real_lit(&mut m, 0.5);
    let not_normalize = build_call(&mut m, "truncate", &[v]);
    let e = lower_normalize(&mut m, not_normalize, v, &None).expect_err("not a normalize call");
    assert_eq!(e.node, not_normalize);
    assert_eq!(e.construct, "truncate");
    assert_eq!(e.reason, "expected normalize");

    let two = build_call(&mut m, "normalize", &[v, v]);
    let e = lower_normalize(&mut m, two, v, &None).expect_err("two arguments");
    assert_eq!(e.node, two);
    assert_eq!(e.construct, "normalize");
    assert_eq!(e.reason, "normalize expects 1 arg");
}

#[test]
fn normalize_truncate_by_a_named_set_refuses() {
    let mut m = Module::new();
    let mu = real_lit(&mut m, 0.0);
    let sigma = real_lit(&mut m, 1.0);
    let g = call_kw(&mut m, "Normal", vec![], &[("mu", mu), ("sigma", sigma)]);
    m.set_type(g, measure(reals(), Mass::Normalized));
    let posreals = m.intern("posreals");
    let set = m.add_node(Node::Const(posreals));
    let truncate = build_call(&mut m, "truncate", &[g, set]);
    let normalize = build_call(&mut m, "normalize", &[truncate]);
    let v = real_lit(&mut m, 0.5);
    let e = lower_normalize(&mut m, normalize, v, &normal_params()).expect_err("named set");
    assert_eq!(e.node, normalize);
    assert_eq!(e.construct, "normalize");
    assert_eq!(
        e.reason,
        "normalize(truncate): closed-form Z is only implemented for an `interval(lo, hi)` truncation set; a named/other set is not yet supported"
    );
}

#[test]
fn normalize_truncate_of_a_discrete_base_refuses() {
    let mut m = Module::new();
    let lambda = real_lit(&mut m, 3.0);
    let p = call_kw(&mut m, "Poisson", vec![], &[("rate", lambda)]);
    m.set_type(p, measure(Type::Scalar(ScalarType::Integer), Mass::Normalized));
    let lo = real_lit(&mut m, 1.0);
    let hi = real_lit(&mut m, 4.0);
    let interval = build_call(&mut m, "interval", &[lo, hi]);
    let truncate = build_call(&mut m, "truncate", &[p, interval]);
    let normalize = build_call(&mut m, "normalize", &[truncate]);
    let v = real_lit(&mut m, 2.0);
    let e = lower_normalize(&mut m, normalize, v, &None).expect_err("discrete base");
    assert_eq!(e.node, normalize);
    assert!(e.reason.contains("a discrete or multivariate base needs a different closed-form Z"), "{e:?}");
}

#[test]
fn normalize_truncate_of_a_leaf_base_takes_the_cdf_form() {
    let mut m = Module::new();
    let mu = real_lit(&mut m, 0.0);
    let sigma = real_lit(&mut m, 1.0);
    let g = call_kw(&mut m, "Normal", vec![], &[("mu", mu), ("sigma", sigma)]);
    m.set_type(g, measure(reals(), Mass::Normalized));
    let lo = real_lit(&mut m, -1.0);
    let hi = real_lit(&mut m, 2.0);
    let interval = build_call(&mut m, "interval", &[lo, hi]);
    let truncate = build_call(&mut m, "truncate", &[g, interval]);
    let normalize = build_call(&mut m, "normalize", &[truncate]);
    let v = real_lit(&mut m, 0.5);
    let (inner, base, l, h) = match lower_normalize(&mut m, normalize, v, &normal_params()) {
        Ok(NormalizeStep::Truncated { inner, base, lo, hi }) => (inner, base, lo, hi),
        other => panic!("expected the CDF form, got {:?}", other),
    };
    assert_eq!((inner, base, l, h), (truncate, g, lo, hi));

    // Finish with a stand-in for the truncation's own density term.
    let density = m.add_node(Node::Hole);
    let t = finish_truncated_normalize(&mut m, density, base, l, h, &normal_params()).expect("a leaf base");
    let (head, args) = call_of(&m, t);
    assert_eq!(head, "sub");
    assert_eq!(args[0], density);
    let (head, log_args) = call_of(&m, args[1]);
    assert_eq!(head, "log");
    let (head, diff) = call_of(&m, log_args[0]);
    assert_eq!(head, "sub");
    let (head, cdf_hi) = call_of(&m, diff[0]);
    assert_eq!(head, "builtin_touniform");
    assert_eq!(cdf_hi[2], hi);
    let (head, cdf_lo) = call_of(&m, diff[1]);
    assert_eq!(head, "builtin_touniform");
    assert_eq!(cdf_lo[2], lo);
    assert_eq!(cdf_hi[0], cdf_lo[0]);
    assert_eq!(cdf_hi[1], cdf_lo[1]);
    assert!(matches!(m.node(cdf_hi[0]), Node::Const(s) if m.resolve(*s) == "Normal"));
    match m.node(cdf_hi[1]) {
        Node::Call(r) => {
            assert_eq!(r.named.len(), 2);
            assert_eq!(r.named[0].value, mu);
            assert_eq!(r.named[1].value, sigma);
        }
        other => panic!("expected the kernel input record, got {:?}", other),
    }
}

#[test]
fn truncated_normalize_refuses_a_base_that_is_no_constructor() {
    let mut m = Module::new();
    let base = m.add_node(Node::Hole);
    let lo = real_lit(&mut m, 0.0);
    let hi = real_lit(&mut m, 1.0);
    let density = m.add_node(Node::Hole);
    let e = finish_truncated_normalize(&mut m, density, base, lo, hi, &None).expect_err("a hole");
    assert_eq!(e.node, base);
    assert_eq!(
        e.reason,
        "truncation base must be a built-in constructor call with well-formed positional or keyword arguments"
    );
}

#[test]
fn normalize_without_a_mass_rule_refuses() {
    let mut m = Module::new();
    let reals_const = m.intern("reals");
    let set = m.add_node(Node::Const(reals_const));
    let leb = build_call(&mut m, "Lebesgue", &[set]);
    m.set_type(leb, measure(reals(), Mass::LocallyFinite));
    let lo = real_lit(&mut m, 0.0);
    let hi = real_lit(&mut m, 1.0);
    let interval = build_call(&mut m, "interval", &[lo, hi]);
    let truncate = build_call(&mut m, "truncate", &[leb, interval]);
    let normalize = build_call(&mut m, "normalize", &[truncate]);
    let v = real_lit(&mut m, 0.5);
    let e = lower_normalize(&mut m, normalize, v, &None).expect_err("unnormalized base");
    assert_eq!(e.node, normalize);
    assert_eq!(e.construct, "normalize");
    assert_eq!(
        e.reason,
        "normalize of an unnormalized measure needs a closed-form mass rule; `totalmass` is not FlatPDL"
    );
}

#[test]
fn normalize_of_a_convex_superposition_divides_by_the_weight_sum() {
    let mut m = Module::new();
    let a = m.add_node(Node::Hole);
    m.set_type(a, measure(reals(), Mass::Normalized));
    let b = m.add_node(Node::Hole);
    m.set_type(b, measure(reals(), Mass::Normalized));
    let w1 = real_lit(&mut m, 0.25);
    let w2 = real_lit(&mut m, 0.5);
    let c1 = build_call(&mut m, "weighted", &[w1, a]);
    let c2 = build_call(&mut m, "weighted", &[w2, b]);
    let sup = build_call(&mut m, "superpose", &[c1, c2]);
    let normalize = build_call(&mut m, "normalize", &[sup]);
    let v = real_lit(&mut m, 0.5);
    let weights = match lower_normalize(&mut m, normalize, v, &None) {
        Ok(NormalizeStep::Convex { inner, weights }) => {
            assert_eq!(inner, sup);
            weights
        }
        other => panic!("expected the convex rule, got {:?}", other),
    };
    assert_eq!(weights, vec![w1, w2]);
    let density = m.add_node(Node::Hole);
    let t = finish_convex_normalize(&mut m, density, &weights);
    let (head, args) = call_of(&m, t);
    assert_eq!(head, "sub");
    assert_eq!(args[0], density);
    let (head, log_args) = call_of(&m, args[1]);
    assert_eq!(head, "log");
    let (head, sum) = call_of(&m, log_args[0]);
    assert_eq!(head, "add");
    assert_eq!(sum, vec![w1, w2]);

    // One weight stands for itself.
    let density = m.add_node(Node::Hole);
    let t = finish_convex_normalize(&mut m, density, &vec![w2]);
    let (_, args) = call_of(&m, t);
    let (_, log_args) = call_of(&m, args[1]);
    assert_eq!(log_args, vec![w2]);
}

/// `logweighted(functionof(body; x), Normal(mu = mu1, sigma = sigma1))`,
/// with `body` built by `score` from the reified argument.
fn product(
    m: &mut Module,
    mu1: NodeId,
    sigma1: NodeId,
    score: &dyn Fn(&mut Module, NodeId) -> NodeId,
) -> (NodeId, NodeId) {
    let g1 = call_kw(m, "Normal", vec![], &[("mu", mu1), ("sigma", sigma1)]);
    m.set_type(g1, measure(reals(), Mass::Normalized));
    let x = m.intern("x");
    let xref = Ref { ns: RefNs::Local, name: x };
    let xnode = m.add_node(Node::Ref(xref));
    let body = score(m, xnode);
    let f = m.intern("functionof");
    let fun = m.add_node(Node::Call(Call {
        head: CallHead::Builtin(f),
        args: vec![body],
        named: Vec::new(),
        inputs: Some(Inputs::Spec(vec![(x, xref)])),
    }));
    let lw = build_call(m, "logweighted", &[fun, g1]);
    (lw, g1)
}

#[test]
fn gaussian_product_is_recognized_in_either_form() {
    let mut m = Module::new();
    let mu1 = real_lit(&mut m, 0.0);
    let sigma1 = real_lit(&mut m, 1.0);
    let mu2 = real_lit(&mut m, 2.0);
    let sigma2 = real_lit(&mut m, 3.0);
    let (lw, g1) = product(&mut m, mu1, sigma1, &|m, x| {
        let g2 = call_kw(m, "Normal", vec![], &[("mu", mu2), ("sigma", sigma2)]);
        build_call(m, "logdensityof", &[g2, x])
    });
    let gp = recognize_gaussian_product(&mut m, lw, &normal_params()).expect("unlowered body");
    assert_eq!(gp, GaussianProduct { g1, mu1, sigma1, mu2, sigma2 });

    // The body already lowered to `builtin_logdensityof(Normal, record(…), x)`.
    let (lw, g1) = product(&mut m, mu1, sigma1, &|m, x| {
        let k = m.intern("Normal");
        let kernel = m.add_node(Node::Const(k));
        let mu = m.intern("mu");
        let sigma = m.intern("sigma");
        let rec = m.intern("record");
        let input = m.add_node(Node::Call(Call {
            head: CallHead::Builtin(rec),
            args: vec![],
            named: vec![
                NamedArg { kind: NamedKind::Field, name: mu, value: mu2 },
                NamedArg { kind: NamedKind::Field, name: sigma, value: sigma2 },
            ],
            inputs: None,
        }));
        build_call(m, "builtin_logdensityof", &[kernel, input, x])
    });
    let gp = recognize_gaussian_product(&mut m, lw, &normal_params()).expect("lowered body");
    assert_eq!(gp, GaussianProduct { g1, mu1, sigma1, mu2, sigma2 });
}

#[test]
fn gaussian_product_needs_a_second_factor_of_the_variate() {
    let mut m = Module::new();
    let mu1 = real_lit(&mut m, 0.0);
    let sigma1 = real_lit(&mut m, 1.0);
    let sigma2 = real_lit(&mut m, 3.0);
    // mu2 = x: N(x; x, sigma2) is a constant, not a factor of x.
    let (lw, _) = product(&mut m, mu1, sigma1, &|m, x| {
        let g2 = call_kw(m, "Normal", vec![], &[("mu", x), ("sigma", sigma2)]);
        build_call(m, "logdensityof", &[g2, x])
    });
    assert_eq!(recognize_gaussian_product(&mut m, lw, &normal_params()), None);
    // Scored at a constant rather than at x.
    let (lw, _) = product(&mut m, mu1, sigma1, &|m, _x| {
        let g2 = call_kw(m, "Normal", vec![], &[("mu", mu1), ("sigma", sigma2)]);
        build_call(m, "logdensityof", &[g2, mu1])
    });
    assert_eq!(recognize_gaussian_product(&mut m, lw, &normal_params()), None);
    // A non-Gaussian second factor.
    let (lw, _) = product(&mut m, mu1, sigma1, &|m, x| {
        let e = call_kw(m, "Exponential", vec![], &[("rate", sigma2)]);
        build_call(m, "logdensityof", &[e, x])
    });
    assert_eq!(recognize_gaussian_product(&mut m, lw, &normal_params()), None);
}

#[test]
fn normalize_of_a_gaussian_product_subtracts_the_overlap() {
    let mut m = Module::new();
    let mu1 = real_lit(&mut m, 0.0);
    let sigma1 = real_lit(&mut m, 1.0);
    let mu2 = real_lit(&mut m, 2.0);
    let sigma2 = real_lit(&mut m, 3.0);
    let (lw, g1) = product(&mut m, mu1, sigma1, &|m, x| {
        let g2 = call_kw(m, "Normal", vec![], &[("mu", mu2), ("sigma", sigma2)]);
        build_call(m, "logdensityof", &[g2, x])
    });
    m.set_type(lw, measure(reals(), Mass::Finite));
    let normalize = build_call(&mut m, "normalize", &[lw]);
    let v = real_lit(&mut m, 0.5);
    let t = match lower_normalize(&mut m, normalize, v, &normal_params()) {
        Ok(NormalizeStep::Lowered(t)) => t,
        other => panic!("expected the finished product density, got {:?}", other),
    };
    let (head, outer) = call_of(&m, t);
    assert_eq!(head, "sub");
    let (head, sum) = call_of(&m, outer[0]);
    assert_eq!(head, "add");
    assert_eq!(normal_term_parts(&m, sum[0]), (mu1, sigma1, v));
    assert_eq!(normal_term_parts(&m, sum[1]), (mu2, sigma2, v));
    let (mu, sd, at) = normal_term_parts(&m, outer[1]);
    assert_eq!((mu, at), (mu2, mu1));
    let (head, var_sum) = call_of(&m, sd);
    assert_eq!(head, "sqrt");
    let (head, vars) = call_of(&m, var_sum[0]);
    assert_eq!(head, "add");
    let (head, p1) = call_of(&m, vars[0]);
    assert_eq!(head, "pow");
    assert_eq!(p1[0], sigma1);
    assert!(is_two(&m, p1[1]));
    let (head, p2) = call_of(&m, vars[1]);
    assert_eq!(head, "pow");
    assert_eq!(p2[0], sigma2);
    assert!(is_two(&m, p2[1]));
    let _ = g1;
}

#[test]
fn gaussian_product_density_refuses_a_variate_of_another_kind() {
    let mut m = Module::new();
    let mu1 = real_lit(&mut m, 0.0);
    let sigma1 = real_lit(&mut m, 1.0);
    let g1 = call_kw(&mut m, "Normal", vec![], &[("mu", mu1), ("sigma", sigma1)]);
    m.set_type(g1, measure(reals(), Mass::Normalized));
    let v = m.add_node(Node::Hole);
    m.set_type(v, Type::Record(vec![]));
    let gp = GaussianProduct { g1, mu1, sigma1, mu2: mu1, sigma2: sigma1 };
    let e = gaussian_product_density(&mut m, gp, v, &normal_params()).expect_err("record variate");
    assert_eq!(e.node, v);
    assert_eq!(e.reason, "variate type does not match the measure's domain");
}
