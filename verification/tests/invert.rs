use determinizer::chain::{lower_chain, trajectory_density, ChainKind, KernelBoundary};
use determinizer::invert::{
    pushfwd_plan, PushfwdPlan,
    apply_inverse, chain_domain, classify, flatten_chain, invert_chain, refuse_support, unary_entry, ChainOp, Domain,
    UnaryOp,
};
use determinizer::density::Selector;
use determinizer::ir::{Call, CallHead, Inputs, Module, NamedArg, Node, NodeId, Ref, RefNs, Scalar, Symbol};
use determinizer::shape::build_call;

fn call_of(m: &Module, id: NodeId) -> (String, Vec<NodeId>) {
    match m.node(id) {
        Node::Call(c) => {
            let head = match c.head {
                CallHead::Builtin(s) => m.resolve(s).to_string(),
                CallHead::User(_) => "user-call".to_string(),
            };
            (head, c.args.clone())
        }
        other => panic!("expected a call, got {:?}", other),
    }
}

fn real_node(m: &mut Module, x: f64) -> NodeId {
    m.add_node(Node::Lit(Scalar::Real(x.to_bits())))
}

fn placeholder(m: &mut Module) -> (Symbol, NodeId) {
    let ph = m.intern("_x_");
    let r = m.add_node(Node::Ref(Ref { ns: RefNs::Local, name: ph }));
    (ph, r)
}

fn int_lit(m: &Module, id: NodeId) -> i64 {
    match m.node(id) {
        Node::Lit(Scalar::Int(i)) => *i,
        other => panic!("expected an integer literal, got {:?}", other),
    }
}

fn real_bits(m: &Module, id: NodeId) -> u64 {
    match m.node(id) {
        Node::Lit(Scalar::Real(b)) => *b,
        other => panic!("expected a real literal, got {:?}", other),
    }
}

#[test]
fn registry_lookup_by_name() {
    assert_eq!(unary_entry("log"), Some(UnaryOp::Log));
    assert_eq!(unary_entry("invprobit"), Some(UnaryOp::Invprobit));
    assert_eq!(unary_entry("tan"), None);
    assert_eq!(UnaryOp::Log10.domain(), Some(Domain::PosReals));
    assert_eq!(UnaryOp::Exp.domain(), None);
    assert_eq!(UnaryOp::Tanh.inverse_name(), Some("atanh"));
    assert_eq!(UnaryOp::Sqrt.inverse_name(), None);
}

#[test]
fn chain_flattens_outermost_first() {
    // exp(2.0 * x + 1.0)
    let mut m = Module::new();
    let (ph, x) = placeholder(&mut m);
    let two = real_node(&mut m, 2.0);
    let scaled = build_call(&mut m, "mul", &[two, x]);
    let one = real_node(&mut m, 1.0);
    let shifted = build_call(&mut m, "add", &[scaled, one]);
    let body = build_call(&mut m, "exp", &[shifted]);
    let ops = flatten_chain(&m, body, ph).unwrap().unwrap();
    assert_eq!(ops, vec![ChainOp::Registry(UnaryOp::Exp), ChainOp::AddLit(one), ChainOp::MulByLit(two)]);
}

#[test]
fn chain_with_user_call_is_unrecognised() {
    let mut m = Module::new();
    let (ph, x) = placeholder(&mut m);
    let f = m.intern("f");
    let fv = m.add_node(Node::Const(f));
    let app = m.add_node(Node::Call(Call { head: CallHead::User(fv), args: vec![x], named: Vec::<NamedArg>::new(), inputs: None }));
    let body = build_call(&mut m, "log", &[app]);
    assert!(flatten_chain(&m, body, ph).unwrap().is_none());
}

#[test]
fn zero_scale_refuses() {
    let mut m = Module::new();
    let (_, x) = placeholder(&mut m);
    let zero = real_node(&mut m, -0.0);
    let body = build_call(&mut m, "mul", &[zero, x]);
    let e = classify(&m, body).unwrap_err();
    assert_eq!(e.node, body);
    assert_eq!(e.construct, "mul");
    assert!(e.reason.starts_with("mul with two non-literal"));
}

#[test]
fn reciprocal_and_pow_refuse() {
    let mut m = Module::new();
    let (ph, x) = placeholder(&mut m);
    let c = real_node(&mut m, 3.0);
    let recip = build_call(&mut m, "divide", &[c, x]);
    let e = flatten_chain(&m, recip, ph).unwrap_err();
    assert!(e.reason.starts_with("divide is an invertible affine map only"));
    let k = real_node(&mut m, 2.0);
    let p = build_call(&mut m, "pow", &[x, k]);
    let outer = build_call(&mut m, "exp", &[p]);
    let e = flatten_chain(&m, outer, ph).unwrap_err();
    assert_eq!(e.node, p);
    assert!(e.reason.starts_with("pow inside a composition"));
    let s = build_call(&mut m, "sin", &[x]);
    let e = classify(&m, s).unwrap_err();
    assert!(e.reason.starts_with("forward op is a recognised builtin with no analytic inverse"));
}

#[test]
fn reflect_and_shift_classify() {
    let mut m = Module::new();
    let (_, x) = placeholder(&mut m);
    let c = m.add_node(Node::Lit(Scalar::Int(5)));
    let reflect = build_call(&mut m, "sub", &[c, x]);
    assert_eq!(classify(&m, reflect).unwrap(), Some((ChainOp::RSubLit(c), x)));
    let shift = build_call(&mut m, "sub", &[x, c]);
    assert_eq!(classify(&m, shift).unwrap(), Some((ChainOp::SubLit(c), x)));
    let both = build_call(&mut m, "add", &[c, c]);
    assert!(classify(&m, both).is_err());
}

#[test]
fn inverse_walk_threads_each_inverse() {
    // forward exp(2.0 * x): inverse divide(log(y), 2.0)
    let mut m = Module::new();
    let (ph, x) = placeholder(&mut m);
    let two = real_node(&mut m, 2.0);
    let scaled = build_call(&mut m, "mul", &[two, x]);
    let body = build_call(&mut m, "exp", &[scaled]);
    let ops = flatten_chain(&m, body, ph).unwrap().unwrap();
    let (_, y) = placeholder(&mut m);
    let accs = invert_chain(&mut m, &ops, y);
    assert_eq!(accs.len(), 3);
    assert_eq!(accs[0], y);
    assert_eq!(call_of(&m, accs[1]), ("log".to_string(), vec![y]));
    assert_eq!(call_of(&m, accs[2]), ("divide".to_string(), vec![accs[1], two]));
}

#[test]
fn sqrt_and_log10_invert_to_pow() {
    let mut m = Module::new();
    let (_, y) = placeholder(&mut m);
    let s = apply_inverse(&mut m, ChainOp::Registry(UnaryOp::Sqrt), y);
    let (head, args) = call_of(&m, s);
    assert_eq!(head, "pow");
    assert_eq!(args[0], y);
    assert_eq!(real_bits(&m, args[1]), 2.0f64.to_bits());
    let l = apply_inverse(&mut m, ChainOp::Registry(UnaryOp::Log10), y);
    let (head, args) = call_of(&m, l);
    assert_eq!(head, "pow");
    assert_eq!(real_bits(&m, args[0]), 10.0f64.to_bits());
    assert_eq!(args[1], y);
}

#[test]
fn restricted_op_inside_composition_refuses() {
    // exp(log(x)): log is restricted and not innermost... here log IS innermost
    let mut m = Module::new();
    let (ph, x) = placeholder(&mut m);
    let inner = build_call(&mut m, "log", &[x]);
    let body = build_call(&mut m, "exp", &[inner]);
    let ops = flatten_chain(&m, body, ph).unwrap().unwrap();
    assert_eq!(chain_domain(&m, body, &ops).unwrap(), Some((UnaryOp::Log, Domain::PosReals)));
    // log(exp(x)): log sits outside
    let e2 = build_call(&mut m, "exp", &[x]);
    let body2 = build_call(&mut m, "log", &[e2]);
    let ops2 = flatten_chain(&m, body2, ph).unwrap().unwrap();
    let e = chain_domain(&m, body2, &ops2).unwrap_err();
    assert_eq!(e.node, body2);
    assert_eq!(
        e.reason,
        "log is restricted to the positive reals and sits inside a composition, where its input is an intermediate value this pass cannot bound"
    );
    let unrestricted = build_call(&mut m, "exp", &[x]);
    let ops3 = flatten_chain(&m, unrestricted, ph).unwrap().unwrap();
    assert_eq!(chain_domain(&m, unrestricted, &ops3).unwrap(), None);
}

#[test]
fn support_refusal_names_the_domain() {
    let mut m = Module::new();
    let (_, x) = placeholder(&mut m);
    let body = build_call(&mut m, "logit", &[x]);
    let e = refuse_support(&m, body, UnaryOp::Logit, Domain::Unit);
    assert_eq!(
        e.reason,
        "a forward map through logit requires the base measure's support to lie within logit's domain, (0, 1) (a continuous base may touch 0 or 1)"
    );
}

fn chain_call(m: &mut Module, head: &str, k: NodeId, init: NodeId, third: NodeId) -> NodeId {
    build_call(m, head, &[k, init, third])
}

#[test]
fn markovchain_unrolls_one_application_per_step() {
    let mut m = Module::new();
    let kf = m.intern("K");
    let k = m.add_node(Node::Const(kf));
    let init = real_node(&mut m, 0.0);
    let n = m.add_node(Node::Lit(Scalar::Int(3)));
    let node = chain_call(&mut m, "markovchain", k, init, n);
    let vs = m.intern("v");
    let v = m.add_node(Node::Ref(Ref { ns: RefNs::SelfMod, name: vs }));
    let steps = lower_chain(&mut m, node, v, ChainKind::MarkovChain, Some(3), Some(KernelBoundary { auto: false, inputs: 1 })).unwrap();
    assert_eq!(steps.len(), 3);
    for (i, (step, cur)) in steps.iter().enumerate() {
        let (_, slot) = call_of(&m, *cur);
        assert_eq!(slot[0], v);
        assert_eq!(int_lit(&m, slot[1]), i as i64);
        match m.node(*step) {
            Node::Call(c) => {
                assert_eq!(c.head, CallHead::User(k));
                assert_eq!(c.args.len(), 1);
                if i == 0 {
                    assert_eq!(c.args[0], init);
                } else {
                    let (h, prev) = call_of(&m, c.args[0]);
                    assert_eq!(h, "get0");
                    assert_eq!(prev[0], v);
                    assert_eq!(int_lit(&m, prev[1]), i as i64 - 1);
                }
            }
            other => panic!("expected a kernel application, got {:?}", other),
        }
    }
}

#[test]
fn kscan_feeds_each_input_slice() {
    let mut m = Module::new();
    let kf = m.intern("K");
    let k = m.add_node(Node::Const(kf));
    let init = real_node(&mut m, 0.0);
    let xs_s = m.intern("xs");
    let xs = m.add_node(Node::Ref(Ref { ns: RefNs::SelfMod, name: xs_s }));
    let node = chain_call(&mut m, "kscan", k, init, xs);
    let vs = m.intern("v");
    let v = m.add_node(Node::Ref(Ref { ns: RefNs::SelfMod, name: vs }));
    let steps = lower_chain(&mut m, node, v, ChainKind::KScan, Some(2), Some(KernelBoundary { auto: false, inputs: 2 })).unwrap();
    assert_eq!(steps.len(), 2);
    match m.node(steps[1].0) {
        Node::Call(c) => {
            let (h, x) = call_of(&m, c.args[1]);
            assert_eq!(h, "get0");
            assert_eq!(x[0], xs);
            assert_eq!(int_lit(&m, x[1]), 1);
        }
        other => panic!("expected a kernel application, got {:?}", other),
    }
}

#[test]
fn chain_refusals() {
    let mut m = Module::new();
    let kf = m.intern("K");
    let k = m.add_node(Node::Const(kf));
    let init = real_node(&mut m, 0.0);
    let n = m.add_node(Node::Lit(Scalar::Int(3)));
    let node = chain_call(&mut m, "markovchain", k, init, n);
    let v = real_node(&mut m, 1.0);
    let e = lower_chain(&mut m, node, v, ChainKind::MarkovChain, None, Some(KernelBoundary { auto: false, inputs: 1 })).unwrap_err();
    assert!(e.reason.starts_with("markovchain trajectory length is not a statically-resolved 1-D count"));
    let e = lower_chain(&mut m, node, v, ChainKind::MarkovChain, Some(3), None).unwrap_err();
    assert_eq!(e.reason, "markovchain kernel is not a functionof/kernelof with boundary inputs");
    let e = lower_chain(&mut m, node, v, ChainKind::MarkovChain, Some(3), Some(KernelBoundary { auto: true, inputs: 1 })).unwrap_err();
    assert!(e.reason.starts_with("markovchain kernel has an `%autoinputs`"));
    let e = lower_chain(&mut m, node, v, ChainKind::MarkovChain, Some(3), Some(KernelBoundary { auto: false, inputs: 2 })).unwrap_err();
    assert_eq!(e.reason, "markovchain kernel takes 2 boundary input(s), but §06 gives it 1");
    let short = build_call(&mut m, "kscan", &[k, init]);
    let e = lower_chain(&mut m, short, v, ChainKind::KScan, Some(3), Some(KernelBoundary { auto: false, inputs: 2 })).unwrap_err();
    assert_eq!(e.reason, "kscan expects 3 positional args (kernel, init, xs)");
    let e = lower_chain(&mut m, v, v, ChainKind::KScan, Some(3), None).unwrap_err();
    assert_eq!(e.reason, "expected a chain call");
}

#[test]
fn empty_trajectory_has_zero_log_density() {
    let mut m = Module::new();
    let kf = m.intern("K");
    let k = m.add_node(Node::Const(kf));
    let init = real_node(&mut m, 0.0);
    let n = m.add_node(Node::Lit(Scalar::Int(0)));
    let node = chain_call(&mut m, "markovchain", k, init, n);
    let v = real_node(&mut m, 1.0);
    let steps = lower_chain(&mut m, node, v, ChainKind::MarkovChain, Some(0), Some(KernelBoundary { auto: false, inputs: 1 })).unwrap();
    assert!(steps.is_empty());
    let d = trajectory_density(&mut m, &Vec::new());
    assert_eq!(real_bits(&m, d), 0.0f64.to_bits());
    let a = real_node(&mut m, 1.5);
    let b = real_node(&mut m, 2.5);
    let s = trajectory_density(&mut m, &vec![a, b]);
    assert_eq!(call_of(&m, s), ("add".to_string(), vec![a, b]));
}

fn base_measure(m: &mut Module) -> NodeId {
    let n = m.intern("Normal");
    m.add_node(Node::Const(n))
}

#[test]
fn pushfwd_with_explicit_bijection_hands_over_its_legs() {
    let mut m = Module::new();
    let names: Vec<NodeId> = ["exp", "log", "neg"].iter().map(|n| { let s = m.intern(n); m.add_node(Node::Const(s)) }).collect();
    let bij = build_call(&mut m, "bijection", &[names[0], names[1], names[2]]);
    let base = base_measure(&mut m);
    let node = build_call(&mut m, "pushfwd", &[bij, base]);
    match pushfwd_plan(&m, node).unwrap() {
        PushfwdPlan::Explicit { bij: b, forward, f_inv, logvol, inner } => {
            assert_eq!((b, forward, f_inv, logvol, inner), (bij, names[0], names[1], names[2], base));
        }
        other => panic!("expected an explicit bijection, got {:?}", other),
    }
    let short = build_call(&mut m, "bijection", &[names[0], names[1]]);
    let node = build_call(&mut m, "pushfwd", &[short, base]);
    let e = pushfwd_plan(&m, node).unwrap_err();
    assert_eq!(e.node, short);
    assert_eq!(e.reason, "bijection expects 3 args (f, f_inv, logvol)");
}

#[test]
fn pushfwd_of_builtin_is_derived() {
    let mut m = Module::new();
    let s = m.intern("exp");
    let f = m.add_node(Node::Const(s));
    let base = base_measure(&mut m);
    let node = build_call(&mut m, "pushfwd", &[f, base]);
    match pushfwd_plan(&m, node).unwrap() {
        PushfwdPlan::Derive { forward, resolved, inner } => assert_eq!((forward, resolved, inner), (f, f, base)),
        other => panic!("expected a derivation, got {:?}", other),
    }
    let bad = build_call(&mut m, "pushfwd", &[f]);
    assert_eq!(pushfwd_plan(&m, bad).unwrap_err().reason, "pushfwd expects 2 args");
    let e = pushfwd_plan(&m, base).unwrap_err();
    assert_eq!(e.reason, "expected pushfwd");
}

#[test]
fn pushfwd_of_get_is_a_projection() {
    let mut m = Module::new();
    let xs = m.intern("x");
    let r = Ref { ns: RefNs::Local, name: xs };
    let x = m.add_node(Node::Ref(r));
    let a = m.add_node(Node::Lit(Scalar::Str("a".to_string())));
    let body = build_call(&mut m, "get", &[x, a]);
    let fo = m.intern("functionof");
    let f = m.add_node(Node::Call(Call { head: CallHead::Builtin(fo), args: vec![body], named: vec![], inputs: Some(Inputs::Spec(vec![(xs, r)])) }));
    let base = base_measure(&mut m);
    let node = build_call(&mut m, "pushfwd", &[f, base]);
    match pushfwd_plan(&m, node).unwrap() {
        PushfwdPlan::Projection { proj, inner } => {
            assert_eq!(inner, base);
            assert!(!proj.subset);
            assert!(matches!(proj.sel, Selector::Names(ref v) if v == &vec!["a".to_string()]));
        }
        other => panic!("expected a projection, got {:?}", other),
    }
}
