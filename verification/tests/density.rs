use determinizer::density::{
    build_density_term, int_literal_vector, normalize_selected_indices, recognize_convex_superposition,
    recognize_get_projection, refuse_point_length_mismatch, split_kernel_constructor,
    string_literal_vector, theta_field_map, variate_kind, weight_is_variate_dependent, Selector,
    VariateKind,
};
use determinizer::ir::{
    Binding, Call, CallHead, Dim, Inputs, Mass, Module, NamedArg, NamedKind, Node, NodeId, Ref,
    RefNs, Scalar, ScalarType, Symbol, Type,
};

fn call_kw(m: &mut Module, head: &str, args: Vec<NodeId>, kwargs: &[(&str, NodeId)]) -> NodeId {
    let h = m.intern(head);
    let mut named = Vec::new();
    for (n, v) in kwargs {
        let s = m.intern(n);
        named.push(NamedArg { kind: NamedKind::Kwarg, name: s, value: *v });
    }
    m.add_node(Node::Call(Call { head: CallHead::Builtin(h), args, named, inputs: None }))
}

fn int_node(m: &mut Module, i: i64) -> NodeId {
    m.add_node(Node::Lit(Scalar::Int(i)))
}

fn str_node(m: &mut Module, s: &str) -> NodeId {
    m.add_node(Node::Lit(Scalar::Str(s.to_string())))
}

fn local_ref(m: &mut Module, name: &str) -> (Ref, NodeId) {
    let s = m.intern(name);
    let r = Ref { ns: RefNs::Local, name: s };
    (r, m.add_node(Node::Ref(r)))
}

fn bind(m: &mut Module, name: &str, rhs: NodeId) {
    let s = m.intern(name);
    m.add_binding(Binding { name: s, rhs, doc: None, public: true, synthetic: false });
}

fn names(m: &Module, args: &[(Symbol, NodeId)]) -> Vec<String> {
    args.iter().map(|(s, _)| m.resolve(*s).to_string()).collect()
}

fn normal_params() -> Option<Vec<String>> {
    Some(vec!["mu".to_string(), "sigma".to_string()])
}

fn real_scalar() -> Type {
    Type::Scalar(ScalarType::Real)
}

#[test]
fn variate_kinds() {
    assert_eq!(variate_kind(&real_scalar()), Some(VariateKind::Scalar));
    assert_eq!(
        variate_kind(&Type::Array { shape: vec![Dim::Dynamic], elem: Box::new(real_scalar()) }),
        Some(VariateKind::Vector)
    );
    assert_eq!(variate_kind(&Type::Record(vec![])), Some(VariateKind::Record));
    assert_eq!(variate_kind(&Type::Table { columns: vec![] }), Some(VariateKind::Table));
    assert_eq!(variate_kind(&Type::Deferred), None);
    assert_eq!(variate_kind(&Type::Any), None);
}

#[test]
fn keyword_constructor_reads_as_written() {
    let mut m = Module::new();
    let a = int_node(&mut m, 0);
    let b = int_node(&mut m, 1);
    let n = call_kw(&mut m, "Normal", vec![], &[("sigma", b), ("mu", a)]);
    let (sym, args) = split_kernel_constructor(&mut m, n, &None).expect("keyword form");
    assert_eq!(m.resolve(sym), "Normal");
    assert_eq!(names(&m, &args), vec!["sigma", "mu"]);
    assert_eq!(args[0].1, b);
    assert_eq!(args[1].1, a);
}

#[test]
fn positional_constructor_binds_parameters_in_order() {
    let mut m = Module::new();
    let a = int_node(&mut m, 0);
    let b = int_node(&mut m, 1);
    let n = call_kw(&mut m, "Normal", vec![a], &[("sigma", b)]);
    let (_, args) = split_kernel_constructor(&mut m, n, &normal_params()).expect("mixed form");
    assert_eq!(names(&m, &args), vec!["mu", "sigma"]);
    assert_eq!(args[0].1, a);
    assert_eq!(args[1].1, b);
    // Without the constructor's parameter names a positional call does not read.
    assert!(split_kernel_constructor(&mut m, n, &None).is_none());
}

#[test]
fn constructor_refusals() {
    let mut m = Module::new();
    let a = int_node(&mut m, 0);
    let b = int_node(&mut m, 1);
    let c = int_node(&mut m, 2);
    // Too many positional arguments.
    let many = call_kw(&mut m, "Normal", vec![a, b, c], &[]);
    assert!(split_kernel_constructor(&mut m, many, &normal_params()).is_none());
    // A parameter bound positionally and by keyword.
    let twice = call_kw(&mut m, "Normal", vec![a], &[("mu", b)]);
    assert!(split_kernel_constructor(&mut m, twice, &normal_params()).is_none());
    // A field entry is not a keyword argument.
    let h = m.intern("Normal");
    let f = m.intern("mu");
    let field = m.add_node(Node::Call(Call {
        head: CallHead::Builtin(h),
        args: vec![],
        named: vec![NamedArg { kind: NamedKind::Field, name: f, value: a }],
        inputs: None,
    }));
    assert!(split_kernel_constructor(&mut m, field, &normal_params()).is_none());
    // Not a call.
    assert!(split_kernel_constructor(&mut m, a, &normal_params()).is_none());
}

#[test]
fn record_argument_spreads_over_the_parameters() {
    let mut m = Module::new();
    let p = m.add_node(Node::Hole);
    let mu = m.intern("mu");
    let sigma = m.intern("sigma");
    m.set_type(p, Type::Record(vec![(sigma, real_scalar()), (mu, real_scalar())]));
    let n = call_kw(&mut m, "Normal", vec![p], &[]);
    let (_, args) = split_kernel_constructor(&mut m, n, &normal_params()).expect("auto-splat");
    assert_eq!(names(&m, &args), vec!["mu", "sigma"]);
    for (k, field) in ["mu", "sigma"].iter().enumerate() {
        match m.node(args[k].1) {
            Node::Call(c) => {
                assert_eq!(c.args[0], p);
                assert!(matches!(m.node(c.args[1]), Node::Lit(Scalar::Str(s)) if s == field));
            }
            other => panic!("expected a get call, got {:?}", other),
        }
    }
}

#[test]
fn density_term_scores_the_constructor_record() {
    let mut m = Module::new();
    let a = int_node(&mut m, 0);
    let b = int_node(&mut m, 1);
    let n = call_kw(&mut m, "Normal", vec![], &[("mu", a), ("sigma", b)]);
    let x = m.add_node(Node::Hole);
    let t = build_density_term(&mut m, n, x, &None).expect("a keyword constructor scores");
    match m.node(t) {
        Node::Call(c) => {
            assert!(matches!(c.head, CallHead::Builtin(s) if m.resolve(s) == "builtin_logdensityof"));
            assert_eq!(c.args.len(), 3);
            assert!(matches!(m.node(c.args[0]), Node::Const(s) if m.resolve(*s) == "Normal"));
            match m.node(c.args[1]) {
                Node::Call(r) => {
                    assert_eq!(r.named.len(), 2);
                    assert_eq!(r.named[0].kind, NamedKind::Field);
                    assert_eq!(m.resolve(r.named[0].name), "mu");
                    assert_eq!(r.named[0].value, a);
                    assert_eq!(r.named[1].value, b);
                }
                other => panic!("expected the kernel input record, got {:?}", other),
            }
            assert_eq!(c.args[2], x);
        }
        other => panic!("expected builtin_logdensityof, got {:?}", other),
    }
}

#[test]
fn density_term_refuses_a_point_of_another_kind() {
    let mut m = Module::new();
    let a = int_node(&mut m, 0);
    let n = call_kw(&mut m, "Normal", vec![], &[("mu", a)]);
    m.set_type(n, Type::Measure { domain: Box::new(real_scalar()), mass: Mass::Normalized });
    let x = m.add_node(Node::Hole);
    m.set_type(x, Type::Record(vec![]));
    let e = build_density_term(&mut m, n, x, &None).expect_err("kind mismatch");
    assert_eq!(e.node, x);
    assert_eq!(e.reason, "variate type does not match the measure's domain");

    let y = m.add_node(Node::Hole);
    let e = build_density_term(&mut m, y, x, &None).expect_err("not a constructor");
    assert_eq!(e.node, y);
    assert_eq!(
        e.reason,
        "primitive measure must be a built-in constructor call with well-formed positional or keyword arguments"
    );
}

/// `fn(get(_, sel))` with the selector in its many forms.
fn projection(m: &mut Module, head: &str, sel: Vec<NodeId>, kw: bool) -> NodeId {
    let (r, x) = local_ref(m, "x");
    let mut args = vec![x];
    args.extend(sel);
    let body = if kw {
        let one = int_node(m, 1);
        call_kw(m, head, args, &[("axis", one)])
    } else {
        call_kw(m, head, args, &[])
    };
    let f = m.intern("functionof");
    let xs = m.intern("x");
    m.add_node(Node::Call(Call {
        head: CallHead::Builtin(f),
        args: vec![body],
        named: vec![],
        inputs: Some(Inputs::Spec(vec![(xs, r)])),
    }))
}

#[test]
fn get_projection_selectors() {
    let mut m = Module::new();
    let a = str_node(&mut m, "a");
    let c = str_node(&mut m, "c");
    let names_vec = call_kw(&mut m, "vector", vec![a, c], &[]);
    let f = projection(&mut m, "get", vec![names_vec], false);
    let p = recognize_get_projection(&m, f).expect("field subset");
    assert!(p.subset);
    assert!(matches!(p.sel, Selector::Names(ref v) if v == &vec!["a".to_string(), "c".to_string()]));

    let one = int_node(&mut m, 1);
    let three = int_node(&mut m, 3);
    let ints = call_kw(&mut m, "vector", vec![one, three], &[]);
    let f = projection(&mut m, "get0", vec![ints], false);
    let p = recognize_get_projection(&m, f).expect("index subset");
    assert!(p.subset);
    assert!(matches!(p.sel, Selector::Indices { ref raw, one_based: false } if raw == &vec![1, 3]));

    let single = int_node(&mut m, 2);
    let f = projection(&mut m, "get", vec![single], false);
    let p = recognize_get_projection(&m, f).expect("single element");
    assert!(!p.subset);
    assert!(matches!(p.sel, Selector::Indices { ref raw, one_based: true } if raw == &vec![2]));

    let mixed = call_kw(&mut m, "vector", vec![a, one], &[]);
    let f = projection(&mut m, "get", vec![mixed], false);
    let p = recognize_get_projection(&m, f).expect("mixed vector");
    assert!(matches!(
        p.sel,
        Selector::Unsupported("a selector vector that is not all field names or all integer indices")
    ));

    let all = m.intern("all");
    let all_node = m.add_node(Node::Const(all));
    let f = projection(&mut m, "get", vec![all_node], false);
    let p = recognize_get_projection(&m, f).expect("axis keyword");
    assert!(matches!(p.sel, Selector::Unsupported("the `all` axis keyword")));

    let f = projection(&mut m, "get", vec![names_vec], true);
    let p = recognize_get_projection(&m, f).expect("keyword selector");
    assert!(matches!(p.sel, Selector::Unsupported("a keyword selector argument")));

    let f = projection(&mut m, "get", vec![ints, one], false);
    let p = recognize_get_projection(&m, f).expect("two axes");
    assert!(matches!(
        p.sel,
        Selector::Unsupported("a multi-axis selector (more than one selector argument)")
    ));

    let f = projection(&mut m, "get", vec![], false);
    let p = recognize_get_projection(&m, f).expect("no selector");
    assert!(matches!(p.sel, Selector::Unsupported("no selector argument")));

    // A transform around the input, or another head, is not a projection.
    let f = projection(&mut m, "exp", vec![], false);
    assert!(recognize_get_projection(&m, f).is_none());
}

#[test]
fn literal_vectors() {
    let mut m = Module::new();
    let a = str_node(&mut m, "a");
    let one = int_node(&mut m, 1);
    let two = int_node(&mut m, 2);
    let ss = call_kw(&mut m, "vector", vec![a], &[]);
    let is = call_kw(&mut m, "vector", vec![one, two], &[]);
    let empty = call_kw(&mut m, "vector", vec![], &[]);
    assert_eq!(string_literal_vector(&m, ss), Some(vec!["a".to_string()]));
    assert_eq!(string_literal_vector(&m, is), None);
    assert_eq!(int_literal_vector(&m, is), Some(vec![1, 2]));
    assert_eq!(int_literal_vector(&m, ss), None);
    assert_eq!(int_literal_vector(&m, empty), None);
    assert_eq!(string_literal_vector(&m, empty), None);
}

#[test]
fn selected_indices_normalize_to_zero_based_positions() {
    let mut m = Module::new();
    let node = m.add_node(Node::Hole);
    assert_eq!(normalize_selected_indices(&m, node, &vec![3, 1], true, 3).unwrap(), vec![2, 0]);
    assert_eq!(normalize_selected_indices(&m, node, &vec![0, 2], false, 3).unwrap(), vec![0, 2]);
    let e = normalize_selected_indices(&m, node, &vec![1, 4], true, 3).unwrap_err();
    assert_eq!(
        e.reason,
        "structural projection selects index 4, outside 1..=3 for this 3-component product (`get` is 1-based indexing, §07 `get0`) — refuse rather than mislower"
    );
    let e = normalize_selected_indices(&m, node, &vec![-1], false, 2).unwrap_err();
    assert_eq!(
        e.reason,
        "structural projection selects index -1, outside 0..=1 for this 2-component product (`get0` is 0-based indexing, §07 `get0`) — refuse rather than mislower"
    );
    let e = normalize_selected_indices(&m, node, &vec![2, 1, 2], true, 3).unwrap_err();
    assert_eq!(
        e.reason,
        "structural projection selects index 2 twice — the sub-product would score that component twice, double-counting its density term — refuse rather than mislower"
    );
    assert_eq!(e.node, node);
}

#[test]
fn point_length_must_match_the_selection() {
    let mut m = Module::new();
    let v = m.add_node(Node::Hole);
    assert!(refuse_point_length_mismatch(&m, v, 2).is_ok());
    m.set_type(v, Type::Array { shape: vec![Dim::Static(3)], elem: Box::new(real_scalar()) });
    assert!(refuse_point_length_mismatch(&m, v, 3).is_ok());
    let e = refuse_point_length_mismatch(&m, v, 2).unwrap_err();
    assert_eq!(
        e.reason,
        "structural projection selects 2 component(s) but the query point has 3 — the projected variate is the sub-product over the selected components, so a longer point would have its tail silently dropped — refuse rather than mislower"
    );
    let w = m.add_node(Node::Hole);
    m.set_type(w, Type::Array { shape: vec![Dim::Dynamic], elem: Box::new(real_scalar()) });
    assert!(refuse_point_length_mismatch(&m, w, 5).is_ok());
}

#[test]
fn weights_that_are_functions_of_the_variate() {
    let mut m = Module::new();
    let c = int_node(&mut m, 2);
    assert!(!weight_is_variate_dependent(&m, c));
    let f = m.add_node(Node::Hole);
    m.set_type(f, Type::Function);
    assert!(weight_is_variate_dependent(&m, f));
    let (_, x) = local_ref(&mut m, "x");
    let fo = m.intern("functionof");
    let reif = m.add_node(Node::Call(Call {
        head: CallHead::Builtin(fo),
        args: vec![x],
        named: vec![],
        inputs: Some(Inputs::Auto),
    }));
    bind(&mut m, "w", reif);
    let s = m.intern("w");
    let wref = m.add_node(Node::Ref(Ref { ns: RefNs::SelfMod, name: s }));
    assert!(weight_is_variate_dependent(&m, wref));
}

#[test]
fn convex_superposition_of_normalized_mixands() {
    let mut m = Module::new();
    let a = m.add_node(Node::Hole);
    m.set_type(a, Type::Measure { domain: Box::new(real_scalar()), mass: Mass::Normalized });
    let b = m.add_node(Node::Hole);
    m.set_type(b, Type::Measure { domain: Box::new(real_scalar()), mass: Mass::Normalized });
    let w1 = int_node(&mut m, 1);
    let w2 = int_node(&mut m, 3);
    let c1 = call_kw(&mut m, "weighted", vec![w1, a], &[]);
    let c2 = call_kw(&mut m, "weighted", vec![w2, b], &[]);
    let sup = call_kw(&mut m, "superpose", vec![c1, c2], &[]);
    assert_eq!(recognize_convex_superposition(&m, sup), Some(vec![w1, w2]));
    let unweighted = call_kw(&mut m, "superpose", vec![c1, b], &[]);
    assert_eq!(recognize_convex_superposition(&m, unweighted), None);
    let lonely = call_kw(&mut m, "superpose", vec![c1], &[]);
    assert_eq!(recognize_convex_superposition(&m, lonely), None);
    let finite = m.add_node(Node::Hole);
    m.set_type(finite, Type::Measure { domain: Box::new(real_scalar()), mass: Mass::Finite });
    let c3 = call_kw(&mut m, "weighted", vec![w2, finite], &[]);
    let unnormalized = call_kw(&mut m, "superpose", vec![c1, c3], &[]);
    assert_eq!(recognize_convex_superposition(&m, unnormalized), None);
}

#[test]
fn theta_point_fields_must_name_bindings() {
    let mut m = Module::new();
    let v1 = int_node(&mut m, 1);
    bind(&mut m, "theta1", v1);
    let rec_head = m.intern("record");
    let t1 = m.intern("theta1");
    let t9 = m.intern("theta9");
    let x = int_node(&mut m, 5);
    let y = int_node(&mut m, 6);
    let good = m.add_node(Node::Call(Call {
        head: CallHead::Builtin(rec_head),
        args: vec![],
        named: vec![NamedArg { kind: NamedKind::Field, name: t1, value: x }],
        inputs: None,
    }));
    assert_eq!(theta_field_map(&m, good).unwrap(), vec![(t1, x)]);
    let bad = m.add_node(Node::Call(Call {
        head: CallHead::Builtin(rec_head),
        args: vec![],
        named: vec![
            NamedArg { kind: NamedKind::Field, name: t1, value: x },
            NamedArg { kind: NamedKind::Field, name: t9, value: y },
        ],
        inputs: None,
    }));
    let e = theta_field_map(&m, bad).unwrap_err();
    assert_eq!(e.node, y);
    assert_eq!(e.reason, "θ names a parameter with no module binding");
    let e = theta_field_map(&m, x).unwrap_err();
    assert_eq!(e.node, x);
    assert_eq!(e.reason, "logdensityof(L, θ): θ must be a record");
}

