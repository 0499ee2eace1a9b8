use determinizer::ir::{
    Binding, Call, CallHead, Dim, Mass, Module, NamedArg, NamedKind, Node, NodeId, Scalar,
    ScalarType, Symbol, Type,
};
use determinizer::projection::{
    field_draw_sites, identity_relabel, iid_static_size, independent_product_components,
    lower_index_projection, lower_named_projection, lower_projection_pushfwd,
    match_independent_record, refuse_jointchain_projection, refuse_jointchain_relabel_rename,
    resolve_component_draw, Component, IndexProjection, NamedProjection, ProjectionStep,
};
use determinizer::density::{GetProjection, Selector};
use determinizer::shape::build_call;

fn real_lit(m: &mut Module, x: f64) -> NodeId {
    m.add_node(Node::Lit(Scalar::Real(x.to_bits())))
}

fn str_lit(m: &mut Module, s: &str) -> NodeId {
    m.add_node(Node::Lit(Scalar::Str(s.to_string())))
}

fn keyword_call(m: &mut Module, head: &str, kind: NamedKind, entries: &[(&str, NodeId)]) -> NodeId {
    let h = m.intern(head);
    let mut named = Vec::new();
    for (n, v) in entries {
        let s = m.intern(n);
        named.push(NamedArg { kind, name: s, value: *v });
    }
    m.add_node(Node::Call(Call { head: CallHead::Builtin(h), args: vec![], named, inputs: None }))
}

fn normalized_reals() -> Type {
    Type::Measure { domain: Box::new(Type::Scalar(ScalarType::Real)), mass: Mass::Normalized }
}

fn leaf(m: &mut Module, mass: Mass) -> NodeId {
    let mu = real_lit(m, 0.0);
    let sigma = real_lit(m, 1.0);
    let n = keyword_call(m, "Normal", NamedKind::Kwarg, &[("mu", mu), ("sigma", sigma)]);
    m.set_type(n, Type::Measure { domain: Box::new(Type::Scalar(ScalarType::Real)), mass });
    n
}

fn bind(m: &mut Module, name: &str, rhs: NodeId) -> Symbol {
    let s = m.intern(name);
    m.add_binding(Binding { name: s, rhs, doc: None, public: true, synthetic: false });
    s
}

fn self_ref(m: &mut Module, name: Symbol) -> NodeId {
    m.add_node(Node::Ref(determinizer::ir::Ref { ns: determinizer::ir::RefNs::SelfMod, name }))
}

fn fields(names: &[&str]) -> Vec<String> {
    names.iter().map(|s| s.to_string()).collect()
}

/// The head and the named entries `(name, value)` of the call at `id`.
fn entries(m: &Module, id: NodeId) -> (String, Vec<(String, NodeId)>) {
    match m.node(id) {
        Node::Call(c) => {
            let head = match c.head {
                CallHead::Builtin(s) => m.resolve(s).to_string(),
                CallHead::User(_) => panic!("expected a built-in call"),
            };
            assert!(c.args.is_empty());
            (head, c.named.iter().map(|na| (m.resolve(na.name).to_string(), na.value)).collect())
        }
        other => panic!("expected a call, got {:?}", other),
    }
}

fn score(r: Result<NamedProjection, determinizer::refuse::RefuseError>) -> NodeId {
    match r {
        Ok(NamedProjection::Score(sub)) => sub,
        other => panic!("expected a sub-product to score, got {:?}", other),
    }
}

#[test]
fn keyword_joint_projects_onto_the_selected_fields_in_selection_order() {
    let mut m = Module::new();
    let a = leaf(&mut m, Mass::Normalized);
    let b = leaf(&mut m, Mass::Normalized);
    let c = leaf(&mut m, Mass::Normalized);
    let joint = keyword_call(&mut m, "joint", NamedKind::Field, &[("a", a), ("b", b), ("c", c)]);
    let sub = score(lower_named_projection(&mut m, joint, &fields(&["c", "a"])));
    assert!(sub.0 > joint.0);
    assert_eq!(entries(&m, sub), ("joint".to_string(), vec![("c".to_string(), c), ("a".to_string(), a)]));
}

#[test]
fn keyword_joint_selection_refusals() {
    let mut m = Module::new();
    let a = leaf(&mut m, Mass::Normalized);
    let b = leaf(&mut m, Mass::Normalized);
    let joint = keyword_call(&mut m, "joint", NamedKind::Field, &[("a", a), ("b", b)]);

    let e = lower_named_projection(&mut m, joint, &fields(&["a", "a"])).expect_err("duplicate");
    assert_eq!(e.node, joint);
    assert_eq!(e.construct, "joint");
    assert_eq!(
        e.reason,
        "projection selects a duplicate field `a` — the sub-product would score it twice, double-counting its density term — refuse rather than mislower"
    );

    let e = lower_named_projection(&mut m, joint, &fields(&["a", "z"])).expect_err("missing");
    assert_eq!(
        e.reason,
        "projection selects field `z` that is not a component of the product measure — refuse rather than mislower"
    );

    let pos = build_call(&mut m, "joint", &[a, b]);
    let e = lower_named_projection(&mut m, pos, &fields(&["a"])).expect_err("positional");
    assert_eq!(e.node, pos);
    assert_eq!(
        e.reason,
        "structural projection needs a FIELD-KEYED product; a positional joint has no field labels to select — refuse rather than mislower"
    );
}

#[test]
fn dropping_an_unnormalized_component_refuses() {
    let mut m = Module::new();
    let a = leaf(&mut m, Mass::Normalized);
    let w = leaf(&mut m, Mass::Finite);
    let joint = keyword_call(&mut m, "joint", NamedKind::Field, &[("a", a), ("w", w)]);
    let e = lower_named_projection(&mut m, joint, &fields(&["a"])).expect_err("unnormalized drop");
    assert_eq!(e.node, joint);
    assert_eq!(
        e.reason,
        "projection drops a non-normalized component (field `w`); the marginal is not closed-form here (§06 case 2 requires each dropped component to be a normalized probability measure) — refuse rather than mislower"
    );
    // Keeping it is fine: nothing unnormalized is dropped.
    let sub = score(lower_named_projection(&mut m, joint, &fields(&["w"])));
    assert_eq!(entries(&m, sub).1, vec![("w".to_string(), w)]);
}

#[test]
fn record_of_draws_reads_dropped_masses_through_the_draws() {
    let mut m = Module::new();
    let ma = leaf(&mut m, Mass::Normalized);
    let da = build_call(&mut m, "draw", &[ma]);
    let mb = leaf(&mut m, Mass::LocallyFinite);
    let db = build_call(&mut m, "draw", &[mb]);
    let rec = keyword_call(&mut m, "record", NamedKind::Field, &[("a", da), ("b", db)]);
    let e = lower_named_projection(&mut m, rec, &fields(&["a"])).expect_err("b is not normalized");
    assert!(e.reason.contains("field `b`"), "{e:?}");
    let sub = score(lower_named_projection(&mut m, rec, &fields(&["b"])));
    assert_eq!(entries(&m, sub), ("record".to_string(), vec![("b".to_string(), db)]));
}

#[test]
fn relabel_names_the_slots_of_an_iid() {
    let mut m = Module::new();
    let x = leaf(&mut m, Mass::Normalized);
    let three = m.add_node(Node::Lit(Scalar::Int(3)));
    let iid = build_call(&mut m, "iid", &[x, three]);
    m.set_type(
        iid,
        Type::Measure {
            domain: Box::new(Type::Array { shape: vec![Dim::Static(3)], elem: Box::new(Type::Scalar(ScalarType::Real)) }),
            mass: Mass::Normalized,
        },
    );
    assert_eq!(iid_static_size(&m, iid), Some(3));
    let la = str_lit(&mut m, "a");
    let lb = str_lit(&mut m, "b");
    let lc = str_lit(&mut m, "c");
    let labels = build_call(&mut m, "vector", &[la, lb, lc]);
    let relabel = build_call(&mut m, "relabel", &[iid, labels]);
    let sub = score(lower_named_projection(&mut m, relabel, &fields(&["a", "c"])));
    assert_eq!(entries(&m, sub), ("joint".to_string(), vec![("a".to_string(), x), ("c".to_string(), x)]));

    // Two labels for three slots.
    let two = build_call(&mut m, "vector", &[la, lb]);
    let short = build_call(&mut m, "relabel", &[iid, two]);
    let e = lower_named_projection(&mut m, short, &fields(&["a"])).expect_err("label count");
    assert_eq!(e.node, short);
    assert_eq!(
        e.reason,
        "relabel gives 2 label(s) for a 3-component product — a relabel names each component slot exactly once — refuse rather than mislower"
    );

    // Labels that are not string literals.
    let one = real_lit(&mut m, 1.0);
    let bad = build_call(&mut m, "vector", &[one]);
    let unlabeled = build_call(&mut m, "relabel", &[iid, bad]);
    let e = lower_named_projection(&mut m, unlabeled, &fields(&["a"])).expect_err("labels");
    assert_eq!(
        e.reason,
        "relabel labels must be a vector of string literals to name the projected product's component slots"
    );
}

#[test]
fn relabel_of_a_positional_joint_and_of_a_jointchain() {
    let mut m = Module::new();
    let a = leaf(&mut m, Mass::Normalized);
    let b = leaf(&mut m, Mass::Normalized);
    let joint = build_call(&mut m, "joint", &[a, b]);
    let lx = str_lit(&mut m, "x");
    let ly = str_lit(&mut m, "y");
    let labels = build_call(&mut m, "vector", &[lx, ly]);
    let relabel = build_call(&mut m, "relabel", &[joint, labels]);
    let sub = score(lower_named_projection(&mut m, relabel, &fields(&["y"])));
    assert_eq!(entries(&m, sub).1, vec![("y".to_string(), b)]);

    let chain = build_call(&mut m, "jointchain", &[a, b]);
    let over_chain = build_call(&mut m, "relabel", &[chain, labels]);
    match lower_named_projection(&mut m, over_chain, &fields(&["x"])) {
        Ok(NamedProjection::RelabeledJointchain { chain: c, labels: ls }) => {
            assert_eq!(c, chain);
            assert_eq!(ls, fields(&["x", "y"]));
        }
        other => panic!("expected the jointchain to be left to the caller, got {:?}", other),
    }
    match lower_named_projection(&mut m, chain, &fields(&["x"])) {
        Ok(NamedProjection::Jointchain(c)) => assert_eq!(c, chain),
        other => panic!("expected the jointchain to be left to the caller, got {:?}", other),
    }
}

#[test]
fn projection_off_a_non_product_refuses_by_name() {
    let mut m = Module::new();
    let a = leaf(&mut m, Mass::Normalized);
    let e = lower_named_projection(&mut m, a, &fields(&["a"])).expect_err("a leaf");
    assert_eq!(e.node, a);
    assert!(e.reason.contains("got `Normal`, which has no explicit product structure"), "{e:?}");
    let hole = m.add_node(Node::Hole);
    let e = lower_named_projection(&mut m, hole, &fields(&["a"])).expect_err("no call");
    assert!(e.reason.contains("got `<non-builtin>`"), "{e:?}");
}

#[test]
fn independent_components_of_relabel_bases() {
    let mut m = Module::new();
    let a = leaf(&mut m, Mass::Normalized);
    let b = leaf(&mut m, Mass::Normalized);
    let joint = build_call(&mut m, "joint", &[a, b]);
    assert_eq!(independent_product_components(&m, joint).expect("positional joint"), vec![a, b]);

    let kw = keyword_call(&mut m, "joint", NamedKind::Field, &[("a", a)]);
    let e = independent_product_components(&m, kw).expect_err("keyword joint");
    assert_eq!(
        e.reason,
        "relabel over a KEYWORD joint (already field-keyed) — project it by name directly rather than relabeling — refuse rather than mislower"
    );
    let lonely = build_call(&mut m, "joint", &[a]);
    let e = independent_product_components(&m, lonely).expect_err("one component");
    assert_eq!(e.reason, "joint needs at least 2 components");

    let n = m.add_node(Node::Lit(Scalar::Int(2)));
    let iid = build_call(&mut m, "iid", &[a, n]);
    let e = independent_product_components(&m, iid).expect_err("untyped iid");
    assert!(e.reason.starts_with("relabel over an iid whose size is not a statically-resolved 1-D count"));
    m.set_type(
        iid,
        Type::Measure {
            domain: Box::new(Type::Array { shape: vec![Dim::Dynamic], elem: Box::new(Type::Scalar(ScalarType::Real)) }),
            mass: Mass::Normalized,
        },
    );
    assert_eq!(iid_static_size(&m, iid), None);

    let chain = build_call(&mut m, "jointchain", &[a, b]);
    let e = independent_product_components(&m, chain).expect_err("jointchain");
    assert_eq!(e.reason, refuse_jointchain_projection(&m, chain).reason);
    assert!(e.reason.contains("DEPENDENT product"));

    let e = independent_product_components(&m, a).expect_err("a leaf");
    assert_eq!(
        e.reason,
        "relabel base `Normal` is not an INDEPENDENT index-keyed product (iid / positional joint) — no closed-form field-keyed marginal here — refuse rather than mislower"
    );
    let e = refuse_jointchain_relabel_rename(&m, chain);
    assert_eq!(e.node, chain);
    assert!(e.reason.contains("ill-formed rename"));
}

#[test]
fn identity_relabels_spell_the_chain_fields_in_order() {
    let mut m = Module::new();
    let a = m.intern("a");
    let b = m.intern("b");
    assert!(identity_relabel(&m, &vec![a, b], &fields(&["a", "b"])));
    assert!(!identity_relabel(&m, &vec![a, b], &fields(&["b", "a"])));
    assert!(!identity_relabel(&m, &vec![a, b], &fields(&["a"])));
    assert!(identity_relabel(&m, &vec![], &fields(&[])));
}

#[test]
fn draw_sites_and_component_draws() {
    let mut m = Module::new();
    let ma = leaf(&mut m, Mass::Normalized);
    let y1 = build_call(&mut m, "draw", &[ma]);
    let mb = leaf(&mut m, Mass::Normalized);
    let y2 = build_call(&mut m, "draw", &[mb]);
    let y1_name = bind(&mut m, "y1", y1);
    let r1 = self_ref(&mut m, y1_name);

    // Case A: a reference to a draw binding.
    let (measure, binding, transform, site) = resolve_component_draw(&m, r1).expect("case A");
    assert_eq!((measure, transform, site), (ma, None, y1));
    assert!(binding.is_some());
    // Case B: an inline draw.
    assert_eq!(resolve_component_draw(&m, y2), Some((mb, None, None, y2)));
    // Case C: a call over exactly one draw, reached through the binding twice.
    let two = real_lit(&mut m, 2.0);
    let scaled = build_call(&mut m, "mul", &[two, r1]);
    let shifted = build_call(&mut m, "add", &[scaled, r1]);
    assert_eq!(field_draw_sites(&m, shifted), vec![y1]);
    assert_eq!(resolve_component_draw(&m, shifted), Some((ma, None, Some(shifted), y1)));
    // Two draws: not a single component.
    let both = build_call(&mut m, "add", &[r1, y2]);
    assert_eq!(field_draw_sites(&m, both), vec![y1, y2]);
    assert_eq!(resolve_component_draw(&m, both), None);
    // A literal reaches no draw.
    assert_eq!(field_draw_sites(&m, two), Vec::<NodeId>::new());
    assert_eq!(resolve_component_draw(&m, two), None);
    // A reference to a name with no binding.
    let ghost_name = m.intern("nowhere");
    let dangling = self_ref(&mut m, ghost_name);
    assert_eq!(resolve_component_draw(&m, dangling), None);
    let _ = normalized_reals();
}

#[test]
fn draw_sites_stop_at_a_cyclic_binding() {
    let mut m = Module::new();
    let a = m.intern("a");
    let ra = self_ref(&mut m, a);
    let one = real_lit(&mut m, 1.0);
    let loop_rhs = build_call(&mut m, "add", &[ra, one]);
    m.add_binding(Binding { name: a, rhs: loop_rhs, doc: None, public: true, synthetic: false });
    assert_eq!(field_draw_sites(&m, ra), Vec::<NodeId>::new());
}

#[test]
fn independent_record_pairs_each_draw_with_its_value_field() {
    let mut m = Module::new();
    let ma = leaf(&mut m, Mass::Normalized);
    let da = build_call(&mut m, "draw", &[ma]);
    let mb = leaf(&mut m, Mass::Normalized);
    let db = build_call(&mut m, "draw", &[mb]);
    let b_name = bind(&mut m, "b", db);
    let rb = self_ref(&mut m, b_name);
    let rec = keyword_call(&mut m, "record", NamedKind::Field, &[("a", da), ("b", rb)]);
    let va = real_lit(&mut m, 0.5);
    let vb = real_lit(&mut m, 1.5);
    let value = keyword_call(&mut m, "record", NamedKind::Field, &[("b", vb), ("a", va)]);
    let theta = bind(&mut m, "theta", value);
    let theta_ref = self_ref(&mut m, theta);
    let cs = match_independent_record(&m, rec, theta_ref).expect("two independent draws");
    assert_eq!(cs.len(), 2);
    assert_eq!(cs[0], Component { measure: ma, pinned: va, draw_binding: None, transform: None, draw_site: da });
    assert_eq!((cs[1].measure, cs[1].pinned, cs[1].transform, cs[1].draw_site), (mb, vb, None, db));
    assert!(cs[1].draw_binding.is_some());

    // Two fields from the same draw: no density.
    let twice = keyword_call(&mut m, "record", NamedKind::Field, &[("a", da), ("b", da)]);
    let e = match_independent_record(&m, twice, value).expect_err("same draw");
    assert_eq!(e.node, twice);
    assert_eq!(
        e.reason,
        "record law has fewer distinct draws than fields, so its joint is carried by a lower-dimensional set and has no density (two fields resolve to the same draw)"
    );
    // A field reaching two draws.
    let sum = build_call(&mut m, "add", &[da, db]);
    let coupled = keyword_call(&mut m, "record", NamedKind::Field, &[("a", sum)]);
    let e = match_independent_record(&m, coupled, value).expect_err("two draws in one field");
    assert_eq!(e.node, sum);
    assert!(e.reason.starts_with("record field reaches more than one draw"));
    // A field reaching none.
    let constant = keyword_call(&mut m, "record", NamedKind::Field, &[("a", va)]);
    let e = match_independent_record(&m, constant, value).expect_err("no draw");
    assert_eq!(e.reason, "field is not a draw, a reference to a draw, or a bijection of a draw");
    // The value misses a field.
    let short = keyword_call(&mut m, "record", NamedKind::Field, &[("a", va)]);
    let e = match_independent_record(&m, rec, short).expect_err("missing b");
    assert_eq!((e.node, e.reason.as_str()), (short, "missing field in value record"));
    // The value is not a record.
    let e = match_independent_record(&m, rec, va).expect_err("not a record");
    assert_eq!(e.reason, "value must be a record");
    let pos = build_call(&mut m, "record", &[da]);
    let e = match_independent_record(&m, pos, value).expect_err("positional");
    assert_eq!(e.reason, "record with positional args is not a field-keyed product");
}

fn slot_index(m: &Module, p: NodeId, v: NodeId) -> i64 {
    match m.node(p) {
        Node::Call(c) => {
            assert!(matches!(c.head, CallHead::Builtin(s) if m.resolve(s) == "get0"));
            assert_eq!(c.args[0], v);
            match m.node(c.args[1]) {
                Node::Lit(Scalar::Int(j)) => *j,
                other => panic!("expected an integer slot, got {:?}", other),
            }
        }
        other => panic!("expected get0, got {:?}", other),
    }
}

fn sized_iid(m: &mut Module, x: NodeId, n: u64) -> NodeId {
    let size = m.add_node(Node::Lit(Scalar::Int(n as i64)));
    let iid = build_call(m, "iid", &[x, size]);
    m.set_type(
        iid,
        Type::Measure {
            domain: Box::new(Type::Array { shape: vec![Dim::Static(n)], elem: Box::new(Type::Scalar(ScalarType::Real)) }),
            mass: Mass::Normalized,
        },
    );
    iid
}

#[test]
fn index_projection_over_an_iid_scores_the_kept_slots() {
    let mut m = Module::new();
    let x = leaf(&mut m, Mass::Normalized);
    let iid = sized_iid(&mut m, x, 3);
    let v = m.add_node(Node::Hole);
    let pairs = match lower_index_projection(&mut m, iid, &vec![3, 1], true, v) {
        Ok(IndexProjection::ScoreEach(ps)) => ps,
        other => panic!("expected the kept slots, got {:?}", other),
    };
    assert_eq!(pairs.len(), 2);
    for (j, (measure, point)) in pairs.iter().enumerate() {
        assert_eq!(*measure, x);
        assert_eq!(slot_index(&m, *point, v), j as i64);
    }
    let e = lower_index_projection(&mut m, iid, &vec![4], true, v).expect_err("out of range");
    assert_eq!(
        e.reason,
        "structural projection selects index 4, outside 1..=3 for this 3-component product (`get` is 1-based indexing, §07 `get0`) — refuse rather than mislower"
    );
    // A dropped slot of an unnormalized measure.
    let w = leaf(&mut m, Mass::Finite);
    let wiid = sized_iid(&mut m, w, 2);
    let e = lower_index_projection(&mut m, wiid, &vec![0], false, v).expect_err("unnormalized drop");
    assert_eq!(
        e.reason,
        "projection drops a non-normalized component (iid component); the marginal is not closed-form here (§06 case 2 requires each dropped component to be a normalized probability measure) — refuse rather than mislower"
    );
    // Keeping every slot drops nothing.
    assert!(matches!(lower_index_projection(&mut m, wiid, &vec![1, 0], false, v), Ok(IndexProjection::ScoreEach(_))));
}

#[test]
fn index_projection_over_a_positional_joint() {
    let mut m = Module::new();
    let a = leaf(&mut m, Mass::Normalized);
    let b = leaf(&mut m, Mass::Finite);
    let c = leaf(&mut m, Mass::Normalized);
    let joint = build_call(&mut m, "joint", &[a, b, c]);
    let v = m.add_node(Node::Hole);
    let e = lower_index_projection(&mut m, joint, &vec![0], false, v).expect_err("b dropped");
    assert_eq!(
        e.reason,
        "projection drops a non-normalized component (joint component 2); the marginal is not closed-form here (§06 case 2 requires each dropped component to be a normalized probability measure) — refuse rather than mislower"
    );
    let pairs = match lower_index_projection(&mut m, joint, &vec![2, 1], false, v) {
        Ok(IndexProjection::ScoreEach(ps)) => ps,
        other => panic!("expected the kept slots, got {:?}", other),
    };
    assert_eq!(pairs.iter().map(|p| p.0).collect::<Vec<_>>(), vec![c, b]);
    assert_eq!(slot_index(&m, pairs[1].1, v), 1);

    // A point of the wrong length.
    let short = m.add_node(Node::Hole);
    m.set_type(short, Type::Array { shape: vec![Dim::Static(3)], elem: Box::new(Type::Scalar(ScalarType::Real)) });
    let e = lower_index_projection(&mut m, joint, &vec![2, 1], false, short).expect_err("length");
    assert_eq!(e.node, short);
    assert!(e.reason.starts_with("structural projection selects 2 component(s) but the query point has 3"));

    // A non-scalar component.
    let vec_leaf = m.add_node(Node::Hole);
    m.set_type(
        vec_leaf,
        Type::Measure {
            domain: Box::new(Type::Array { shape: vec![Dim::Dynamic], elem: Box::new(Type::Scalar(ScalarType::Real)) }),
            mass: Mass::Normalized,
        },
    );
    let mixed = build_call(&mut m, "joint", &[a, vec_leaf]);
    let e = lower_index_projection(&mut m, mixed, &vec![0], false, v).expect_err("non-scalar");
    assert_eq!(e.node, vec_leaf);

    // Keyword joints, records and relabels are field-keyed.
    let kw = keyword_call(&mut m, "joint", NamedKind::Field, &[("a", a)]);
    let e = lower_index_projection(&mut m, kw, &vec![0], false, v).expect_err("keyword");
    assert!(e.reason.contains("project it by name (`get(_, [\"a\", …])`)"), "{e:?}");
    let rec = keyword_call(&mut m, "record", NamedKind::Field, &[("a", a)]);
    let e = lower_index_projection(&mut m, rec, &vec![0], false, v).expect_err("record");
    assert!(e.reason.starts_with("structural projection by INDEX over a field-keyed measure"));
    let chain = build_call(&mut m, "jointchain", &[a, c]);
    assert!(matches!(lower_index_projection(&mut m, chain, &vec![0], false, v), Ok(IndexProjection::Jointchain(x)) if x == chain));
    let e = lower_index_projection(&mut m, a, &vec![0], false, v).expect_err("a leaf");
    assert!(e.reason.contains("got `Normal`"), "{e:?}");
}

#[test]
fn projection_pushfwd_dispatches_on_the_selector() {
    let mut m = Module::new();
    let a = leaf(&mut m, Mass::Normalized);
    let b = leaf(&mut m, Mass::Normalized);
    let joint = keyword_call(&mut m, "joint", NamedKind::Field, &[("a", a), ("b", b)]);
    let v = m.add_node(Node::Hole);
    let by_name = GetProjection { sel: Selector::Names(fields(&["b"])), subset: true };
    assert!(matches!(
        lower_projection_pushfwd(&mut m, joint, &by_name, v),
        Ok(ProjectionStep::Named(NamedProjection::Score(_)))
    ));
    let single = GetProjection { sel: Selector::Names(fields(&["b"])), subset: false };
    let e = lower_projection_pushfwd(&mut m, joint, &single, v).expect_err("single element");
    assert!(e.reason.contains("single-element access `get(_, k)`"), "{e:?}");
    let unsupported = GetProjection { sel: Selector::Unsupported("a computed selector"), subset: true };
    let e = lower_projection_pushfwd(&mut m, joint, &unsupported, v).expect_err("unsupported");
    assert!(e.reason.starts_with("structural projection (§06 case 2) is recognised but uses a computed selector, "));
    let positional = build_call(&mut m, "joint", &[a, b]);
    let by_index = GetProjection { sel: Selector::Indices { raw: vec![2], one_based: true }, subset: true };
    assert!(matches!(
        lower_projection_pushfwd(&mut m, positional, &by_index, v),
        Ok(ProjectionStep::Index(IndexProjection::ScoreEach(_)))
    ));
}
