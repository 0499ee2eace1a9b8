use determinizer::density_broadcast::{
    broadcast_density_sum, captures, cell_input, kernel_cell_application, placeholder,
};
use determinizer::ir::{
    Binding, Call, CallHead, Dim, Inputs, Module, NamedArg, NamedKind, Node, NodeId, Phase, Ref,
    RefNs, Scalar, ScalarType, Symbol, Type,
};

fn call(m: &mut Module, head: &str, args: Vec<NodeId>) -> NodeId {
    let h = m.intern(head);
    m.add_node(Node::Call(Call { head: CallHead::Builtin(h), args, named: Vec::new(), inputs: None }))
}

fn reference(m: &mut Module, ns: RefNs, name: &str) -> NodeId {
    let s = m.intern(name);
    m.add_node(Node::Ref(Ref { ns, name: s }))
}

fn bind(m: &mut Module, name: &str, rhs: NodeId) {
    let s = m.intern(name);
    m.add_binding(Binding { name: s, rhs, doc: None, public: true, synthetic: false });
}

fn name_of_ref(m: &Module, id: NodeId) -> (RefNs, String) {
    match m.node(id) {
        Node::Ref(r) => (r.ns, m.resolve(r.name).to_string()),
        other => panic!("not a reference: {:?}", other),
    }
}

fn builtin<'a>(m: &'a Module, id: NodeId, name: &str) -> &'a Call {
    match m.node(id) {
        Node::Call(c) => match c.head {
            CallHead::Builtin(s) => {
                assert_eq!(m.resolve(s), name);
                c
            }
            _ => panic!("user call"),
        },
        other => panic!("not a call: {:?}", other),
    }
}

fn real_type() -> Type {
    Type::Scalar(ScalarType::Real)
}

/// Captures come in the walk's order (a node, then its children from the
/// last to the first), each reference once, at its first occurrence; module
/// references are not captures and a reification is not entered.
#[test]
fn captures_in_walk_order_without_entering_reifications() {
    let mut m = Module::new();
    let a1 = reference(&mut m, RefNs::SelfMod, "a");
    let x = reference(&mut m, RefNs::Local, "x");
    let a2 = reference(&mut m, RefNs::SelfMod, "a");
    let alias = m.intern("lib");
    let ext = reference(&mut m, RefNs::Module(alias), "f");
    let hidden = reference(&mut m, RefNs::SelfMod, "hidden");
    let f = m.intern("functionof");
    let reif = m.add_node(Node::Call(Call {
        head: CallHead::Builtin(f),
        args: vec![hidden],
        named: Vec::new(),
        inputs: Some(Inputs::Auto),
    }));
    let body = call(&mut m, "add", vec![a1, x, a2, ext, reif]);
    let caps = captures(&m, body);
    let got: Vec<(RefNs, String, NodeId)> = caps
        .iter()
        .map(|(r, id)| (r.ns, m.resolve(r.name).to_string(), *id))
        .collect();
    assert_eq!(
        got,
        vec![(RefNs::SelfMod, "a".to_string(), a2), (RefNs::Local, "x".to_string(), x)]
    );
}

#[test]
fn placeholder_takes_the_first_unused_serial_from_the_arena_size() {
    let mut m = Module::new();
    let _ = reference(&mut m, RefNs::Local, "_density_point_2_");
    let _ = reference(&mut m, RefNs::Local, "y");
    // Two nodes: serial 2 is taken by a local reference, so 3 is used.
    let (label, r, node) = placeholder(&mut m, real_type());
    assert_eq!(m.resolve(r.name), "_density_point_3_");
    assert_eq!(m.resolve(label), "density_point_3");
    assert_eq!(r.ns, RefNs::Local);
    assert_eq!(node, NodeId(2));
    assert!(matches!(m.type_of(node), Some(Type::Scalar(ScalarType::Real))));
    assert_eq!(name_of_ref(&m, node), (RefNs::Local, "_density_point_3_".to_string()));
}

#[test]
fn cell_input_over_a_vector_is_one_placeholder_of_the_element_type() {
    let mut m = Module::new();
    let obs = m.add_node(Node::Hole);
    m.set_type(obs, Type::Array { shape: vec![Dim::Static(4)], elem: Box::new(real_type()) });
    let mut inputs: Vec<(Symbol, Ref)> = Vec::new();
    let mut args: Vec<NodeId> = Vec::new();
    let point = cell_input(&mut m, obs, &mut inputs, &mut args).expect("a vector broadcasts");
    assert_eq!(args, vec![obs]);
    assert_eq!(inputs.len(), 1);
    assert_eq!(m.resolve(inputs[0].0), "density_point_1");
    assert_eq!(m.resolve(inputs[0].1.name), "_density_point_1_");
    assert_eq!(name_of_ref(&m, point), (RefNs::Local, "_density_point_1_".to_string()));
    assert!(matches!(m.type_of(point), Some(Type::Scalar(ScalarType::Real))));
}

#[test]
fn cell_input_over_a_table_is_a_record_of_column_placeholders() {
    let mut m = Module::new();
    let xs = m.add_node(Node::Hole);
    let tsym = m.intern("table");
    let a = m.intern("a");
    let b = m.intern("b");
    let lit = m.add_node(Node::Call(Call {
        head: CallHead::Builtin(tsym),
        args: Vec::new(),
        named: vec![NamedArg { kind: NamedKind::Field, name: a, value: xs }],
        inputs: None,
    }));
    bind(&mut m, "t", lit);
    let values = reference(&mut m, RefNs::SelfMod, "t");
    m.set_type(
        lit,
        Type::Table { columns: vec![(a, real_type()), (b, Type::Scalar(ScalarType::Integer))] },
    );
    let mut inputs: Vec<(Symbol, Ref)> = Vec::new();
    let mut args: Vec<NodeId> = Vec::new();
    let point = cell_input(&mut m, values, &mut inputs, &mut args).expect("a table broadcasts");
    let rec = builtin(&m, point, "record");
    assert_eq!(rec.named.len(), 2);
    assert_eq!(m.resolve(rec.named[0].name), "a");
    assert_eq!(m.resolve(rec.named[1].name), "b");
    assert_eq!(inputs.len(), 2);
    assert_eq!(name_of_ref(&m, rec.named[0].value).1, m.resolve(inputs[0].1.name));
    assert_eq!(name_of_ref(&m, rec.named[1].value).1, m.resolve(inputs[1].1.name));
    // Column `a` is read off the table literal; `b` is not in it and is got by name.
    assert_eq!(args[0], xs);
    let get = builtin(&m, args[1], "get");
    assert_eq!(get.args[0], values);
    assert!(matches!(m.node(get.args[1]), Node::Lit(Scalar::Str(s)) if s == "b"));
}

#[test]
fn cell_input_refuses_a_matrix_and_a_scalar() {
    let mut m = Module::new();
    let mat = m.add_node(Node::Hole);
    m.set_type(
        mat,
        Type::Array { shape: vec![Dim::Static(2), Dim::Static(2)], elem: Box::new(real_type()) },
    );
    let scalar = m.add_node(Node::Lit(Scalar::Int(3)));
    m.set_type(scalar, Type::Scalar(ScalarType::Integer));
    for v in [mat, scalar] {
        let mut inputs: Vec<(Symbol, Ref)> = Vec::new();
        let mut args: Vec<NodeId> = Vec::new();
        let before = m.node_count();
        let err = cell_input(&mut m, v, &mut inputs, &mut args).expect_err("not broadcastable");
        assert_eq!(err.node, v);
        assert_eq!(err.reason, "density broadcast needs a one-dimensional array or table");
        assert!(inputs.is_empty() && args.is_empty());
        assert_eq!(m.node_count(), before);
    }
}

/// A parameterised binding the body reads becomes a placeholder input with
/// the binding passed as a singleton argument; a fixed one stays global.
#[test]
fn shared_body_lifts_varying_captures_and_keeps_fixed_ones_global() {
    let mut m = Module::new();
    let mu_rhs = m.add_node(Node::Lit(Scalar::Int(1)));
    m.set_type(mu_rhs, real_type());
    m.set_phase(mu_rhs, Phase::Parameterized);
    bind(&mut m, "mu", mu_rhs);
    let c_rhs = m.add_node(Node::Lit(Scalar::Int(2)));
    m.set_phase(c_rhs, Phase::Fixed);
    bind(&mut m, "c", c_rhs);
    let values = m.add_node(Node::Hole);
    let mu = reference(&mut m, RefNs::SelfMod, "mu");
    let c = reference(&mut m, RefNs::SelfMod, "c");
    let body = call(&mut m, "add", vec![mu, c]);

    let r = broadcast_density_sum(&mut m, body, Vec::new(), vec![values]);

    let sum = builtin(&m, r, "sum");
    assert_eq!(sum.args.len(), 1);
    let bc = builtin(&m, sum.args[0], "broadcast");
    assert_eq!(bc.args.len(), 3);
    assert_eq!(bc.args[1], values);
    let vector = builtin(&m, bc.args[2], "vector");
    assert_eq!(name_of_ref(&m, vector.args[0]), (RefNs::SelfMod, "mu".to_string()));
    assert!(matches!(m.type_of(vector.args[0]), Some(Type::Scalar(ScalarType::Real))));
    let func = builtin(&m, bc.args[0], "functionof");
    let ins = match &func.inputs {
        Some(Inputs::Spec(ins)) => ins,
        _ => panic!("the shared body carries explicit inputs"),
    };
    assert_eq!(ins.len(), 1);
    let placeholder_name = m.resolve(ins[0].1.name).to_string();
    assert!(placeholder_name.starts_with("_density_point_"));
    let add = builtin(&m, func.args[0], "add");
    assert_eq!(name_of_ref(&m, add.args[0]), (RefNs::Local, placeholder_name));
    assert_eq!(name_of_ref(&m, add.args[1]), (RefNs::SelfMod, "c".to_string()));
}

/// A capture already bound by a boundary input is neither lifted again nor
/// replaced.
#[test]
fn shared_body_keeps_references_the_inputs_already_bind() {
    let mut m = Module::new();
    let values = m.add_node(Node::Hole);
    let (label, r, point) = placeholder(&mut m, real_type());
    let body = call(&mut m, "exp", vec![point]);
    let out = broadcast_density_sum(&mut m, body, vec![(label, r)], vec![values]);
    let sum = builtin(&m, out, "sum");
    let bc = builtin(&m, sum.args[0], "broadcast");
    assert_eq!(bc.args.len(), 2);
    let func = builtin(&m, bc.args[0], "functionof");
    match &func.inputs {
        Some(Inputs::Spec(ins)) => assert_eq!(ins.len(), 1),
        _ => panic!("explicit inputs"),
    }
    assert_eq!(func.args[0], body);
}

/// A kernel applied at one cell binds its inputs by position and keyword; an
/// array argument becomes its cell point, a scalar stays as is.
#[test]
fn kernel_applied_at_one_cell() {
    let mut m = Module::new();
    let k = reference(&mut m, RefNs::SelfMod, "k");
    let xs = m.add_node(Node::Hole);
    m.set_type(xs, Type::Array { shape: vec![Dim::Static(3)], elem: Box::new(real_type()) });
    let s = m.add_node(Node::Lit(Scalar::Int(2)));
    let a = m.intern("a");
    let b = m.intern("b");
    let (app, inputs, args) =
        kernel_cell_application(&mut m, k, false, &vec![a, b], &vec![xs], &vec![(b, s)])
            .expect("each input bound once");
    assert_eq!(inputs.len(), 1);
    assert_eq!(args, vec![xs]);
    match m.node(app) {
        Node::Call(c) => {
            assert_eq!(c.head, CallHead::User(k));
            assert!(c.args.is_empty());
            assert_eq!(c.named.len(), 2);
            assert_eq!(c.named[0].kind, NamedKind::Kwarg);
            assert_eq!(c.named[0].name, a);
            assert_eq!(name_of_ref(&m, c.named[0].value).1, m.resolve(inputs[0].1.name));
            assert_eq!(c.named[1].name, b);
            assert_eq!(c.named[1].value, s);
        }
        other => panic!("unexpected {:?}", other),
    }
}

#[test]
fn kernel_arguments_must_bind_each_input_once() {
    let mut m = Module::new();
    let k = reference(&mut m, RefNs::SelfMod, "k");
    let x = m.add_node(Node::Lit(Scalar::Int(1)));
    let y = m.add_node(Node::Lit(Scalar::Int(2)));
    let a = m.intern("a");
    let b = m.intern("b");
    let reason = "broadcast arguments must bind each kernel input once";
    // Positional arguments to a keyword-only boundary.
    let e = kernel_cell_application(&mut m, k, true, &vec![a], &vec![x], &vec![]).unwrap_err();
    assert_eq!((e.node, e.reason.as_str()), (k, reason));
    // Too few arguments.
    let e = kernel_cell_application(&mut m, k, false, &vec![a, b], &vec![x], &vec![]).unwrap_err();
    assert_eq!((e.node, e.reason.as_str()), (k, reason));
    // An input bound both positionally and by keyword, another not at all.
    let e = kernel_cell_application(&mut m, k, false, &vec![a, b], &vec![x], &vec![(a, y)]).unwrap_err();
    assert_eq!((e.node, e.reason.as_str()), (k, reason));
    // Keywords alone, in any order.
    assert!(kernel_cell_application(&mut m, k, true, &vec![a, b], &vec![], &vec![(b, y), (a, x)]).is_ok());
}

#[test]
fn kernel_argument_that_cannot_be_broadcast_refuses() {
    let mut m = Module::new();
    let k = reference(&mut m, RefNs::SelfMod, "k");
    let mat = m.add_node(Node::Hole);
    m.set_type(
        mat,
        Type::Array { shape: vec![Dim::Static(2), Dim::Static(2)], elem: Box::new(real_type()) },
    );
    let a = m.intern("a");
    let e = kernel_cell_application(&mut m, k, false, &vec![a], &vec![mat], &vec![]).unwrap_err();
    assert_eq!(e.node, mat);
    assert_eq!(e.reason, "density broadcast needs a one-dimensional array or table");
}
