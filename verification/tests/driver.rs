use determinizer::driver::sweep_dead_measure_bindings;
use determinizer::ir::{
    Binding, Call, CallHead, Inputs, Mass, Module, NamedArg, NamedKind, Node, NodeId, Ref, RefNs,
    Scalar, ScalarType, Type,
};

/// A measure-typed constructor binding referenced only through another
/// binding's reification inputs must not be swept as dead.
#[test]
fn sweep_preserves_binding_referenced_only_via_reification_input() {
    let mut m = Module::new();

    // g = Normal(mu=0.0, sigma=1.0) — a Measure-typed constructor.
    let normal = m.intern("Normal");
    let mu = m.intern("mu");
    let sigma = m.intern("sigma");
    let z0 = m.add_node(Node::Lit(Scalar::Real(0.0f64.to_bits())));
    let one = m.add_node(Node::Lit(Scalar::Real(1.0f64.to_bits())));
    let g_rhs = m.add_node(Node::Call(Call {
        head: CallHead::Builtin(normal),
        args: Vec::<NodeId>::new(),
        named: vec![
            NamedArg { kind: NamedKind::Kwarg, name: mu, value: z0 },
            NamedArg { kind: NamedKind::Kwarg, name: sigma, value: one },
        ],
        inputs: None,
    }));
    m.set_type(
        g_rhs,
        Type::Measure { domain: Box::new(Type::Scalar(ScalarType::Real)), mass: Mass::Normalized },
    );
    let g_name = m.intern("g");
    let g_bid = m.add_binding(Binding {
        name: g_name,
        rhs: g_rhs,
        doc: None,
        public: true,
        synthetic: false,
    });

    // k = functionof(_x_, x = _x_, g = g) — references `g` ONLY via its
    // reification inputs, never in the body.
    let functionof = m.intern("functionof");
    let x = m.intern("x");
    let ph_x = m.intern("_x_");
    let body = m.add_node(Node::Ref(Ref { ns: RefNs::Local, name: ph_x }));
    let k_rhs = m.add_node(Node::Call(Call {
        head: CallHead::Builtin(functionof),
        args: vec![body],
        named: Vec::<NamedArg>::new(),
        inputs: Some(Inputs::Spec(vec![
            (x, Ref { ns: RefNs::Local, name: ph_x }),
            (g_name, Ref { ns: RefNs::SelfMod, name: g_name }),
        ])),
    }));
    let k_name = m.intern("k");
    let _k_bid = m.add_binding(Binding {
        name: k_name,
        rhs: k_rhs,
        doc: None,
        public: true,
        synthetic: false,
    });

    sweep_dead_measure_bindings(&mut m);

    // `g` must survive: still a `Normal` call, NOT the `0.0` sweep sentinel.
    let g_after = m.binding(g_bid).rhs;
    let survived = match m.node(g_after) {
        Node::Call(c) => match c.head {
            CallHead::Builtin(s) => m.resolve(s) == "Normal",
            _ => false,
        },
        _ => false,
    };
    assert!(
        survived,
        "g referenced only via k's reification Inputs must not be swept: got {:?}",
        m.node(g_after)
    );
}
