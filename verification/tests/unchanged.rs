use determinizer::density::lower_normalize;
use determinizer::disintegrate::{rewrite_restrict, split_law_record};
use determinizer::driver::substitute_in_tree;
use determinizer::ir::{Module, Node, NodeId, Scalar};
use determinizer::shape::build_call;

fn real_node(m: &mut Module, x: f64) -> NodeId {
    m.add_node(Node::Lit(Scalar::Real(x.to_bits())))
}

#[test]
fn refused_split_allocates_nothing() {
    let mut m = Module::new();
    let a = real_node(&mut m, 1.0);
    let law = build_call(&mut m, "lawof", &[a]);
    let before = m.node_count();
    assert!(split_law_record(&mut m, &vec!["x".to_string()], law).is_none());
    assert_eq!(m.node_count(), before);
}

#[test]
fn refused_restrict_allocates_nothing() {
    let mut m = Module::new();
    let a = real_node(&mut m, 1.0);
    let b = real_node(&mut m, 2.0);
    let r = build_call(&mut m, "restrict", &[a, b]);
    let before = m.node_count();
    assert!(rewrite_restrict(&mut m, r).is_none());
    assert_eq!(m.node_count(), before);
}

#[test]
fn non_interval_truncation_refusal_allocates_nothing() {
    let mut m = Module::new();
    let base = real_node(&mut m, 1.0);
    let s = m.intern("posreals");
    let set = m.add_node(Node::Const(s));
    let t = build_call(&mut m, "truncate", &[base, set]);
    let node = build_call(&mut m, "normalize", &[t]);
    let v = real_node(&mut m, 0.5);
    let before = m.node_count();
    let e = lower_normalize(&mut m, node, v, &None).unwrap_err();
    assert!(e.reason.contains("interval(lo, hi)"));
    assert_eq!(m.node_count(), before);
}

#[test]
fn substitution_without_target_reuses_the_tree() {
    let mut m = Module::new();
    let a = real_node(&mut m, 1.0);
    let b = real_node(&mut m, 2.0);
    let c = real_node(&mut m, 3.0);
    let root = build_call(&mut m, "add", &[a, b]);
    let before = m.node_count();
    assert_eq!(substitute_in_tree(&mut m, root, c, a), root);
    assert_eq!(m.node_count(), before);
    assert_eq!(substitute_in_tree(&mut m, root, root, c), c);
    assert_eq!(m.node_count(), before);
}
