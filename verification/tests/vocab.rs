use determinizer::conformance::builtin_primitive_arity;
use determinizer::driver::{in_combinator_ops, in_measure_vocab, kind_name};
use determinizer::invert::Domain;
use determinizer::refuse::NonConformKind;
use determinizer::shape::is_measure_combinator_op;
use determinizer::text::{decimal_string, signed_decimal_string};

#[test]
fn measure_combinator_ops_covers_lower_measure_density_dispatch() {
    let dispatched_combinator_ops: &[&str] = &[
        "weighted",
        "logweighted",
        "superpose",
        "normalize",
        "truncate",
        "pushfwd",
        "kchain",
        "iid",
        "joint",
        "markovchain",
        "kscan",
        "jointchain",
        "bayesupdate",
        "disintegrate",
        "restrict",
        "likelihoodof",
        "joint_likelihood",
        "locscale",
    ];
    for op in dispatched_combinator_ops {
        assert!(
            is_measure_combinator_op(op),
            "`{}` is dispatched as a measure combinator but is missing from the combinator vocabulary",
            op
        );
    }
}

#[test]
fn leaf_constructors_are_not_measure_combinators() {
    for op in ["Normal", "Gamma", "Poisson", "record", "broadcast", "functionof", ""] {
        assert!(!is_measure_combinator_op(op), "{} is not a combinator", op);
    }
    assert!(is_measure_combinator_op("lawof"));
    assert!(is_measure_combinator_op("draw"));
}

#[test]
fn primitive_arity_table() {
    for p in [
        "builtin_logdensityof",
        "builtin_touniform",
        "builtin_fromuniform",
        "builtin_tonormal",
        "builtin_fromnormal",
    ] {
        assert_eq!(builtin_primitive_arity(p), Some((3, false)));
    }
    assert_eq!(builtin_primitive_arity("builtin_sample"), Some((3, true)));
    assert_eq!(builtin_primitive_arity("builtin_density"), None);
    assert_eq!(builtin_primitive_arity("logdensityof"), None);
}

#[test]
fn domain_texts() {
    assert_eq!(Domain::PosReals.set(), "the positive reals");
    assert_eq!(Domain::NonNegReals.set(), "the non-negative reals");
    assert_eq!(Domain::AboveMinusOne.set(), "(−1, ∞)");
    assert_eq!(Domain::Unit.set(), "(0, 1)");
    assert_eq!(
        Domain::PosReals.describe(),
        "the positive reals (a continuous base may touch 0, a discrete one may not)"
    );
    assert_eq!(Domain::NonNegReals.describe(), "the non-negative reals");
    assert_eq!(Domain::AboveMinusOne.describe(), "(−1, ∞) (a continuous base may touch −1)");
    assert_eq!(Domain::Unit.describe(), "(0, 1) (a continuous base may touch 0 or 1)");
}

#[test]
fn decimal_texts() {
    assert_eq!(decimal_string(0), "0");
    assert_eq!(decimal_string(7), "7");
    assert_eq!(decimal_string(10), "10");
    assert_eq!(decimal_string(123456789), "123456789");
    assert_eq!(decimal_string(u128::MAX), u128::MAX.to_string());
    assert_eq!(signed_decimal_string(0), "0");
    assert_eq!(signed_decimal_string(-42), "-42");
    assert_eq!(signed_decimal_string(42), "42");
    assert_eq!(signed_decimal_string(i64::MIN), i64::MIN.to_string());
    assert_eq!(signed_decimal_string(i64::MAX), i64::MAX.to_string());
}

#[test]
fn vocabularies() {
    for op in ["logdensityof", "densityof", "disintegrate", "restrict", "draw", "rand"] {
        assert!(in_measure_vocab(op), "{} is measure vocabulary", op);
    }
    assert!(!in_measure_vocab("Normal"));
    assert!(!in_measure_vocab("add"));
    assert!(in_combinator_ops("superpose"));
    assert!(in_combinator_ops("bijection"));
    assert!(!in_combinator_ops("restrict"));
    assert!(!in_combinator_ops("Normal"));
    assert_eq!(kind_name(NonConformKind::StochasticPhase), "StochasticPhase");
    assert_eq!(kind_name(NonConformKind::BuiltinArity), "BuiltinArity");
    assert_eq!(kind_name(NonConformKind::ResidualUserCall), "ResidualUserCall");
}
