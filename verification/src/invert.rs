//! The forward maps a change of variables inverts: the registry of unary
//! bijections with their natural domains, and the scalar chains of unary and
//! affine ops a forward lambda is flattened into.

use vstd::prelude::*;
use crate::density::{plain_args, TWO_BITS};
use crate::ir::{call_children, node_children, node_wf, str_eq, CallHead, Module, Node, NodeId, Ref, RefNs, Scalar, Symbol};
use crate::projection::refused;
use crate::refuse::RefuseError;
use crate::shape::{build_call, construct_name, expect_builtin_call, is_builtin_named, refuse, resolve_one_spec, resolve_ref_one};
use crate::density::{projection_spec, recognize_get_projection, selector_view, GetProjection, SelectorV};

verus! {

/// The natural domain of a unary forward map.
#[derive(Clone, Copy, PartialEq, Eq, Structural, Debug)]
pub enum Domain {
    /// `posreals`: `log`, `log10`, and `pow` with a negative exponent; 0 is
    /// outside the domain.
    PosReals,
    /// `nonnegreals`: `sqrt`, and `pow` with a positive exponent; 0 is inside.
    NonNegReals,
    /// `interval(-1, inf)`: `log1p`.
    AboveMinusOne,
    /// `interval(0, 1)`: `logit`, `probit`.
    Unit,
}

/// The set a domain names.
pub open spec fn set_text(d: Domain) -> Seq<char> {
    match d {
        Domain::PosReals => "the positive reals"@,
        Domain::NonNegReals => "the non-negative reals"@,
        Domain::AboveMinusOne => "(−1, ∞)"@,
        Domain::Unit => "(0, 1)"@,
    }
}

/// The set a domain names, with the endpoint rule that a containment check
/// applies where the forward map goes to ±inf.
pub open spec fn describe_text(d: Domain) -> Seq<char> {
    match d {
        Domain::PosReals => "the positive reals (a continuous base may touch 0, a discrete one may not)"@,
        Domain::NonNegReals => "the non-negative reals"@,
        Domain::AboveMinusOne => "(−1, ∞) (a continuous base may touch −1)"@,
        Domain::Unit => "(0, 1) (a continuous base may touch 0 or 1)"@,
    }
}

impl Domain {
    /// The set, for a message that only names the domain.
    pub fn set(self) -> (s: &'static str)
        ensures
            s@ == set_text(self),
    {
        match self {
            Domain::PosReals => "the positive reals",
            Domain::NonNegReals => "the non-negative reals",
            Domain::AboveMinusOne => "(−1, ∞)",
            Domain::Unit => "(0, 1)",
        }
    }

    /// The set plus the endpoint rule, for a message reporting a failed
    /// containment check.
    pub fn describe(self) -> (s: &'static str)
        ensures
            s@ == describe_text(self),
    {
        match self {
            Domain::PosReals => "the positive reals (a continuous base may touch 0, a discrete one may not)",
            Domain::NonNegReals => "the non-negative reals",
            Domain::AboveMinusOne => "(−1, ∞) (a continuous base may touch −1)",
            Domain::Unit => "(0, 1) (a continuous base may touch 0 or 1)",
        }
    }
}

/// A unary bijection of the registry.
#[derive(Clone, Copy, PartialEq, Eq, Structural, Debug)]
pub enum UnaryOp {
    Exp,
    Log,
    Neg,
    Sqrt,
    Log10,
    Log1p,
    Expm1,
    Logit,
    Invlogit,
    Probit,
    Invprobit,
    Atan,
    Sinh,
    Asinh,
    Tanh,
}

/// The built-in name of a registry op.
pub open spec fn unary_name(op: UnaryOp) -> Seq<char> {
    match op {
        UnaryOp::Exp => "exp"@,
        UnaryOp::Log => "log"@,
        UnaryOp::Neg => "neg"@,
        UnaryOp::Sqrt => "sqrt"@,
        UnaryOp::Log10 => "log10"@,
        UnaryOp::Log1p => "log1p"@,
        UnaryOp::Expm1 => "expm1"@,
        UnaryOp::Logit => "logit"@,
        UnaryOp::Invlogit => "invlogit"@,
        UnaryOp::Probit => "probit"@,
        UnaryOp::Invprobit => "invprobit"@,
        UnaryOp::Atan => "atan"@,
        UnaryOp::Sinh => "sinh"@,
        UnaryOp::Asinh => "asinh"@,
        UnaryOp::Tanh => "tanh"@,
    }
}

/// The registry op named `name`, if any.
pub open spec fn unary_of(name: Seq<char>) -> Option<UnaryOp> {
    if name == "exp"@ {
        Some(UnaryOp::Exp)
    } else if name == "log"@ {
        Some(UnaryOp::Log)
    } else if name == "neg"@ {
        Some(UnaryOp::Neg)
    } else if name == "sqrt"@ {
        Some(UnaryOp::Sqrt)
    } else if name == "log10"@ {
        Some(UnaryOp::Log10)
    } else if name == "log1p"@ {
        Some(UnaryOp::Log1p)
    } else if name == "expm1"@ {
        Some(UnaryOp::Expm1)
    } else if name == "logit"@ {
        Some(UnaryOp::Logit)
    } else if name == "invlogit"@ {
        Some(UnaryOp::Invlogit)
    } else if name == "probit"@ {
        Some(UnaryOp::Probit)
    } else if name == "invprobit"@ {
        Some(UnaryOp::Invprobit)
    } else if name == "atan"@ {
        Some(UnaryOp::Atan)
    } else if name == "sinh"@ {
        Some(UnaryOp::Sinh)
    } else if name == "asinh"@ {
        Some(UnaryOp::Asinh)
    } else if name == "tanh"@ {
        Some(UnaryOp::Tanh)
    } else {
        None
    }
}

/// The natural domain of a registry op, where it is restricted.
pub open spec fn unary_domain(op: UnaryOp) -> Option<Domain> {
    match op {
        UnaryOp::Log => Some(Domain::PosReals),
        UnaryOp::Sqrt => Some(Domain::NonNegReals),
        UnaryOp::Log10 => Some(Domain::PosReals),
        UnaryOp::Log1p => Some(Domain::AboveMinusOne),
        UnaryOp::Logit => Some(Domain::Unit),
        UnaryOp::Probit => Some(Domain::Unit),
        _ => None,
    }
}

/// The single built-in the inverse of a registry op is, where it is one
/// (`sqrt` and `log10` invert to a `pow`).
pub open spec fn inverse_builtin(op: UnaryOp) -> Option<Seq<char>> {
    match op {
        UnaryOp::Exp => Some("log"@),
        UnaryOp::Log => Some("exp"@),
        UnaryOp::Neg => Some("neg"@),
        UnaryOp::Sqrt => None,
        UnaryOp::Log10 => None,
        UnaryOp::Log1p => Some("expm1"@),
        UnaryOp::Expm1 => Some("log1p"@),
        UnaryOp::Logit => Some("invlogit"@),
        UnaryOp::Invlogit => Some("logit"@),
        UnaryOp::Probit => Some("invprobit"@),
        UnaryOp::Invprobit => Some("probit"@),
        UnaryOp::Atan => Some("tan"@),
        UnaryOp::Sinh => Some("asinh"@),
        UnaryOp::Asinh => Some("sinh"@),
        UnaryOp::Tanh => Some("atanh"@),
    }
}

/// Built-in `g` undoes built-in `f`: `g(f(x)) = x` wherever `f` is defined.
/// These are the inverse pairs among the registry's functions and their
/// inverses, each identity listed on its own.
pub open spec fn undoes(g: Seq<char>, f: Seq<char>) -> bool {
    ||| (g == "log"@ && f == "exp"@)
    ||| (g == "exp"@ && f == "log"@)
    ||| (g == "neg"@ && f == "neg"@)
    ||| (g == "expm1"@ && f == "log1p"@)
    ||| (g == "log1p"@ && f == "expm1"@)
    ||| (g == "invlogit"@ && f == "logit"@)
    ||| (g == "logit"@ && f == "invlogit"@)
    ||| (g == "invprobit"@ && f == "probit"@)
    ||| (g == "probit"@ && f == "invprobit"@)
    ||| (g == "tan"@ && f == "atan"@)
    ||| (g == "asinh"@ && f == "sinh"@)
    ||| (g == "sinh"@ && f == "asinh"@)
    ||| (g == "atanh"@ && f == "tanh"@)
}

/// The single built-in that a registry op inverts to undoes that op; only
/// `sqrt` and `log10` have no single built-in inverse.
pub proof fn law_inverse_builtin_undoes(u: UnaryOp)
    ensures
        inverse_builtin(u) matches Some(g) ==> undoes(g, unary_name(u)),
        inverse_builtin(u) is None ==> (u == UnaryOp::Sqrt || u == UnaryOp::Log10),
{
}

impl UnaryOp {
    /// The built-in name.
    pub fn name(self) -> (s: &'static str)
        ensures
            s@ == unary_name(self),
    {
        match self {
            UnaryOp::Exp => "exp",
            UnaryOp::Log => "log",
            UnaryOp::Neg => "neg",
            UnaryOp::Sqrt => "sqrt",
            UnaryOp::Log10 => "log10",
            UnaryOp::Log1p => "log1p",
            UnaryOp::Expm1 => "expm1",
            UnaryOp::Logit => "logit",
            UnaryOp::Invlogit => "invlogit",
            UnaryOp::Probit => "probit",
            UnaryOp::Invprobit => "invprobit",
            UnaryOp::Atan => "atan",
            UnaryOp::Sinh => "sinh",
            UnaryOp::Asinh => "asinh",
            UnaryOp::Tanh => "tanh",
        }
    }

    /// The natural domain, where it is restricted.
    pub fn domain(self) -> (d: Option<Domain>)
        ensures
            d == unary_domain(self),
    {
        match self {
            UnaryOp::Log => Some(Domain::PosReals),
            UnaryOp::Sqrt => Some(Domain::NonNegReals),
            UnaryOp::Log10 => Some(Domain::PosReals),
            UnaryOp::Log1p => Some(Domain::AboveMinusOne),
            UnaryOp::Logit => Some(Domain::Unit),
            UnaryOp::Probit => Some(Domain::Unit),
            _ => None,
        }
    }
}

/// Look `name` up in the registry of unary bijections.
pub fn unary_entry(name: &str) -> (r: Option<UnaryOp>)
    ensures
        r == unary_of(name@),
{
    let ops = [
        UnaryOp::Exp,
        UnaryOp::Log,
        UnaryOp::Neg,
        UnaryOp::Sqrt,
        UnaryOp::Log10,
        UnaryOp::Log1p,
        UnaryOp::Expm1,
        UnaryOp::Logit,
        UnaryOp::Invlogit,
        UnaryOp::Probit,
        UnaryOp::Invprobit,
        UnaryOp::Atan,
        UnaryOp::Sinh,
        UnaryOp::Asinh,
        UnaryOp::Tanh,
    ];
    let mut k: usize = 0;
    while k < 15
        invariant
            k <= 15,
            ops@ == seq![
                UnaryOp::Exp,
                UnaryOp::Log,
                UnaryOp::Neg,
                UnaryOp::Sqrt,
                UnaryOp::Log10,
                UnaryOp::Log1p,
                UnaryOp::Expm1,
                UnaryOp::Logit,
                UnaryOp::Invlogit,
                UnaryOp::Probit,
                UnaryOp::Invprobit,
                UnaryOp::Atan,
                UnaryOp::Sinh,
                UnaryOp::Asinh,
                UnaryOp::Tanh,
            ],
            forall|q: int| 0 <= q < k ==> unary_name(#[trigger] ops@[q]) != name@,
        decreases 15 - k,
    {
        let op = ops[k];
        if crate::ir::str_eq(op.name(), name) {
            proof {
                lemma_unary_of_name(op);
            }
            return Some(op);
        }
        k += 1;
    }
    proof {
        if unary_of(name@) is Some {
            let op = unary_of(name@).unwrap();
            lemma_unary_of_name(op);
            assert(exists|q: int| 0 <= q < 15 && ops@[q] == op);
        }
    }
    None
}

/// Every registry op is found again by its name.
pub proof fn lemma_unary_of_name(op: UnaryOp)
    ensures
        unary_of(unary_name(op)) == Some(op),
{
    reveal_strlit("exp");
    reveal_strlit("log");
    reveal_strlit("neg");
    reveal_strlit("sqrt");
    reveal_strlit("log10");
    reveal_strlit("log1p");
    reveal_strlit("expm1");
    reveal_strlit("logit");
    reveal_strlit("invlogit");
    reveal_strlit("probit");
    reveal_strlit("invprobit");
    reveal_strlit("atan");
    reveal_strlit("sinh");
    reveal_strlit("asinh");
    reveal_strlit("tanh");
    match op {
        UnaryOp::Exp => {
        },
        UnaryOp::Log => {
            assert("log"@[0] != "exp"@[0]);
        },
        UnaryOp::Neg => {
            assert("neg"@[0] != "exp"@[0]);
            assert("neg"@[0] != "log"@[0]);
        },
        UnaryOp::Sqrt => {
            assert("sqrt"@.len() != "exp"@.len());
            assert("sqrt"@.len() != "log"@.len());
            assert("sqrt"@.len() != "neg"@.len());
        },
        UnaryOp::Log10 => {
            assert("log10"@.len() != "exp"@.len());
            assert("log10"@.len() != "log"@.len());
            assert("log10"@.len() != "neg"@.len());
            assert("log10"@.len() != "sqrt"@.len());
        },
        UnaryOp::Log1p => {
            assert("log1p"@.len() != "exp"@.len());
            assert("log1p"@.len() != "log"@.len());
            assert("log1p"@.len() != "neg"@.len());
            assert("log1p"@.len() != "sqrt"@.len());
            assert("log1p"@[4] != "log10"@[4]);
        },
        UnaryOp::Expm1 => {
            assert("expm1"@.len() != "exp"@.len());
            assert("expm1"@.len() != "log"@.len());
            assert("expm1"@.len() != "neg"@.len());
            assert("expm1"@.len() != "sqrt"@.len());
            assert("expm1"@[0] != "log10"@[0]);
            assert("expm1"@[0] != "log1p"@[0]);
        },
        UnaryOp::Logit => {
            assert("logit"@.len() != "exp"@.len());
            assert("logit"@.len() != "log"@.len());
            assert("logit"@.len() != "neg"@.len());
            assert("logit"@.len() != "sqrt"@.len());
            assert("logit"@[3] != "log10"@[3]);
            assert("logit"@[3] != "log1p"@[3]);
            assert("logit"@[0] != "expm1"@[0]);
        },
        UnaryOp::Invlogit => {
            assert("invlogit"@.len() != "exp"@.len());
            assert("invlogit"@.len() != "log"@.len());
            assert("invlogit"@.len() != "neg"@.len());
            assert("invlogit"@.len() != "sqrt"@.len());
            assert("invlogit"@.len() != "log10"@.len());
            assert("invlogit"@.len() != "log1p"@.len());
            assert("invlogit"@.len() != "expm1"@.len());
            assert("invlogit"@.len() != "logit"@.len());
        },
        UnaryOp::Probit => {
            assert("probit"@.len() != "exp"@.len());
            assert("probit"@.len() != "log"@.len());
            assert("probit"@.len() != "neg"@.len());
            assert("probit"@.len() != "sqrt"@.len());
            assert("probit"@.len() != "log10"@.len());
            assert("probit"@.len() != "log1p"@.len());
            assert("probit"@.len() != "expm1"@.len());
            assert("probit"@.len() != "logit"@.len());
            assert("probit"@.len() != "invlogit"@.len());
        },
        UnaryOp::Invprobit => {
            assert("invprobit"@.len() != "exp"@.len());
            assert("invprobit"@.len() != "log"@.len());
            assert("invprobit"@.len() != "neg"@.len());
            assert("invprobit"@.len() != "sqrt"@.len());
            assert("invprobit"@.len() != "log10"@.len());
            assert("invprobit"@.len() != "log1p"@.len());
            assert("invprobit"@.len() != "expm1"@.len());
            assert("invprobit"@.len() != "logit"@.len());
            assert("invprobit"@.len() != "invlogit"@.len());
            assert("invprobit"@.len() != "probit"@.len());
        },
        UnaryOp::Atan => {
            assert("atan"@.len() != "exp"@.len());
            assert("atan"@.len() != "log"@.len());
            assert("atan"@.len() != "neg"@.len());
            assert("atan"@[0] != "sqrt"@[0]);
            assert("atan"@.len() != "log10"@.len());
            assert("atan"@.len() != "log1p"@.len());
            assert("atan"@.len() != "expm1"@.len());
            assert("atan"@.len() != "logit"@.len());
            assert("atan"@.len() != "invlogit"@.len());
            assert("atan"@.len() != "probit"@.len());
            assert("atan"@.len() != "invprobit"@.len());
        },
        UnaryOp::Sinh => {
            assert("sinh"@.len() != "exp"@.len());
            assert("sinh"@.len() != "log"@.len());
            assert("sinh"@.len() != "neg"@.len());
            assert("sinh"@[1] != "sqrt"@[1]);
            assert("sinh"@.len() != "log10"@.len());
            assert("sinh"@.len() != "log1p"@.len());
            assert("sinh"@.len() != "expm1"@.len());
            assert("sinh"@.len() != "logit"@.len());
            assert("sinh"@.len() != "invlogit"@.len());
            assert("sinh"@.len() != "probit"@.len());
            assert("sinh"@.len() != "invprobit"@.len());
            assert("sinh"@[0] != "atan"@[0]);
        },
        UnaryOp::Asinh => {
            assert("asinh"@.len() != "exp"@.len());
            assert("asinh"@.len() != "log"@.len());
            assert("asinh"@.len() != "neg"@.len());
            assert("asinh"@.len() != "sqrt"@.len());
            assert("asinh"@[0] != "log10"@[0]);
            assert("asinh"@[0] != "log1p"@[0]);
            assert("asinh"@[0] != "expm1"@[0]);
            assert("asinh"@[0] != "logit"@[0]);
            assert("asinh"@.len() != "invlogit"@.len());
            assert("asinh"@.len() != "probit"@.len());
            assert("asinh"@.len() != "invprobit"@.len());
            assert("asinh"@.len() != "atan"@.len());
            assert("asinh"@.len() != "sinh"@.len());
        },
        UnaryOp::Tanh => {
            assert("tanh"@.len() != "exp"@.len());
            assert("tanh"@.len() != "log"@.len());
            assert("tanh"@.len() != "neg"@.len());
            assert("tanh"@[0] != "sqrt"@[0]);
            assert("tanh"@.len() != "log10"@.len());
            assert("tanh"@.len() != "log1p"@.len());
            assert("tanh"@.len() != "expm1"@.len());
            assert("tanh"@.len() != "logit"@.len());
            assert("tanh"@.len() != "invlogit"@.len());
            assert("tanh"@.len() != "probit"@.len());
            assert("tanh"@.len() != "invprobit"@.len());
            assert("tanh"@[0] != "atan"@[0]);
            assert("tanh"@[0] != "sinh"@[0]);
            assert("tanh"@.len() != "asinh"@.len());
        },
    }
}

/// One op of a scalar forward chain, with the literal operand an affine op
/// carries.
#[derive(Clone, Copy, PartialEq, Eq, Structural, Debug)]
pub enum ChainOp {
    /// A unary op of the registry.
    Registry(UnaryOp),
    /// `c·z`: inverse `divide(acc, c)`.
    MulByLit(NodeId),
    /// `z/c`: inverse `mul(acc, c)`.
    DivByLit(NodeId),
    /// `z+c`: inverse `sub(acc, c)`.
    AddLit(NodeId),
    /// `z−c`: inverse `add(acc, c)`.
    SubLit(NodeId),
    /// `c−z`: inverse `sub(c, acc)`.
    RSubLit(NodeId),
}

/// The bits of a real literal other than its sign.
pub const MAGNITUDE_MASK: u64 = 0x7FFF_FFFF_FFFF_FFFFu64;

/// `id` is a numeric literal, real or integer.
pub open spec fn num_lit(m: Module, id: NodeId) -> bool {
    id.0 < m.nodes@.len() && (m.at(id) is Lit) && (m.at(id)->Lit_0 is Real || m.at(id)->Lit_0 is Int)
}

/// `id` is a numeric literal whose value is not zero (`-0.0` is zero).
pub open spec fn nonzero_lit(m: Module, id: NodeId) -> bool {
    id.0 < m.nodes@.len() && match m.at(id) {
        Node::Lit(Scalar::Real(bits)) => bits & MAGNITUDE_MASK != 0,
        Node::Lit(Scalar::Int(i)) => i != 0,
        _ => false,
    }
}

pub open spec fn mul_reason() -> Seq<char> {
    "mul with two non-literal (or two literal, or a literal-zero scale) operands is not an invertible affine map — refuse rather than mislower"@
}

pub open spec fn divide_reason() -> Seq<char> {
    "divide is an invertible affine map only with a literal, nonzero denominator (u / c) — refuse rather than mislower"@
}

pub open spec fn add_reason() -> Seq<char> {
    "add with two non-literal (or two literal) operands is not an invertible affine map — refuse rather than mislower"@
}

pub open spec fn sub_reason() -> Seq<char> {
    "sub with two non-literal (or two literal) operands is not an invertible affine map — refuse rather than mislower"@
}

pub open spec fn pow_reason() -> Seq<char> {
    "pow inside a composition is not an invertible shape here (its input domain is not verifiable) — refuse rather than mislower"@
}

pub open spec fn no_inverse_reason() -> Seq<char> {
    "forward op is a recognised builtin with no analytic inverse — refuse rather than mislower"@
}

/// The op a built-in call `name(args…)` is as a chain link, with the
/// sub-expression to descend into; `Err` with the reason for a built-in that
/// is recognised but not invertible here.
pub open spec fn link_of(m: Module, name: Seq<char>, args: Seq<NodeId>) -> Result<(ChainOp, NodeId), Seq<char>> {
    if args.len() == 1 && unary_of(name) is Some {
        Ok((ChainOp::Registry(unary_of(name).unwrap()), args[0]))
    } else if name == "mul"@ && args.len() == 2 {
        if nonzero_lit(m, args[0]) && !nonzero_lit(m, args[1]) {
            Ok((ChainOp::MulByLit(args[0]), args[1]))
        } else if !nonzero_lit(m, args[0]) && nonzero_lit(m, args[1]) {
            Ok((ChainOp::MulByLit(args[1]), args[0]))
        } else {
            Err(mul_reason())
        }
    } else if name == "divide"@ && args.len() == 2 {
        if !num_lit(m, args[0]) && nonzero_lit(m, args[1]) {
            Ok((ChainOp::DivByLit(args[1]), args[0]))
        } else {
            Err(divide_reason())
        }
    } else if name == "add"@ && args.len() == 2 {
        if num_lit(m, args[0]) && !num_lit(m, args[1]) {
            Ok((ChainOp::AddLit(args[0]), args[1]))
        } else if !num_lit(m, args[0]) && num_lit(m, args[1]) {
            Ok((ChainOp::AddLit(args[1]), args[0]))
        } else {
            Err(add_reason())
        }
    } else if name == "sub"@ && args.len() == 2 {
        if !num_lit(m, args[0]) && num_lit(m, args[1]) {
            Ok((ChainOp::SubLit(args[1]), args[0]))
        } else if num_lit(m, args[0]) && !num_lit(m, args[1]) {
            Ok((ChainOp::RSubLit(args[0]), args[1]))
        } else {
            Err(sub_reason())
        }
    } else if name == "pow"@ {
        Err(pow_reason())
    } else {
        Err(no_inverse_reason())
    }
}

/// The op at `cur` as a chain link: `None` for a node that is not a built-in
/// call (a user call, or a leaf that is not the input).
pub open spec fn chain_link(m: Module, cur: NodeId) -> Result<Option<(ChainOp, NodeId)>, Seq<char>> {
    match m.at(cur) {
        Node::Call(c) => match c.head {
            CallHead::Builtin(s) => match link_of(m, m.name_of(s), c.args@) {
                Ok(x) => Ok(Some(x)),
                Err(reason) => Err(reason),
            },
            CallHead::User(_) => Ok(None),
        },
        _ => Ok(None),
    }
}

/// Node `id` is the placeholder reference `(%ref %local ph)`.
pub open spec fn placeholder_ref(m: Module, id: NodeId, ph: Symbol) -> bool {
    m.at(id) == Node::Ref(Ref { ns: RefNs::Local, name: ph })
}

/// The chain of ops from `cur` down to the input `ph`, outermost first:
/// `Ok(None)` where a link is not a recognised forward op, `Err` with the node
/// and reason of the first link that is recognised but not invertible.
pub open spec fn chain_of(m: Module, cur: NodeId, ph: Symbol) -> Result<Option<Seq<ChainOp>>, (NodeId, Seq<char>)>
    decreases cur.0,
{
    if placeholder_ref(m, cur, ph) {
        Ok(Some(Seq::empty()))
    } else {
        match chain_link(m, cur) {
            Err(reason) => Err((cur, reason)),
            Ok(None) => Ok(None),
            Ok(Some((op, child))) => if child.0 < cur.0 {
                match chain_of(m, child, ph) {
                    Ok(Some(rest)) => Ok(Some(seq![op] + rest)),
                    other => other,
                }
            } else {
                Ok(None)
            },
        }
    }
}

/// The positional arguments of a built-in call are older than it.
pub proof fn lemma_args_older(m: Module, cur: NodeId)
    requires
        m.wf(),
        cur.0 < m.nodes@.len(),
    ensures
        m.at(cur) matches Node::Call(c) ==> forall|k: int| 0 <= k < c.args@.len() ==> (#[trigger] c.args@[k]).0 < cur.0,
{
    assert(node_wf(m.nodes@[cur.0 as int], cur.0 as int, m.symbols@.len()));
    if let Node::Call(c) = m.at(cur) {
        assert forall|k: int| 0 <= k < c.args@.len() implies (#[trigger] c.args@[k]).0 < cur.0 by {
            let h: Seq<NodeId> = match c.head {
                CallHead::User(f) => seq![f],
                CallHead::Builtin(_) => Seq::empty(),
            };
            assert(call_children(c)[h.len() + k] == c.args@[k]);
            assert(node_children(m.nodes@[cur.0 as int])[h.len() + k] == c.args@[k]);
        }
    }
}

/// Whether `id` is a numeric literal.
fn is_num_lit(m: &Module, id: NodeId) -> (r: bool)
    requires
        id.0 < m.nodes@.len(),
    ensures
        r == num_lit(*m, id),
{
    match m.node(id) {
        Node::Lit(Scalar::Real(_)) => true,
        Node::Lit(Scalar::Int(_)) => true,
        _ => false,
    }
}

/// Whether `id` is a numeric literal other than zero.
fn is_nonzero_lit(m: &Module, id: NodeId) -> (r: bool)
    requires
        id.0 < m.nodes@.len(),
    ensures
        r == nonzero_lit(*m, id),
{
    match m.node(id) {
        Node::Lit(Scalar::Real(bits)) => *bits & MAGNITUDE_MASK != 0,
        Node::Lit(Scalar::Int(i)) => *i != 0,
        _ => false,
    }
}

/// Classify the op at `cur` as a link of a forward chain.
pub fn classify(m: &Module, cur: NodeId) -> (r: Result<Option<(ChainOp, NodeId)>, RefuseError>)
    requires
        m.wf(),
        cur.0 < m.nodes@.len(),
    ensures
        match chain_link(*m, cur) {
            Ok(x) => r matches Ok(y) && y == x,
            Err(reason) => refused(*m, r, cur, reason),
        },
        r matches Ok(Some(x)) ==> x.1.0 < cur.0,
{
    proof {
        assert(node_wf(m.nodes@[cur.0 as int], cur.0 as int, m.symbols@.len()));
        lemma_args_older(*m, cur);
    }
    let (name, args) = match m.node(cur) {
        Node::Call(c) => match c.head {
            CallHead::Builtin(sym) => (m.resolve(sym), &c.args),
            CallHead::User(_) => return Ok(None),
        },
        _ => return Ok(None),
    };
    if args.len() == 1 {
        if let Some(op) = unary_entry(name) {
            return Ok(Some((ChainOp::Registry(op), args[0])));
        }
    }
    if str_eq(name, "mul") && args.len() == 2 {
        let a = is_nonzero_lit(m, args[0]);
        let b = is_nonzero_lit(m, args[1]);
        if a && !b {
            Ok(Some((ChainOp::MulByLit(args[0]), args[1])))
        } else if !a && b {
            Ok(Some((ChainOp::MulByLit(args[1]), args[0])))
        } else {
            Err(refuse(cur, m, "mul with two non-literal (or two literal, or a literal-zero scale) operands is not an invertible affine map — refuse rather than mislower"))
        }
    } else if str_eq(name, "divide") && args.len() == 2 {
        if !is_num_lit(m, args[0]) && is_nonzero_lit(m, args[1]) {
            Ok(Some((ChainOp::DivByLit(args[1]), args[0])))
        } else {
            Err(refuse(cur, m, "divide is an invertible affine map only with a literal, nonzero denominator (u / c) — refuse rather than mislower"))
        }
    } else if str_eq(name, "add") && args.len() == 2 {
        let a = is_num_lit(m, args[0]);
        let b = is_num_lit(m, args[1]);
        if a && !b {
            Ok(Some((ChainOp::AddLit(args[0]), args[1])))
        } else if !a && b {
            Ok(Some((ChainOp::AddLit(args[1]), args[0])))
        } else {
            Err(refuse(cur, m, "add with two non-literal (or two literal) operands is not an invertible affine map — refuse rather than mislower"))
        }
    } else if str_eq(name, "sub") && args.len() == 2 {
        let a = is_num_lit(m, args[0]);
        let b = is_num_lit(m, args[1]);
        if !a && b {
            Ok(Some((ChainOp::SubLit(args[1]), args[0])))
        } else if a && !b {
            Ok(Some((ChainOp::RSubLit(args[0]), args[1])))
        } else {
            Err(refuse(cur, m, "sub with two non-literal (or two literal) operands is not an invertible affine map — refuse rather than mislower"))
        }
    } else if str_eq(name, "pow") {
        Err(refuse(cur, m, "pow inside a composition is not an invertible shape here (its input domain is not verifiable) — refuse rather than mislower"))
    } else {
        Err(refuse(cur, m, "forward op is a recognised builtin with no analytic inverse — refuse rather than mislower"))
    }
}

/// The chain result `r` with `ops` put in front of a completed chain.
pub open spec fn prefixed(ops: Seq<ChainOp>, r: Result<Option<Seq<ChainOp>>, (NodeId, Seq<char>)>) -> Result<Option<Seq<ChainOp>>, (NodeId, Seq<char>)> {
    match r {
        Ok(Some(rest)) => Ok(Some(ops + rest)),
        other => other,
    }
}

/// Whether `id` is the placeholder reference `(%ref %local ph)`.
pub fn is_placeholder_ref(m: &Module, id: NodeId, ph: Symbol) -> (r: bool)
    requires
        id.0 < m.nodes@.len(),
    ensures
        r == placeholder_ref(*m, id, ph),
{
    match m.node(id) {
        Node::Ref(x) => x.ns == RefNs::Local && x.name == ph,
        _ => false,
    }
}

/// Flatten the forward chain rooted at `body` into its ops, outermost first,
/// walking down each op's one sub-expression until the input `ph`: `Ok(None)`
/// where a link is not a recognised forward op, a refusal at the first link
/// that is recognised but has no inverse here.
pub fn flatten_chain(m: &Module, body: NodeId, ph: Symbol) -> (r: Result<Option<Vec<ChainOp>>, RefuseError>)
    requires
        m.wf(),
        body.0 < m.nodes@.len(),
    ensures
        match chain_of(*m, body, ph) {
            Ok(None) => r matches Ok(None),
            Ok(Some(ops)) => r matches Ok(Some(v)) && v@ == ops,
            Err((node, reason)) => refused(*m, r, node, reason),
        },
{
    let mut ops: Vec<ChainOp> = Vec::new();
    let mut cur = body;
    assert(prefixed(ops@, chain_of(*m, cur, ph)) == chain_of(*m, body, ph)) by {
        if let Ok(Some(rest)) = chain_of(*m, cur, ph) {
            assert(ops@ + rest =~= rest);
        }
    }
    loop
        invariant
            m.wf(),
            cur.0 < m.nodes@.len(),
            prefixed(ops@, chain_of(*m, cur, ph)) == chain_of(*m, body, ph),
        decreases cur.0,
    {
        if is_placeholder_ref(m, cur, ph) {
            assert(ops@ + Seq::<ChainOp>::empty() =~= ops@);
            return Ok(Some(ops));
        }
        match classify(m, cur) {
            Err(e) => return Err(e),
            Ok(None) => return Ok(None),
            Ok(Some((op, child))) => {
                proof {
                    if let Ok(Some(rest)) = chain_of(*m, child, ph) {
                        assert(ops@ + (seq![op] + rest) =~= ops@.push(op) + rest);
                    }
                }
                ops.push(op);
                cur = child;
            },
        }
    }
}

/// The bit pattern of the real literal `10.0`.
pub const TEN_BITS: u64 = 0x4024_0000_0000_0000u64;

impl UnaryOp {
    /// The built-in the inverse is, where it is a single one.
    pub fn inverse_name(self) -> (r: Option<&'static str>)
        ensures
            match r {
                Some(s) => inverse_builtin(self) == Some(s@),
                None => inverse_builtin(self) is None,
            },
            r matches Some(s) ==> undoes(s@, unary_name(self)),
    {
        match self {
            UnaryOp::Exp => Some("log"),
            UnaryOp::Log => Some("exp"),
            UnaryOp::Neg => Some("neg"),
            UnaryOp::Sqrt => None,
            UnaryOp::Log10 => None,
            UnaryOp::Log1p => Some("expm1"),
            UnaryOp::Expm1 => Some("log1p"),
            UnaryOp::Logit => Some("invlogit"),
            UnaryOp::Invlogit => Some("logit"),
            UnaryOp::Probit => Some("invprobit"),
            UnaryOp::Invprobit => Some("probit"),
            UnaryOp::Atan => Some("tan"),
            UnaryOp::Sinh => Some("asinh"),
            UnaryOp::Asinh => Some("sinh"),
            UnaryOp::Tanh => Some("atanh"),
        }
    }
}

/// The literal operand of an affine op lies in the arena of `m`.
pub open spec fn op_in(m: Module, op: ChainOp) -> bool {
    match op {
        ChainOp::Registry(_) => true,
        ChainOp::MulByLit(c) => c.0 < m.nodes@.len(),
        ChainOp::DivByLit(c) => c.0 < m.nodes@.len(),
        ChainOp::AddLit(c) => c.0 < m.nodes@.len(),
        ChainOp::SubLit(c) => c.0 < m.nodes@.len(),
        ChainOp::RSubLit(c) => c.0 < m.nodes@.len(),
    }
}

/// Node `id` is the real literal with bit pattern `bits`.
pub open spec fn real_lit(m: Module, id: NodeId, bits: u64) -> bool {
    id.0 < m.nodes@.len() && m.at(id) == Node::Lit(Scalar::Real(bits))
}

/// Node `r` is `op`'s inverse applied at `acc`: the single inverse built-in
/// `name(acc)`; `pow(acc, 2.0)` for `sqrt`; `pow(10.0, acc)` for `log10`;
/// `divide(acc, c)`, `mul(acc, c)`, `sub(acc, c)`, `add(acc, c)` and
/// `sub(c, acc)` for `c·z`, `z/c`, `z+c`, `z−c` and `c−z`.
pub open spec fn inverse_at(m: Module, op: ChainOp, acc: NodeId, r: NodeId) -> bool {
    match op {
        ChainOp::Registry(u) => match inverse_builtin(u) {
            Some(name) => plain_args(m, r, name) == Some(seq![acc]),
            None => match u {
                UnaryOp::Sqrt => plain_args(m, r, "pow"@) matches Some(a) && a.len() == 2 && a[0] == acc && real_lit(m, a[1], TWO_BITS),
                UnaryOp::Log10 => plain_args(m, r, "pow"@) matches Some(a) && a.len() == 2 && real_lit(m, a[0], TEN_BITS) && a[1] == acc,
                _ => false,
            },
        },
        ChainOp::MulByLit(c) => plain_args(m, r, "divide"@) == Some(seq![acc, c]),
        ChainOp::DivByLit(c) => plain_args(m, r, "mul"@) == Some(seq![acc, c]),
        ChainOp::AddLit(c) => plain_args(m, r, "sub"@) == Some(seq![acc, c]),
        ChainOp::SubLit(c) => plain_args(m, r, "add"@) == Some(seq![acc, c]),
        ChainOp::RSubLit(c) => plain_args(m, r, "sub"@) == Some(seq![c, acc]),
    }
}

/// Apply `op`'s inverse to the accumulating argument `acc`.
pub fn apply_inverse(m: &mut Module, op: ChainOp, acc: NodeId) -> (r: NodeId)
    requires
        old(m).wf(),
        acc.0 < old(m).nodes@.len(),
        op_in(*old(m), op),
    ensures
        final(m).wf(),
        final(m).extends(old(m)),
        final(m).bindings@ == old(m).bindings@,
        old(m).nodes@.len() <= r.0 < final(m).nodes@.len(),
        inverse_at(*final(m), op, acc, r),
{
    match op {
        ChainOp::Registry(u) => match u.inverse_name() {
            Some(name) => {
                let r = build_call(m, name, &[acc]);
                assert(plain_args(*m, r, name@) == Some(seq![acc]));
                r
            },
            None => {
                if matches!(u, UnaryOp::Sqrt) {
                    let two = m.add_node(Node::Lit(Scalar::Real(TWO_BITS)));
                    let r = build_call(m, "pow", &[acc, two]);
                    proof {
                        assert(m.nodes@[two.0 as int] == Node::Lit(Scalar::Real(TWO_BITS)));
                        assert(plain_args(*m, r, "pow"@) == Some(seq![acc, two]));
                        assert(inverse_at(*m, op, acc, r));
                    }
                    r
                } else {
                    let ten = m.add_node(Node::Lit(Scalar::Real(TEN_BITS)));
                    let r = build_call(m, "pow", &[ten, acc]);
                    proof {
                        assert(m.nodes@[ten.0 as int] == Node::Lit(Scalar::Real(TEN_BITS)));
                    }
                    r
                }
            },
        },
        ChainOp::MulByLit(c) => build_call(m, "divide", &[acc, c]),
        ChainOp::DivByLit(c) => build_call(m, "mul", &[acc, c]),
        ChainOp::AddLit(c) => build_call(m, "sub", &[acc, c]),
        ChainOp::SubLit(c) => build_call(m, "add", &[acc, c]),
        ChainOp::RSubLit(c) => build_call(m, "sub", &[c, acc]),
    }
}

/// What `inverse_at` says of older nodes stays true as the arena grows.
proof fn lemma_inverse_at_stable(m1: Module, m2: Module, op: ChainOp, acc: NodeId, r: NodeId)
    requires
        m1.wf(),
        m2.extends(&m1),
        r.0 < m1.nodes@.len(),
        inverse_at(m1, op, acc, r),
    ensures
        inverse_at(m2, op, acc, r),
{
    assert(m2.nodes@[r.0 as int] == m1.nodes@[r.0 as int]);
    assert(node_wf(m1.nodes@[r.0 as int], r.0 as int, m1.symbols@.len()));
    assert(plain_args(m2, r, "pow"@) == plain_args(m1, r, "pow"@));
    if let Some(a) = plain_args(m1, r, "pow"@) {
        if a.len() == 2 {
            if a[0].0 < m1.nodes@.len() {
                assert(m2.nodes@[a[0].0 as int] == m1.nodes@[a[0].0 as int]);
            }
            if a[1].0 < m1.nodes@.len() {
                assert(m2.nodes@[a[1].0 as int] == m1.nodes@[a[1].0 as int]);
            }
        }
    }
}

/// Node `r` undoes registry op `u` at `acc`: it applies to `acc` a single
/// built-in that undoes `u`, or, for `sqrt` and `log10`, the power that does:
/// `pow(acc, 2.0)` and `pow(10.0, acc)`.
pub open spec fn undone_at(m: Module, u: UnaryOp, acc: NodeId, r: NodeId) -> bool {
    ||| exists|g: Seq<char>| undoes(g, unary_name(u)) && #[trigger] plain_args(m, r, g) == Some(seq![acc])
    ||| (u == UnaryOp::Sqrt && (plain_args(m, r, "pow"@) matches Some(a) && a.len() == 2 && a[0] == acc
        && real_lit(m, a[1], TWO_BITS)))
    ||| (u == UnaryOp::Log10 && (plain_args(m, r, "pow"@) matches Some(a) && a.len() == 2 && real_lit(
        m,
        a[0],
        TEN_BITS,
    ) && a[1] == acc))
}

/// Each registry step of an inverse walk undoes its op at the accumulator
/// before it.
pub proof fn law_inverse_walk_undoes_registry(m: Module, ops: Seq<ChainOp>, y: NodeId, accs: Seq<NodeId>)
    requires
        inverse_walk(m, ops, y, accs),
    ensures
        forall|i: int|
            0 <= i < ops.len() && (#[trigger] ops[i]) is Registry ==> undone_at(m, ops[i]->Registry_0, accs[i], accs[i + 1]),
{
    assert forall|i: int|
        0 <= i < ops.len() && (#[trigger] ops[i]) is Registry implies undone_at(m, ops[i]->Registry_0, accs[i], accs[i + 1]) by {
        let u = ops[i]->Registry_0;
        assert(inverse_at(m, ops[i], accs[i], accs[i + 1]));
        law_inverse_builtin_undoes(u);
        if let Some(g) = inverse_builtin(u) {
            assert(plain_args(m, accs[i + 1], g) == Some(seq![accs[i]]));
        }
    }
}

/// The accumulators of the inverse walk of `ops` from `y`: `accs[0]` is `y`,
/// and each next one is the inverse of the next op applied at the one before.
pub open spec fn inverse_walk(m: Module, ops: Seq<ChainOp>, y: NodeId, accs: Seq<NodeId>) -> bool {
    &&& accs.len() == ops.len() + 1
    &&& accs[0] == y
    &&& forall|i: int| 0 <= i < ops.len() ==> inverse_at(m, #[trigger] ops[i], accs[i], accs[i + 1])
}

/// Thread the per-op inverses of a chain (outermost first) through `y`,
/// giving `g₁⁻¹(…(gₙ⁻¹(y))…)` as the last accumulator; every accumulator is
/// returned, since the log-volume of each op is read at its own output.
pub fn invert_chain(m: &mut Module, ops: &Vec<ChainOp>, y: NodeId) -> (accs: Vec<NodeId>)
    requires
        old(m).wf(),
        y.0 < old(m).nodes@.len(),
        forall|i: int| 0 <= i < ops@.len() ==> op_in(*old(m), #[trigger] ops@[i]),
    ensures
        final(m).wf(),
        final(m).extends(old(m)),
        final(m).bindings@ == old(m).bindings@,
        inverse_walk(*final(m), ops@, y, accs@),
        forall|i: int| 0 <= i < accs@.len() ==> (#[trigger] accs@[i]).0 < final(m).nodes@.len(),
{
    let ghost m0 = *m;
    let mut accs: Vec<NodeId> = Vec::new();
    accs.push(y);
    let mut acc = y;
    let mut k: usize = 0;
    while k < ops.len()
        invariant
            m.wf(),
            m.extends(&m0),
            m.bindings@ == m0.bindings@,
            k <= ops@.len(),
            accs@.len() == k + 1,
            accs@[0] == y,
            acc == accs@[k as int],
            forall|i: int| 0 <= i < accs@.len() ==> (#[trigger] accs@[i]).0 < m.nodes@.len(),
            forall|i: int| 0 <= i < k ==> inverse_at(*m, #[trigger] ops@[i], accs@[i], accs@[i + 1]),
            forall|i: int| 0 <= i < ops@.len() ==> op_in(m0, #[trigger] ops@[i]),
        decreases ops@.len() - k,
    {
        let ghost before = *m;
        let op = ops[k];
        assert(op_in(m0, ops@[k as int]));
        let next = apply_inverse(m, op, acc);
        proof {
            assert forall|i: int| 0 <= i < k implies inverse_at(*m, #[trigger] ops@[i], accs@[i], accs@[i + 1]) by {
                lemma_inverse_at_stable(before, *m, ops@[i], accs@[i], accs@[i + 1]);
            }
        }
        accs.push(next);
        acc = next;
        k += 1;
    }
    accs
}

/// The first op before the last that is domain-restricted, from the `k`-th on.
pub open spec fn inner_restricted(ops: Seq<ChainOp>, k: nat) -> Option<int>
    decreases ops.len() - k,
{
    if k + 1 >= ops.len() {
        None
    } else if ops[k as int] matches ChainOp::Registry(u) && unary_domain(u) is Some {
        Some(k as int)
    } else {
        inner_restricted(ops, k + 1)
    }
}

/// The refusal text for a domain-restricted op inside a composition.
pub open spec fn inner_restricted_reason(u: UnaryOp) -> Seq<char> {
    unary_name(u) + " is restricted to "@ + set_text(unary_domain(u).unwrap())
        + " and sits inside a composition, where its input is an intermediate value this pass cannot bound"@
}

/// The domain-restricted op the chain ends in, with its domain, if any.
pub open spec fn last_restricted(ops: Seq<ChainOp>) -> Option<(UnaryOp, Domain)> {
    if ops.len() > 0 && (ops.last() matches ChainOp::Registry(u) && unary_domain(u) is Some) {
        Some((ops.last()->Registry_0, unary_domain(ops.last()->Registry_0).unwrap()))
    } else {
        None
    }
}

/// The base measure's support bounds only the innermost op's input, so a
/// domain-restricted op stands only last in the chain: refuse one anywhere
/// else; otherwise return the restricted last op and the domain the base's
/// support must lie in.
pub fn chain_domain(m: &Module, body: NodeId, ops: &Vec<ChainOp>) -> (r: Result<Option<(UnaryOp, Domain)>, RefuseError>)
    requires
        m.wf(),
        body.0 < m.nodes@.len(),
    ensures
        match inner_restricted(ops@, 0) {
            Some(i) => refused(*m, r, body, inner_restricted_reason(ops@[i]->Registry_0)),
            None => r matches Ok(x) && x == last_restricted(ops@),
        },
{
    let n = ops.len();
    let mut k: usize = 0;
    while k < n
        invariant
            n == ops@.len(),
            k <= n,
            m.wf(),
            body.0 < m.nodes@.len(),
            inner_restricted(ops@, 0) == inner_restricted(ops@, k as nat),
        ensures
            k + 1 >= n,
            inner_restricted(ops@, 0) == inner_restricted(ops@, k as nat),
        decreases n - k,
    {
        if k + 1 == n {
            break;
        }
        match ops[k] {
            ChainOp::Registry(u) => match u.domain() {
                Some(d) => {
                    let mut msg = String::from_str(u.name());
                    msg.append(" is restricted to ");
                    msg.append(d.set());
                    msg.append(" and sits inside a composition, where its input is an intermediate value this pass cannot bound");
                    return Err(refuse(body, m, msg.as_str()));
                },
                None => {},
            },
            _ => {},
        }
        k += 1;
    }
    if n == 0 {
        return Ok(None);
    }
    match ops[n - 1] {
        ChainOp::Registry(u) => match u.domain() {
            Some(d) => Ok(Some((u, d))),
            None => Ok(None),
        },
        _ => Ok(None),
    }
}

/// The refusal text for a base measure whose support is not shown to lie in
/// the domain of the op the chain ends in.
pub open spec fn support_reason(u: UnaryOp, d: Domain) -> Seq<char> {
    "a forward map through "@ + unary_name(u) + " requires the base measure's support to lie within "@
        + unary_name(u) + "'s domain, "@ + describe_text(d)
}

/// The refusal of a forward map at `body` whose last op `u` needs the base's
/// support inside `d`, where the support is not shown to lie there.
pub fn refuse_support(m: &Module, body: NodeId, u: UnaryOp, d: Domain) -> (e: RefuseError)
    requires
        m.wf(),
        body.0 < m.nodes@.len(),
    ensures
        e.node == body,
        e.construct@ == construct_name(*m, body),
        e.reason@ == support_reason(u, d),
{
    let mut msg = String::from_str("a forward map through ");
    msg.append(u.name());
    msg.append(" requires the base measure's support to lie within ");
    msg.append(u.name());
    msg.append("'s domain, ");
    msg.append(d.describe());
    proof {
        reveal_strlit("a forward map through ");
        reveal_strlit(" requires the base measure's support to lie within ");
        reveal_strlit("'s domain, ");
    }
    refuse(body, m, msg.as_str())
}

/// How `logdensityof(pushfwd(f, M), v)` proceeds, read off the call.
#[derive(Debug)]
pub enum PushfwdPlan {
    /// `f` is a structural projection `functionof(get(_, sel))`: a
    /// marginalization over the selected components of `inner`, not a change of
    /// variables.
    Projection { proj: GetProjection, inner: NodeId },
    /// `f` (one reference hop) is an explicit `bijection(forward, f_inv, logvol)`
    /// at `bij`.
    Explicit { bij: NodeId, forward: NodeId, f_inv: NodeId, logvol: NodeId, inner: NodeId },
    /// Anything else: the change of variables is to be derived from the forward
    /// map `forward` (as written; `resolved` after one reference hop).
    Derive { forward: NodeId, resolved: NodeId, inner: NodeId },
}

/// A pushforward plan as plain values.
pub enum PushfwdPlanV {
    Projection(SelectorV, bool, NodeId),
    Explicit(NodeId, NodeId, NodeId, NodeId, NodeId),
    Derive(NodeId, NodeId, NodeId),
}

pub open spec fn plan_view(p: PushfwdPlan) -> PushfwdPlanV {
    match p {
        PushfwdPlan::Projection { proj, inner } => PushfwdPlanV::Projection(selector_view(proj.sel), proj.subset, inner),
        PushfwdPlan::Explicit { bij, forward, f_inv, logvol, inner } => PushfwdPlanV::Explicit(bij, forward, f_inv, logvol, inner),
        PushfwdPlan::Derive { forward, resolved, inner } => PushfwdPlanV::Derive(forward, resolved, inner),
    }
}

pub open spec fn bijection_arity_reason() -> Seq<char> {
    "bijection expects 3 args (f, f_inv, logvol)"@
}

/// The plan of the `pushfwd` call at `node`, or the node and reason it is
/// refused for: a node that is not a `pushfwd`, a `pushfwd` without exactly two
/// positional arguments, an explicit `bijection` without exactly three.
pub open spec fn pushfwd_plan_spec(m: Module, node: NodeId) -> Result<PushfwdPlanV, (NodeId, Seq<char>)> {
    if !is_builtin_named(m, node, "pushfwd"@) {
        Err((node, "expected pushfwd"@))
    } else if m.at(node)->Call_0.args@.len() != 2 {
        Err((node, "pushfwd expects 2 args"@))
    } else {
        let f = m.at(node)->Call_0.args@[0];
        let inner = m.at(node)->Call_0.args@[1];
        let resolved = resolve_one_spec(m, f).0;
        match projection_spec(m, resolved) {
            Some((sel, subset)) => Ok(PushfwdPlanV::Projection(sel, subset, inner)),
            None => if is_builtin_named(m, resolved, "bijection"@) {
                let a = m.at(resolved)->Call_0.args@;
                if a.len() != 3 {
                    Err((resolved, bijection_arity_reason()))
                } else {
                    Ok(PushfwdPlanV::Explicit(resolved, a[0], a[1], a[2], inner))
                }
            } else {
                Ok(PushfwdPlanV::Derive(f, resolved, inner))
            },
        }
    }
}

/// Read `logdensityof(pushfwd(f, M), v)` off the call at `node`: a structural
/// projection is a marginalization; an explicit `bijection` (one reference
/// hop) hands over its inverse and log-volume; any other forward map is left
/// for the change of variables to be derived from it.
pub fn pushfwd_plan(m: &Module, node: NodeId) -> (r: Result<PushfwdPlan, RefuseError>)
    requires
        m.wf(),
        node.0 < m.nodes@.len(),
    ensures
        match pushfwd_plan_spec(*m, node) {
            Ok(p) => r matches Ok(q) && plan_view(q) == p,
            Err((at, reason)) => refused(*m, r, at, reason),
        },
        r matches Ok(q) ==> match q {
            PushfwdPlan::Projection { inner, .. } => inner.0 < m.nodes@.len(),
            PushfwdPlan::Explicit { bij, forward, f_inv, logvol, inner } => bij.0 < m.nodes@.len()
                && forward.0 < m.nodes@.len() && f_inv.0 < m.nodes@.len() && logvol.0 < m.nodes@.len()
                && inner.0 < m.nodes@.len(),
            PushfwdPlan::Derive { forward, resolved, inner } => forward.0 < m.nodes@.len()
                && resolved.0 < m.nodes@.len() && inner.0 < m.nodes@.len(),
        },
{
    let c = match expect_builtin_call(m, node, "pushfwd") {
        Some(c) => c,
        None => return Err(refuse(node, m, "expected pushfwd")),
    };
    if c.args.len() != 2 {
        return Err(refuse(node, m, "pushfwd expects 2 args"));
    }
    proof {
        lemma_args_older(*m, node);
    }
    let f = c.args[0];
    let inner = c.args[1];
    let (resolved, _) = resolve_ref_one(m, f);
    if let Some(proj) = recognize_get_projection(m, resolved) {
        return Ok(PushfwdPlan::Projection { proj, inner });
    }
    match expect_builtin_call(m, resolved, "bijection") {
        Some(b) => {
            if b.args.len() != 3 {
                return Err(refuse(resolved, m, "bijection expects 3 args (f, f_inv, logvol)"));
            }
            proof {
                lemma_args_older(*m, resolved);
            }
            Ok(PushfwdPlan::Explicit { bij: resolved, forward: b.args[0], f_inv: b.args[1], logvol: b.args[2], inner })
        },
        None => Ok(PushfwdPlan::Derive { forward: f, resolved, inner }),
    }
}

} // verus!

