//! Root-based dead-code elimination: keep only the bindings reachable from
//! the requested outputs.

use vstd::prelude::*;
use crate::disintegrate::{bound_refers, reachable, reaches, refers_any};
use crate::driver::subtree_refers;
use crate::ir::{BindingId, Module, NodeId, Symbol};

verus! {

/// Binding `b` is one of the roots that exist.
pub open spec fn is_root(m: Module, roots: Seq<Symbol>, b: BindingId) -> bool {
    m.live(b) && roots.contains(m.bind(b).name)
}

/// Some root's right-hand side names binding `s` directly.
pub open spec fn root_refers(m: Module, roots: Seq<Symbol>, s: Symbol) -> bool {
    exists|b: BindingId| #[trigger] is_root(m, roots, b) && subtree_refers(m, m.bind(b).rhs, s)
}

/// `s` is named within `n` hops from the roots' right-hand sides.
pub open spec fn root_reaches(m: Module, roots: Seq<Symbol>, s: Symbol, n: nat) -> bool
    decreases n,
{
    root_refers(m, roots, s) || (n > 0 && exists|t: Symbol|
        root_reaches(m, roots, t, (n - 1) as nat) && #[trigger] bound_refers(m, t, s))
}

/// Binding `b` survives elimination: it is a root, or its name is reached
/// from a root's right-hand side through `(%ref self …)` edges (body nodes
/// and reification inputs) into the referenced bindings' right-hand sides.
pub open spec fn kept(m: Module, roots: Seq<Symbol>, b: BindingId) -> bool {
    m.live(b) && (roots.contains(m.bind(b).name) || exists|n: nat| #[trigger] root_reaches(
        m,
        roots,
        m.bind(b).name,
        n,
    ))
}

proof fn lemma_reaches_roots(m: Module, roots: Seq<Symbol>, starts: Seq<NodeId>, n: nat)
    requires
        forall|s: Symbol| #[trigger] refers_any(m, starts, s) == root_refers(m, roots, s),
    ensures
        forall|s: Symbol| #[trigger] reaches(m, starts, s, n) == root_reaches(m, roots, s, n),
    decreases n,
{
    if n > 0 {
        lemma_reaches_roots(m, roots, starts, (n - 1) as nat);
    }
    assert forall|s: Symbol| #[trigger] reaches(m, starts, s, n) == root_reaches(m, roots, s, n) by {
        assert(refers_any(m, starts, s) == root_refers(m, roots, s));
        if n > 0 {
            if reaches(m, starts, s, n) && !refers_any(m, starts, s) {
                let t = choose|t: Symbol| reaches(m, starts, t, (n - 1) as nat) && #[trigger] bound_refers(m, t, s);
                assert(root_reaches(m, roots, t, (n - 1) as nat));
            }
            if root_reaches(m, roots, s, n) && !root_refers(m, roots, s) {
                let t = choose|t: Symbol| root_reaches(m, roots, t, (n - 1) as nat) && #[trigger] bound_refers(m, t, s);
                assert(reaches(m, starts, t, (n - 1) as nat));
            }
        }
    }
}

/// Keep exactly the bindings [`kept`] from `roots`; remove the rest. A root
/// name with no binding is ignored.
pub fn retain_reachable(m: &mut Module, roots: &[Symbol])
    requires
        old(m).wf(),
    ensures
        final(m).wf(),
        final(m).nodes@ == old(m).nodes@,
        final(m).symbols@ == old(m).symbols@,
        final(m).types@ == old(m).types@,
        final(m).phases@ == old(m).phases@,
        final(m).bindings@.len() == old(m).bindings@.len(),
        forall|b: BindingId| #[trigger] final(m).live(b) == kept(*old(m), roots@, b),
        forall|b: BindingId| #[trigger] final(m).live(b) ==> final(m).bind(b) == old(m).bind(b),
{
    let ghost m0 = *m;
    // The right-hand sides of the roots that exist.
    let mut starts: Vec<NodeId> = Vec::new();
    let ghost mut src: Seq<BindingId> = Seq::empty();
    let mut i: usize = 0;
    while i < roots.len()
        invariant
            m.wf(),
            *m == m0,
            i <= roots@.len(),
            src.len() == starts@.len(),
            forall|k: int| 0 <= k < src.len() ==> #[trigger] is_root(m0, roots@, src[k]) && m0.bind(src[k]).rhs == starts@[k],
            forall|b: BindingId|
                #[trigger] is_root(m0, roots@, b) && roots@.subrange(0, i as int).contains(m0.bind(b).name)
                    ==> starts@.contains(m0.bind(b).rhs),
            forall|k: int| 0 <= k < starts@.len() ==> (#[trigger] starts@[k]).0 < m0.nodes@.len(),
        decreases roots@.len() - i,
    {
        let ghost s0 = starts@;
        let found = m.binding_by_name(roots[i]);
        match found {
            Some(bid) => {
                proof {
                    assert(m.binding_wf(m.bind(bid)));
                    assert(roots@.contains(roots@[i as int]));
                    assert(is_root(m0, roots@, bid));
                }
                starts.push(m.binding(bid).rhs);
                proof {
                    src = src.push(bid);
                }
            },
            None => {},
        }
        proof {
            assert forall|b: BindingId|
                #[trigger] is_root(m0, roots@, b) && roots@.subrange(0, i + 1).contains(m0.bind(b).name)
                    implies starts@.contains(m0.bind(b).rhs) by {
                let sub = roots@.subrange(0, i + 1);
                let pre = roots@.subrange(0, i as int);
                let q = choose|q: int| 0 <= q < i + 1 && sub[q] == m0.bind(b).name;
                if q < i {
                    assert(pre[q] == m0.bind(b).name);
                    assert(s0.contains(m0.bind(b).rhs));
                    let p = choose|p: int| 0 <= p < s0.len() && s0[p] == m0.bind(b).rhs;
                    assert(starts@[p] == s0[p]);
                } else {
                    assert(m0.bind(b).name == roots@[i as int]);
                    match found {
                        Some(bid) => {
                            if bid != b {
                                assert(m0.bind(bid).name != m0.bind(b).name);
                            }
                            assert(starts@[starts@.len() - 1] == m0.bind(b).rhs);
                        },
                        None => {
                            assert(m0.has_binding_named(roots@[i as int]));
                        },
                    }
                }
            }
        }
        i += 1;
    }
    proof {
        assert(roots@.subrange(0, roots@.len() as int) =~= roots@);
        assert forall|s: Symbol| #[trigger] refers_any(m0, starts@, s) == root_refers(m0, roots@, s) by {
            if refers_any(m0, starts@, s) {
                let k = choose|k: int| 0 <= k < starts@.len() && #[trigger] subtree_refers(m0, starts@[k], s);
                assert(is_root(m0, roots@, src[k]));
            }
            if root_refers(m0, roots@, s) {
                let b = choose|b: BindingId| #[trigger] is_root(m0, roots@, b) && subtree_refers(m0, m0.bind(b).rhs, s);
                assert(starts@.contains(m0.bind(b).rhs));
                let k = choose|k: int| 0 <= k < starts@.len() && starts@[k] == m0.bind(b).rhs;
                assert(subtree_refers(m0, starts@[k], s));
            }
        }
    }
    let mut marks = crate::disintegrate::mark_all(m, &starts);
    proof {
        assert forall|y: Symbol| y.0 < marks@.len() && #[trigger] marks@[y.0 as int] implies reachable(*m, starts@, y) by {
            assert(reaches(*m, starts@, y, 0));
        }
    }
    let ghost direct = marks@;
    crate::disintegrate::close_marks(m, &mut marks, Ghost(starts@));
    proof {
        assert forall|y: Symbol| y.0 < marks@.len() implies (#[trigger] marks@[y.0 as int] <==> exists|n: nat|
            #[trigger] root_reaches(m0, roots@, y, n)) by {
            if marks@[y.0 as int] {
                assert(reachable(m0, starts@, y));
                let n = choose|n: nat| #[trigger] reaches(m0, starts@, y, n);
                lemma_reaches_roots(m0, roots@, starts@, n);
                assert(root_reaches(m0, roots@, y, n));
            }
            if exists|n: nat| #[trigger] root_reaches(m0, roots@, y, n) {
                let n = choose|n: nat| #[trigger] root_reaches(m0, roots@, y, n);
                lemma_reaches_roots(m0, roots@, starts@, n);
                assert forall|x: Symbol| x.0 < marks@.len() && #[trigger] refers_any(m0, starts@, x) implies marks@[x.0 as int] by {
                    assert(direct[x.0 as int]);
                }
                crate::disintegrate::lemma_closed_covers(m0, starts@, marks@, y, n);
            }
        }
    }
    // The surviving slots.
    let mut keep: Vec<BindingId> = Vec::new();
    let mut s: usize = 0;
    while s < m.bindings.len()
        invariant
            m.wf(),
            *m == m0,
            s <= m.bindings@.len(),
            marks@.len() == m.symbols@.len(),
            forall|y: Symbol| y.0 < marks@.len() ==> (#[trigger] marks@[y.0 as int] <==> exists|n: nat|
                #[trigger] root_reaches(m0, roots@, y, n)),
            forall|b: BindingId| #[trigger] keep@.contains(b) ==> b.0 < s,
            forall|b: BindingId| b.0 < s ==> (#[trigger] keep@.contains(b) <==> kept(m0, roots@, b)),
        decreases m.bindings@.len() - s,
    {
        let ghost k0 = keep@;
        if let Some(b) = &m.bindings[s] {
            let bid = BindingId(s);
            proof {
                assert(m.live(bid));
                assert(m.binding_wf(m.bind(bid)));
            }
            let mut is_root_name = false;
            let mut r: usize = 0;
            while r < roots.len()
                invariant
                    r <= roots@.len(),
                    is_root_name <==> roots@.subrange(0, r as int).contains(b.name),
                decreases roots@.len() - r,
            {
                if roots[r] == b.name {
                    is_root_name = true;
                }
                proof {
                    let sub = roots@.subrange(0, r + 1);
                    assert(sub[r as int] == roots@[r as int]);
                    let pre = roots@.subrange(0, r as int);
                    if pre.contains(b.name) {
                        let q = choose|q: int| 0 <= q < r && pre[q] == b.name;
                        assert(sub[q] == b.name);
                    }
                    if sub.contains(b.name) {
                        let q = choose|q: int| 0 <= q < r + 1 && sub[q] == b.name;
                        if q < r {
                            assert(pre[q] == b.name);
                        }
                    }
                }
                r += 1;
            }
            proof {
                assert(roots@.subrange(0, roots@.len() as int) =~= roots@);
            }
            let pushed = is_root_name || marks[b.name.0];
            if pushed {
                keep.push(bid);
            }
            proof {
                assert(m0.bind(bid) == *b);
                assert(is_root_name <==> roots@.contains(b.name));
                assert(marks@[b.name.0 as int] <==> exists|n: nat| #[trigger] root_reaches(m0, roots@, b.name, n));
                assert(pushed == kept(m0, roots@, bid));
                assert forall|x: BindingId| #[trigger] keep@.contains(x) implies x.0 < s + 1 by {
                    if !k0.contains(x) {
                        assert(keep@[keep@.len() - 1] == x);
                    }
                }
                assert forall|x: BindingId| x.0 < s + 1 implies (#[trigger] keep@.contains(x) <==> kept(m0, roots@, x)) by {
                    if keep@.contains(x) && !k0.contains(x) {
                        assert(keep@[keep@.len() - 1] == x);
                    }
                    if k0.contains(x) {
                        let q = choose|q: int| 0 <= q < k0.len() && k0[q] == x;
                        assert(keep@[q] == x);
                    }
                    if x.0 == s {
                        assert(x == bid);
                        if pushed {
                            assert(keep@[keep@.len() - 1] == x);
                        }
                    }
                }
            }
        } else {
            proof {
                assert forall|x: BindingId| x.0 < s + 1 implies (#[trigger] keep@.contains(x) <==> kept(m0, roots@, x)) by {
                    if x.0 == s {
                        assert(!m0.live(x));
                    }
                }
            }
        }
        s += 1;
    }
    m.retain_bindings(&keep);
    proof {
        assert forall|b: BindingId| #[trigger] m.live(b) == kept(m0, roots@, b) by {
            if m0.live(b) {
                assert(b.0 < m0.bindings@.len());
            }
        }
    }
}

} // verus!
