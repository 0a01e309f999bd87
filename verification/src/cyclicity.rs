use vstd::prelude::*;

verus! {

/// Marker: edges of the kind may close cycles freely.
pub struct Cyclic;

/// Marker: edges of the kind must not close a cycle along the deterministic
/// chain; an insertion that would do so is rejected.
pub struct Acyclic;

/// Whether a relation kind tolerates cycles: either [`Cyclic`] or [`Acyclic`].
pub trait Cyclicity {
    /// Whether cycles are permitted.
    spec fn allows_cycles() -> bool;

    /// Runtime tag for this cyclicity, used when a store is configured.
    fn cycles_allowed() -> (b: bool)
        ensures
            b == Self::allows_cycles(),
    ;
}

impl Cyclicity for Cyclic {
    open spec fn allows_cycles() -> bool {
        true
    }

    fn cycles_allowed() -> bool {
        true
    }
}

impl Cyclicity for Acyclic {
    open spec fn allows_cycles() -> bool {
        false
    }

    fn cycles_allowed() -> bool {
        false
    }
}

/// The node reached from `x` after `n` applications of the partial successor
/// function `f`; `None` once the chain has run off its end.
pub open spec fn iterate(f: spec_fn(u64) -> Option<u64>, x: u64, n: nat) -> Option<u64>
    decreases n,
{
    if n == 0 {
        Some(x)
    } else {
        match iterate(f, x, (n - 1) as nat) {
            Some(y) => f(y),
            None => None,
        }
    }
}

/// No chain under `f` ever returns to its starting node.
pub open spec fn fn_acyclic(f: spec_fn(u64) -> Option<u64>) -> bool {
    forall|x: u64, n: nat| 1 <= n ==> iterate(f, x, n) != Some(x)
}

/// Splitting a chain: walking `a + b` steps is walking `a` steps and then,
/// from wherever that landed, `b` more.
pub proof fn lemma_iterate_add(f: spec_fn(u64) -> Option<u64>, x: u64, a: nat, b: nat)
    ensures
        iterate(f, x, a + b) == match iterate(f, x, a) {
            Some(y) => iterate(f, y, b),
            None => None::<u64>,
        },
    decreases b,
{
    if b > 0 {
        lemma_iterate_add(f, x, a, (b - 1) as nat);
        assert(a + b == (a + (b - 1) as nat) + 1);
    }
}

/// Once a chain has run off its end it stays off it.
pub proof fn lemma_iterate_none(f: spec_fn(u64) -> Option<u64>, x: u64, m: nat, n: nat)
    requires
        iterate(f, x, m) is None,
        m <= n,
    ensures
        iterate(f, x, n) is None,
    decreases n,
{
    if n > m {
        lemma_iterate_none(f, x, m, (n - 1) as nat);
    }
}

/// A cycle can be entered at any of its nodes: if the chain from `x` returns
/// to `x` in `n` steps and passes `y` on the way, the chain from `y` returns
/// to `y` in `n` steps.
pub proof fn lemma_rotate(f: spec_fn(u64) -> Option<u64>, x: u64, y: u64, n: nat, j: nat)
    requires
        iterate(f, x, n) == Some(x),
        j <= n,
        iterate(f, x, j) == Some(y),
    ensures
        iterate(f, y, n) == Some(y),
{
    lemma_iterate_add(f, x, j, (n - j) as nat);
    assert(iterate(f, y, (n - j) as nat) == Some(x));
    lemma_iterate_add(f, y, (n - j) as nat, j);
}

/// A live chain that avoids the one point where `g` may differ from `f`
/// is also a chain of `f`.
pub proof fn lemma_agree_off_point(
    f: spec_fn(u64) -> Option<u64>,
    g: spec_fn(u64) -> Option<u64>,
    p: u64,
    x: u64,
    n: nat,
)
    requires
        forall|y: u64| y != p && #[trigger] g(y) is Some ==> g(y) == f(y),
        iterate(g, x, n) is Some,
        forall|j: nat| j < n ==> iterate(g, x, j) != Some(p),
    ensures
        iterate(f, x, n) == iterate(g, x, n),
    decreases n,
{
    if n > 0 {
        let m = (n - 1) as nat;
        assert(iterate(g, x, m) is Some);
        lemma_agree_off_point(f, g, p, x, m);
        let y = iterate(g, x, m)->Some_0;
        assert(iterate(g, x, m) != Some(p));
        assert(g(y) == iterate(g, x, n));
    }
}

/// Every live chain of `g` is a chain of `f`, when `g` only ever agrees with
/// `f` or stops early.
proof fn lemma_sub_chain(
    f: spec_fn(u64) -> Option<u64>,
    g: spec_fn(u64) -> Option<u64>,
    x: u64,
    n: nat,
)
    requires
        forall|y: u64| #[trigger] g(y) is Some ==> g(y) == f(y),
        iterate(g, x, n) is Some,
    ensures
        iterate(f, x, n) == iterate(g, x, n),
    decreases n,
{
    if n > 0 {
        let m = (n - 1) as nat;
        assert(iterate(g, x, m) is Some);
        lemma_sub_chain(f, g, x, m);
        let y = iterate(g, x, m)->Some_0;
        assert(g(y) == iterate(g, x, n));
    }
}

/// Removing steps from an acyclic successor function keeps it acyclic.
pub proof fn lemma_sub_fn_acyclic(f: spec_fn(u64) -> Option<u64>, g: spec_fn(u64) -> Option<u64>)
    requires
        forall|y: u64| #[trigger] g(y) is Some ==> g(y) == f(y),
        fn_acyclic(f),
    ensures
        fn_acyclic(g),
{
    assert forall|x: u64, n: nat| 1 <= n implies iterate(g, x, n) != Some(x) by {
        if iterate(g, x, n) == Some(x) {
            lemma_sub_chain(f, g, x, n);
        }
    }
}

/// Two successor functions that agree everywhere walk the same chains.
pub proof fn lemma_fn_congruent(f: spec_fn(u64) -> Option<u64>, g: spec_fn(u64) -> Option<u64>)
    requires
        forall|y: u64| #[trigger] f(y) == #[trigger] g(y),
    ensures
        fn_acyclic(f) == fn_acyclic(g),
{
    assert forall|y: u64| #[trigger] g(y) is Some implies g(y) == f(y) by {}
    assert forall|y: u64| #[trigger] f(y) is Some implies f(y) == g(y) by {}
    if fn_acyclic(f) {
        lemma_sub_fn_acyclic(f, g);
    }
    if fn_acyclic(g) {
        lemma_sub_fn_acyclic(g, f);
    }
}

/// When `g` is `f` with one new step `p -> q` (and possibly fewer steps
/// elsewhere), every cycle of `g` passes through both `p` and `q`.
pub proof fn lemma_cycle_passes(
    f: spec_fn(u64) -> Option<u64>,
    g: spec_fn(u64) -> Option<u64>,
    p: u64,
    q: u64,
    x: u64,
    n: nat,
)
    requires
        fn_acyclic(f),
        g(p) == Some(q),
        forall|y: u64| y != p && #[trigger] g(y) is Some ==> g(y) == f(y),
        1 <= n,
        iterate(g, x, n) == Some(x),
    ensures
        exists|j: nat| j < n && iterate(g, x, j) == Some(p),
        exists|j: nat| j < n && iterate(g, x, j) == Some(q),
{
    if forall|j: nat| j < n ==> iterate(g, x, j) != Some(p) {
        lemma_agree_off_point(f, g, p, x, n);
        assert(iterate(f, x, n) == Some(x));
        assert(false);
    }
    let j0 = choose|j: nat| j < n && iterate(g, x, j) == Some(p);
    lemma_iterate_add(g, x, j0, 1);
    assert(iterate(g, p, 1) == g(p));
    assert(iterate(g, x, j0 + 1) == Some(q));
    if j0 + 1 < n {
        assert(exists|j: nat| j < n && iterate(g, x, j) == Some(q));
    } else {
        assert(j0 + 1 == n);
        assert(x == q);
        assert(iterate(g, x, 0) == Some(q));
    }
}

/// When `g` is `f` with one new step `p -> q` (and possibly fewer steps
/// elsewhere), `g` has a cycle exactly when the chain from `p` (equally,
/// from `q`) returns to its start.
pub proof fn lemma_cycle_at_new_edge(
    f: spec_fn(u64) -> Option<u64>,
    g: spec_fn(u64) -> Option<u64>,
    p: u64,
    q: u64,
)
    requires
        fn_acyclic(f),
        g(p) == Some(q),
        forall|y: u64| y != p && #[trigger] g(y) is Some ==> g(y) == f(y),
    ensures
        !fn_acyclic(g) <==> exists|n: nat| 1 <= n && iterate(g, p, n) == Some(p),
        !fn_acyclic(g) <==> exists|n: nat| 1 <= n && iterate(g, q, n) == Some(q),
{
    if !fn_acyclic(g) {
        let (x, n) = choose|x: u64, n: nat| 1 <= n && iterate(g, x, n) == Some(x);
        lemma_cycle_passes(f, g, p, q, x, n);
        let j0 = choose|j: nat| j < n && iterate(g, x, j) == Some(p);
        lemma_rotate(g, x, p, n, j0);
        assert(1 <= n && iterate(g, p, n) == Some(p));
        lemma_cycle_passes(f, g, p, q, p, n);
        let j1 = choose|j: nat| j < n && iterate(g, p, j) == Some(q);
        lemma_rotate(g, p, q, n, j1);
        assert(1 <= n && iterate(g, q, n) == Some(q));
    }
    if exists|n: nat| 1 <= n && iterate(g, p, n) == Some(p) {
        let n = choose|n: nat| 1 <= n && iterate(g, p, n) == Some(p);
        assert(!fn_acyclic(g));
    }
    if exists|n: nat| 1 <= n && iterate(g, q, n) == Some(q) {
        let n = choose|n: nat| 1 <= n && iterate(g, q, n) == Some(q);
        assert(!fn_acyclic(g));
    }
}

} // verus!
