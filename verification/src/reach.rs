//! Reachability along a step relation.
//!
//! Floods, waves and path searches are all stated over the same notion: a place is
//! reachable when a walk of single steps leads to it.

use vstd::prelude::*;

verus! {

/// Whether every two neighbours in `path` are joined by `step`.
pub open spec fn is_walk<P>(step: spec_fn(P, P) -> bool, path: Seq<P>) -> bool {
    forall|i: int| 0 <= i < path.len() - 1 ==> #[trigger] joined(step, path, i)
}

/// Whether `path[i]` and its successor are joined by `step`.
pub open spec fn joined<P>(step: spec_fn(P, P) -> bool, path: Seq<P>, i: int) -> bool {
    step(path[i], path[i + 1])
}

/// Whether `path` is a walk from `a` to `b`.
pub open spec fn walks<P>(step: spec_fn(P, P) -> bool, a: P, b: P, path: Seq<P>) -> bool {
    path.len() > 0 && path[0] == a && path.last() == b && is_walk(step, path)
}

/// Whether some walk leads from `a` to `b`.
pub open spec fn reaches<P>(step: spec_fn(P, P) -> bool, a: P, b: P) -> bool {
    exists|path: Seq<P>| walks(step, a, b, path)
}

/// Whether some walk of at most `n` steps leads from `a` to `b`.
pub open spec fn reaches_within<P>(step: spec_fn(P, P) -> bool, a: P, b: P, n: int) -> bool {
    exists|path: Seq<P>| walks(step, a, b, path) && path.len() <= n + 1
}

pub proof fn lemma_reaches_self<P>(step: spec_fn(P, P) -> bool, a: P)
    ensures
        reaches(step, a, a),
        forall|n: int| n >= 0 ==> #[trigger] reaches_within(step, a, a, n),
{
    assert(walks(step, a, a, seq![a]));
    assert forall|n: int| n >= 0 implies #[trigger] reaches_within(step, a, a, n) by {
        assert(walks(step, a, a, seq![a]));
    }
}

pub proof fn lemma_walk_push<P>(step: spec_fn(P, P) -> bool, a: P, b: P, c: P, path: Seq<P>)
    requires
        walks(step, a, b, path),
        step(b, c),
    ensures
        walks(step, a, c, path.push(c)),
{
    let longer = path.push(c);
    assert forall|i: int| 0 <= i < longer.len() - 1 implies #[trigger] joined(step, longer, i) by {
        if i < path.len() - 1 {
            assert(joined(step, path, i));
        }
    }
}

pub proof fn lemma_reaches_step<P>(step: spec_fn(P, P) -> bool, a: P, b: P, c: P)
    requires
        reaches(step, a, b),
        step(b, c),
    ensures
        reaches(step, a, c),
{
    let path = choose|path: Seq<P>| walks(step, a, b, path);
    lemma_walk_push(step, a, b, c, path);
}

pub proof fn lemma_reaches_within_step<P>(step: spec_fn(P, P) -> bool, a: P, b: P, c: P, n: int)
    requires
        reaches_within(step, a, b, n),
        step(b, c),
    ensures
        reaches_within(step, a, c, n + 1),
{
    let path = choose|path: Seq<P>| walks(step, a, b, path) && path.len() <= n + 1;
    lemma_walk_push(step, a, b, c, path);
}

/// A set that holds `a` and is closed under `step` holds everything reachable from `a`.
pub proof fn lemma_closed_set_holds_reachable<P>(
    step: spec_fn(P, P) -> bool,
    inside: spec_fn(P) -> bool,
    a: P,
    b: P,
)
    requires
        inside(a),
        forall|p: P, q: P| inside(p) && #[trigger] step(p, q) ==> inside(q),
        reaches(step, a, b),
    ensures
        inside(b),
{
    let path = choose|path: Seq<P>| walks(step, a, b, path);
    lemma_closed_along(step, inside, path, path.len() - 1);
}

proof fn lemma_closed_along<P>(
    step: spec_fn(P, P) -> bool,
    inside: spec_fn(P) -> bool,
    path: Seq<P>,
    i: int,
)
    requires
        is_walk(step, path),
        0 <= i < path.len(),
        inside(path[0]),
        forall|p: P, q: P| inside(p) && #[trigger] step(p, q) ==> inside(q),
    ensures
        inside(path[i]),
    decreases i,
{
    if i > 0 {
        lemma_closed_along(step, inside, path, i - 1);
        assert(joined(step, path, i - 1));
    }
}

/// Walks can be appended.
pub proof fn lemma_reaches_transitive<P>(step: spec_fn(P, P) -> bool, a: P, b: P, c: P)
    requires
        reaches(step, a, b),
        reaches(step, b, c),
    ensures
        reaches(step, a, c),
{
    lemma_closed_set_holds_reachable_from(step, a, b, c);
}

proof fn lemma_closed_set_holds_reachable_from<P>(
    step: spec_fn(P, P) -> bool,
    a: P,
    b: P,
    c: P,
)
    requires
        reaches(step, a, b),
        reaches(step, b, c),
    ensures
        reaches(step, a, c),
{
    let inside = |p: P| reaches(step, a, p);
    assert forall|p: P, q: P| inside(p) && #[trigger] step(p, q) implies inside(q) by {
        lemma_reaches_step(step, a, p, q);
    }
    lemma_closed_set_holds_reachable(step, inside, b, c);
}

/// In a symmetric relation reachability goes both ways.
pub proof fn lemma_reaches_symmetric<P>(step: spec_fn(P, P) -> bool, a: P, b: P)
    requires
        forall|p: P, q: P| #[trigger] step(p, q) ==> step(q, p),
        reaches(step, a, b),
    ensures
        reaches(step, b, a),
{
    let inside = |p: P| reaches(step, p, a);
    lemma_reaches_self(step, a);
    assert forall|p: P, q: P| inside(p) && #[trigger] step(p, q) implies inside(q) by {
        lemma_reaches_self(step, q);
        lemma_reaches_step(step, q, q, p);
        lemma_reaches_transitive(step, q, p, a);
    }
    lemma_closed_set_holds_reachable(step, inside, a, b);
}

/// A walk stays one when more steps are allowed.
pub proof fn lemma_reaches_wider<P>(
    step: spec_fn(P, P) -> bool,
    wider: spec_fn(P, P) -> bool,
    a: P,
    b: P,
)
    requires
        forall|p: P, q: P| #[trigger] step(p, q) ==> wider(p, q),
        reaches(step, a, b),
    ensures
        reaches(wider, a, b),
{
    let path = choose|path: Seq<P>| walks(step, a, b, path);
    assert forall|i: int| 0 <= i < path.len() - 1 implies #[trigger] joined(wider, path, i) by {
        assert(joined(step, path, i));
    }
    assert(walks(wider, a, b, path));
}

} // verus!
