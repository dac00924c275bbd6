use vstd::prelude::*;

verus! {

/// There is a walk of exactly `steps` edges of `g` from `i` to `j`.
pub open spec fn path(g: Set<(int, int)>, i: int, j: int, steps: nat) -> bool
    decreases steps,
{
    if steps == 0 {
        i == j
    } else {
        exists|k: int| #![trigger g.contains((i, k))] g.contains((i, k)) && path(g, k, j, (steps - 1) as nat)
    }
}

/// `j` can be reached from `i` by one or more edges of `g`.
pub open spec fn reaches(g: Set<(int, int)>, i: int, j: int) -> bool {
    exists|s: nat| s >= 1 && #[trigger] path(g, i, j, s)
}

/// Reflexive-transitive closure of `g` on the states `0 .. n`: the pairs
/// `(i, i)` with `0 <= i < n`, and the pairs joined by a walk of one or more
/// edges of `g`.
pub open spec fn closure(g: Set<(int, int)>, n: int) -> Set<(int, int)> {
    Set::new(|p: (int, int)| (p.0 == p.1 && 0 <= p.0 < n) || reaches(g, p.0, p.1))
}

/// `r` is transitive.
pub open spec fn transitive(r: Set<(int, int)>) -> bool {
    forall|a: int, b: int, c: int|
        #![trigger r.contains((a, b)), r.contains((b, c))]
        r.contains((a, b)) && r.contains((b, c)) ==> r.contains((a, c))
}

/// `r` holds `(i, i)` for every `0 <= i < n`.
pub open spec fn reflexive_on(r: Set<(int, int)>, n: int) -> bool {
    forall|i: int| 0 <= i < n ==> #[trigger] r.contains((i, i))
}

/// Every pair of `r` lies in `0 .. n` x `0 .. m`.
pub open spec fn within(r: Set<(int, int)>, n: int, m: int) -> bool {
    forall|p: (int, int)| #[trigger] r.contains(p) ==> 0 <= p.0 < n && 0 <= p.1 < m
}

/// Pairs `(a, c)` with some `b` such that `(a, b)` and `(b, c)` are in `r`.
pub open spec fn compose(r: Set<(int, int)>) -> Set<(int, int)> {
    Set::new(
        |p: (int, int)|
            exists|b: int| #![trigger r.contains((p.0, b)), r.contains((b, p.1))]
                r.contains((p.0, b)) && r.contains((b, p.1)),
    )
}

/// Walks can be joined end to end.
pub proof fn lemma_path_concat(g: Set<(int, int)>, i: int, k: int, j: int, s1: nat, s2: nat)
    requires
        path(g, i, k, s1),
        path(g, k, j, s2),
    ensures
        path(g, i, j, s1 + s2),
    decreases s1,
{
    if s1 > 0 {
        let x = choose|x: int| #![trigger g.contains((i, x))] g.contains((i, x)) && path(g, x, k, (s1 - 1) as nat);
        lemma_path_concat(g, x, k, j, (s1 - 1) as nat, s2);
        assert(path(g, x, j, (s1 - 1 + s2) as nat));
        assert(g.contains((i, x)));
    }
}

/// An edge is a walk of length one.
pub proof fn lemma_edge_reaches(g: Set<(int, int)>, i: int, j: int)
    requires
        g.contains((i, j)),
    ensures
        reaches(g, i, j),
{
    assert(path(g, j, j, 0));
    assert(path(g, i, j, 1));
}

/// Reachability is transitive.
pub proof fn lemma_reaches_trans(g: Set<(int, int)>, i: int, k: int, j: int)
    requires
        reaches(g, i, k),
        reaches(g, k, j),
    ensures
        reaches(g, i, j),
{
    let s1 = choose|s: nat| s >= 1 && #[trigger] path(g, i, k, s);
    let s2 = choose|s: nat| s >= 1 && #[trigger] path(g, k, j, s);
    lemma_path_concat(g, i, k, j, s1, s2);
}

/// The closure is reflexive on `0 .. n`, transitive and holds `g`.
pub proof fn lemma_closure_props(g: Set<(int, int)>, n: int)
    ensures
        transitive(closure(g, n)),
        reflexive_on(closure(g, n), n),
        forall|p: (int, int)| #[trigger] g.contains(p) ==> closure(g, n).contains(p),
{
    let c = closure(g, n);
    assert forall|a: int, b: int, d: int|
        #![trigger c.contains((a, b)), c.contains((b, d))]
        c.contains((a, b)) && c.contains((b, d)) implies c.contains((a, d)) by {
        if a != b && b != d {
            lemma_reaches_trans(g, a, b, d);
        }
    }
    assert forall|p: (int, int)| #[trigger] g.contains(p) implies closure(g, n).contains(p) by {
        lemma_edge_reaches(g, p.0, p.1);
    }
}

/// A walk inside a transitive relation holding `g` is an edge of it.
pub proof fn lemma_path_in_transitive(g: Set<(int, int)>, t: Set<(int, int)>, i: int, j: int, s: nat)
    requires
        s >= 1,
        path(g, i, j, s),
        transitive(t),
        forall|p: (int, int)| #[trigger] g.contains(p) ==> t.contains(p),
    ensures
        t.contains((i, j)),
    decreases s,
{
    let k = choose|k: int| #![trigger g.contains((i, k))] g.contains((i, k)) && path(g, k, j, (s - 1) as nat);
    assert(t.contains((i, k)));
    if s > 1 {
        lemma_path_in_transitive(g, t, k, j, (s - 1) as nat);
    }
}

/// The closure is the least transitive relation that is reflexive on
/// `0 .. n` and holds `g`.
pub proof fn lemma_closure_least(g: Set<(int, int)>, n: int, t: Set<(int, int)>)
    requires
        transitive(t),
        reflexive_on(t, n),
        forall|p: (int, int)| #[trigger] g.contains(p) ==> t.contains(p),
    ensures
        closure(g, n).subset_of(t),
{
    assert forall|p: (int, int)| #[trigger] closure(g, n).contains(p) implies t.contains(p) by {
        if !(p.0 == p.1 && 0 <= p.0 < n) {
            let s = choose|s: nat| s >= 1 && #[trigger] path(g, p.0, p.1, s);
            lemma_path_in_transitive(g, t, p.0, p.1, s);
        }
    }
}

/// A relation equals the closure of `g` when it lies between `g` plus the
/// diagonal and the closure, and is transitive.
pub proof fn lemma_closure_eq(g: Set<(int, int)>, n: int, t: Set<(int, int)>)
    requires
        transitive(t),
        reflexive_on(t, n),
        forall|p: (int, int)| #[trigger] g.contains(p) ==> t.contains(p),
        t.subset_of(closure(g, n)),
    ensures
        t == closure(g, n),
{
    lemma_closure_least(g, n, t);
    assert(t =~= closure(g, n));
}

/// Walks of a relation inside a box stay in the box.
pub proof fn lemma_path_within(g: Set<(int, int)>, n: int, m: int, i: int, j: int, s: nat)
    requires
        s >= 1,
        within(g, n, m),
        path(g, i, j, s),
    ensures
        0 <= i < n,
        0 <= j < m,
    decreases s,
{
    let k = choose|k: int| #![trigger g.contains((i, k))] g.contains((i, k)) && path(g, k, j, (s - 1) as nat);
    assert(g.contains((i, k)));
    if s > 1 {
        lemma_path_within(g, n, m, k, j, (s - 1) as nat);
    }
}

/// The closure on `0 .. d` of a relation inside `0 .. n` x `0 .. d`, with
/// `d <= n`, stays inside that box.
pub proof fn lemma_closure_within(g: Set<(int, int)>, n: int, d: int)
    requires
        within(g, n, d),
        d <= n,
    ensures
        within(closure(g, d), n, d),
{
    assert forall|p: (int, int)| #[trigger] closure(g, d).contains(p) implies 0 <= p.0 < n && 0 <= p.1
        < d by {
        if !(p.0 == p.1 && 0 <= p.0 < d) {
            let s = choose|s: nat| s >= 1 && #[trigger] path(g, p.0, p.1, s);
            lemma_path_within(g, n, d, p.0, p.1, s);
        }
    }
}

/// Closing a relation that is already reflexive on `0 .. n` and transitive
/// changes nothing.
pub proof fn lemma_closure_of_closed(r: Set<(int, int)>, n: int)
    requires
        transitive(r),
        reflexive_on(r, n),
    ensures
        closure(r, n) == r,
{
    assert forall|p: (int, int)| #[trigger] r.contains(p) implies closure(r, n).contains(p) by {
        lemma_edge_reaches(r, p.0, p.1);
    }
    lemma_closure_eq(r, n, r);
}

/// A pair of consecutive edges gives a composed pair.
pub proof fn lemma_compose_intro(r: Set<(int, int)>, a: int, b: int, c: int)
    requires
        r.contains((a, b)),
        r.contains((b, c)),
    ensures
        compose(r).contains((a, c)),
{
    let p = (a, c);
    assert(r.contains((p.0, b)) && r.contains((b, p.1)));
}

/// The states reached from `s` by one edge of `r`.
pub open spec fn image(s: Set<int>, r: Set<(int, int)>) -> Set<int> {
    Set::new(|j: int| exists|i: int| #![trigger r.contains((i, j))] s.contains(i) && r.contains((i, j)))
}

} // verus!
