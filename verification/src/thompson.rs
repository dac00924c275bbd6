use vstd::prelude::*;
use crate::bool_alg::{shift_pairs, shift_set};
use crate::nfa::{
    accepting, accepts, eclose, edges_to, lemma_search_fresh, lemma_steps_from_start, nfa_concat,
    nfa_empty, nfa_literal, nfa_star, nfa_union, nfa_wf, run, search_hit, steps, thompson, trans_of,
    Nfa,
};
use crate::parse::{in_language, RegexNode};
use crate::relation::{
    closure, lemma_closure_eq, lemma_closure_props, lemma_closure_within, lemma_edge_reaches,
    lemma_reaches_trans, within,
};

verus! {

/// State `j` is reached from the start state by reading `w`.
pub open spec fn reach(a: Nfa, w: Seq<char>, j: int) -> bool {
    run(a, set![0int], w).contains(j)
}

/// Reading `c` after `w` can go through `k`, a transition to `l`, and
/// epsilon moves to `j`.
pub open spec fn step_via(a: Nfa, w: Seq<char>, c: char, k: int, l: int, j: int) -> bool {
    reach(a, w, k) && trans_of(a, c).contains((k, l)) && a.eps.contains((l, j))
}

/// The empty word leads from the start state to the states of its epsilon
/// moves.
pub proof fn lemma_reach_empty(a: Nfa, j: int)
    ensures
        reach(a, Seq::empty(), j) == a.eps.contains((0, j)),
{
    if a.eps.contains((0, j)) {
        assert(set![0int].contains(0));
    }
}

/// One more character leads through a state reached before it, a
/// transition on it, and epsilon moves.
pub proof fn lemma_reach_push(a: Nfa, w: Seq<char>, c: char, j: int)
    ensures
        reach(a, w.push(c), j) == exists|k: int, l: int| #[trigger] step_via(a, w, c, k, l, j),
{
    assert(w.push(c).drop_last() =~= w);
    assert(w.push(c).last() == c);
    if reach(a, w.push(c), j) {
        let l = choose|l: int| #![trigger a.eps.contains((l, j))]
            crate::relation::image(run(a, set![0int], w), trans_of(a, c)).contains(l) && a.eps.contains((l, j));
        let k = choose|k: int| #![trigger trans_of(a, c).contains((k, l))]
            run(a, set![0int], w).contains(k) && trans_of(a, c).contains((k, l));
        assert(step_via(a, w, c, k, l, j));
    }
    if exists|k: int, l: int| #[trigger] step_via(a, w, c, k, l, j) {
        let (k, l) = choose|k: int, l: int| #[trigger] step_via(a, w, c, k, l, j);
        assert(crate::relation::image(run(a, set![0int], w), trans_of(a, c)).contains(l));
    }
}

/// The epsilon relation of the union, written out.
pub open spec fn union_eps(a: Nfa, b: Nfa) -> Set<(int, int)> {
    let na = a.states as int;
    Set::new(
        |p: (int, int)|
            (p.0 == 0 && p.1 == 0) || (p.0 == 0 && a.eps.contains((0, p.1 - 1))) || (p.0 == 0 && b.eps.contains(
                (0, p.1 - na - 1),
            )) || (p.0 >= 1 && a.eps.contains((p.0 - 1, p.1 - 1))) || (p.0 >= 1 && b.eps.contains(
                (p.0 - na - 1, p.1 - na - 1),
            )),
    )
}

proof fn lemma_union_eps(a: Nfa, b: Nfa)
    requires
        nfa_wf(a),
        nfa_wf(b),
    ensures
        nfa_union(a, b).eps == union_eps(a, b),
{
    let na = a.states as int;
    let n = nfa_union(a, b).states as int;
    let g = shift_pairs(a.eps, 1).union(shift_pairs(b.eps, na + 1)).insert((0, 1)).insert((0, na + 1));
    let e = union_eps(a, b);
    assert(a.eps.contains((0, 0)));
    assert(b.eps.contains((0, 0)));
    assert forall|x: int, y: int, z: int| #![trigger e.contains((x, y)), e.contains((y, z))]
        e.contains((x, y)) && e.contains((y, z)) implies e.contains((x, z)) by {
        if a.eps.contains((x - 1, y - 1)) && x >= 1 {
            if a.eps.contains((y - 1, z - 1)) {
                assert(a.eps.contains((x - 1, z - 1)));
            }
        }
        if x == 0 && a.eps.contains((0, y - 1)) {
            if a.eps.contains((y - 1, z - 1)) {
                assert(a.eps.contains((0, z - 1)));
            }
        }
        if b.eps.contains((x - na - 1, y - na - 1)) && x >= 1 {
            if b.eps.contains((y - na - 1, z - na - 1)) {
                assert(b.eps.contains((x - na - 1, z - na - 1)));
            }
        }
        if x == 0 && b.eps.contains((0, y - na - 1)) {
            if b.eps.contains((y - na - 1, z - na - 1)) {
                assert(b.eps.contains((0, z - na - 1)));
            }
        }
    }
    assert forall|i: int| 0 <= i < n implies #[trigger] e.contains((i, i)) by {
        if 1 <= i <= na {
            assert(a.eps.contains((i - 1, i - 1)));
        } else if i > na {
            assert(b.eps.contains((i - na - 1, i - na - 1)));
        }
    }
    assert forall|p: (int, int)| #[trigger] g.contains(p) implies e.contains(p) by {}
    assert forall|p: (int, int)| #[trigger] e.contains(p) implies closure(g, n).contains(p) by {
        let (x, y) = p;
        if x == 0 && y == 0 {
        } else if x == 0 && a.eps.contains((0, y - 1)) {
            lemma_edge_reaches(g, 0, 1);
            if y != 1 {
                lemma_edge_reaches(g, 1, y);
                lemma_reaches_trans(g, 0, 1, y);
            }
        } else if x == 0 && b.eps.contains((0, y - na - 1)) {
            lemma_edge_reaches(g, 0, na + 1);
            if y != na + 1 {
                lemma_edge_reaches(g, na + 1, y);
                lemma_reaches_trans(g, 0, na + 1, y);
            }
        } else {
            lemma_edge_reaches(g, x, y);
        }
    }
    lemma_closure_eq(g, n, e);
}

/// Only states of the automaton are reached.
pub proof fn lemma_reach_within(a: Nfa, w: Seq<char>, j: int)
    requires
        nfa_wf(a),
        reach(a, w, j),
    ensures
        0 <= j < a.states,
{
    let s = if w.len() == 0 {
        set![0int]
    } else {
        crate::relation::image(run(a, set![0int], w.drop_last()), trans_of(a, w.last()))
    };
    assert(eclose(a, s).contains(j));
    let i = choose|i: int| #![trigger a.eps.contains((i, j))] s.contains(i) && a.eps.contains((i, j));
}

/// Where reading `w` leads in the union: the new start state only for the
/// empty word, otherwise the states reached in either automaton.
pub open spec fn union_reach(a: Nfa, b: Nfa, w: Seq<char>, j: int) -> bool {
    ||| w.len() == 0 && j == 0
    ||| reach(a, w, j - 1)
    ||| reach(b, w, j - a.states - 1)
}

proof fn lemma_union_reach(a: Nfa, b: Nfa, w: Seq<char>)
    requires
        nfa_wf(a),
        nfa_wf(b),
    ensures
        forall|j: int| #[trigger] reach(nfa_union(a, b), w, j) == union_reach(a, b, w, j),
    decreases w.len(),
{
    let u = nfa_union(a, b);
    let na = a.states as int;
    lemma_union_eps(a, b);
    if w.len() == 0 {
        assert(w =~= Seq::<char>::empty());
        assert forall|j: int| #[trigger] reach(u, w, j) == union_reach(a, b, w, j) by {
            lemma_reach_empty(u, j);
            lemma_reach_empty(a, j - 1);
            lemma_reach_empty(b, j - na - 1);
        }
    } else {
        let v = w.drop_last();
        let c = w.last();
        assert(w =~= v.push(c));
        lemma_union_reach(a, b, v);
        assert forall|j: int| #[trigger] reach(u, w, j) == union_reach(a, b, w, j) by {
            lemma_reach_push(u, v, c, j);
            lemma_reach_push(a, v, c, j - 1);
            lemma_reach_push(b, v, c, j - na - 1);
            if reach(u, w, j) {
                let (k, l) = choose|k: int, l: int| #[trigger] step_via(u, v, c, k, l, j);
                assert(reach(u, v, k));
                assert(union_reach(a, b, v, k));
                assert(u.trans.dom().contains(c));
                if shift_pairs(trans_of(a, c), 1).contains((k, l)) {
                    assert(a.trans.dom().contains(c));
                    assert(within(a.trans[c], na, na));
                    assert(0 <= k - 1 < na && 0 <= l - 1 < na);
                    if reach(b, v, k - na - 1) {
                        lemma_reach_within(b, v, k - na - 1);
                    }
                    assert(reach(a, v, k - 1));
                    if b.eps.contains((l - na - 1, j - na - 1)) {
                        assert(within(b.eps, b.states as int, b.states as int));
                    }
                    assert(a.eps.contains((l - 1, j - 1)));
                    assert(step_via(a, v, c, k - 1, l - 1, j - 1));
                } else {
                    assert(shift_pairs(trans_of(b, c), na + 1).contains((k, l)));
                    assert(b.trans.dom().contains(c));
                    assert(within(b.trans[c], b.states as int, b.states as int));
                    if reach(a, v, k - 1) {
                        lemma_reach_within(a, v, k - 1);
                    }
                    assert(reach(b, v, k - na - 1));
                    if a.eps.contains((l - 1, j - 1)) {
                        assert(within(a.eps, na, na));
                    }
                    assert(b.eps.contains((l - na - 1, j - na - 1)));
                    assert(step_via(b, v, c, k - na - 1, l - na - 1, j - na - 1));
                }
            }
            if union_reach(a, b, w, j) {
                if reach(a, w, j - 1) {
                    let (k, l) = choose|k: int, l: int| #[trigger] step_via(a, v, c, k, l, j - 1);
                    assert(union_reach(a, b, v, k + 1));
                    assert(a.trans.dom().contains(c));
                    assert(shift_pairs(trans_of(a, c), 1).contains((k + 1, l + 1)));
                    assert(u.trans.dom().contains(c));
                    lemma_reach_within(a, v, k);
                    assert(step_via(u, v, c, k + 1, l + 1, j));
                } else {
                    assert(reach(b, w, j - na - 1));
                    let (k, l) = choose|k: int, l: int| #[trigger] step_via(b, v, c, k, l, j - na - 1);
                    assert(union_reach(a, b, v, k + na + 1));
                    assert(b.trans.dom().contains(c));
                    assert(shift_pairs(trans_of(b, c), na + 1).contains((k + na + 1, l + na + 1)));
                    assert(u.trans.dom().contains(c));
                    lemma_reach_within(b, v, k);
                    assert(step_via(u, v, c, k + na + 1, l + na + 1, j));
                }
            }
        }
    }
}

/// The union accepts exactly the words that either automaton accepts.
pub proof fn lemma_union_accepts(a: Nfa, b: Nfa, w: Seq<char>)
    requires
        nfa_wf(a),
        nfa_wf(b),
    ensures
        accepts(nfa_union(a, b), w) == (accepts(a, w) || accepts(b, w)),
{
    let u = nfa_union(a, b);
    let na = a.states as int;
    lemma_union_reach(a, b, w);
    if accepts(u, w) {
        let j = choose|j: int| #[trigger] run(u, set![0int], w).contains(j) && u.finals.contains(j);
        assert(reach(u, w, j));
        if shift_set(a.finals, 1).contains(j) {
            assert(0 <= j - 1 < na);
            if reach(b, w, j - na - 1) {
                lemma_reach_within(b, w, j - na - 1);
            }
            assert(reach(a, w, j - 1));
            assert(run(a, set![0int], w).contains(j - 1));
        } else {
            assert(b.finals.contains(j - na - 1));
            assert(0 <= j - na - 1);
            if reach(a, w, j - 1) {
                lemma_reach_within(a, w, j - 1);
            }
            assert(reach(b, w, j - na - 1));
            assert(run(b, set![0int], w).contains(j - na - 1));
        }
    }
    if accepts(a, w) {
        let j = choose|j: int| #[trigger] run(a, set![0int], w).contains(j) && a.finals.contains(j);
        assert(reach(u, w, j + 1));
        assert(run(u, set![0int], w).contains(j + 1) && u.finals.contains(j + 1));
    }
    if accepts(b, w) {
        let j = choose|j: int| #[trigger] run(b, set![0int], w).contains(j) && b.finals.contains(j);
        assert(reach(u, w, j + na + 1));
        assert(run(u, set![0int], w).contains(j + na + 1) && u.finals.contains(j + na + 1));
    }
}

/// `i` reaches an accepting state of `a` by epsilon moves.
pub open spec fn to_final(a: Nfa, i: int) -> bool {
    exists|f: int| #[trigger] a.eps.contains((i, f)) && a.finals.contains(f)
}

/// The epsilon relation of the concatenation, written out.
pub open spec fn concat_eps(a: Nfa, b: Nfa) -> Set<(int, int)> {
    let na = a.states as int;
    Set::new(
        |p: (int, int)|
            a.eps.contains(p) || b.eps.contains((p.0 - na, p.1 - na)) || (to_final(a, p.0) && b.eps.contains(
                (0, p.1 - na),
            )),
    )
}

proof fn lemma_concat_eps(a: Nfa, b: Nfa)
    requires
        nfa_wf(a),
        nfa_wf(b),
    ensures
        nfa_concat(a, b).eps == concat_eps(a, b),
{
    let na = a.states as int;
    let n = nfa_concat(a, b).states as int;
    let g = a.eps.union(shift_pairs(b.eps, na)).union(edges_to(a.finals, 0, na));
    let e = concat_eps(a, b);
    assert(b.eps.contains((0, 0)));
    assert forall|x: int, y: int, z: int| #![trigger e.contains((x, y)), e.contains((y, z))]
        e.contains((x, y)) && e.contains((y, z)) implies e.contains((x, z)) by {
        if a.eps.contains((x, y)) {
            assert(0 <= y < na);
            if a.eps.contains((y, z)) {
                assert(a.eps.contains((x, z)));
            } else if b.eps.contains((y - na, z - na)) {
                assert(false);
            } else {
                let f = choose|f: int| #[trigger] a.eps.contains((y, f)) && a.finals.contains(f);
                assert(a.eps.contains((x, f)));
            }
        } else if b.eps.contains((x - na, y - na)) {
            assert(0 <= y - na);
            if a.eps.contains((y, z)) {
                assert(false);
            } else if b.eps.contains((y - na, z - na)) {
                assert(b.eps.contains((x - na, z - na)));
            } else {
                let f = choose|f: int| #[trigger] a.eps.contains((y, f)) && a.finals.contains(f);
                assert(false);
            }
        } else {
            assert(to_final(a, x) && b.eps.contains((0, y - na)));
            assert(0 <= y - na);
            if a.eps.contains((y, z)) {
                assert(false);
            } else if b.eps.contains((y - na, z - na)) {
                assert(b.eps.contains((0, z - na)));
            } else {
                let f = choose|f: int| #[trigger] a.eps.contains((y, f)) && a.finals.contains(f);
                assert(false);
            }
        }
    }
    assert forall|i: int| 0 <= i < n implies #[trigger] e.contains((i, i)) by {
        if i < na {
            assert(a.eps.contains((i, i)));
        } else {
            assert(b.eps.contains((i - na, i - na)));
        }
    }
    assert forall|p: (int, int)| #[trigger] g.contains(p) implies e.contains(p) by {
        if edges_to(a.finals, 0, na).contains(p) {
            assert(a.finals.contains(p.0));
            assert(a.eps.contains((p.0, p.0)));
        }
    }
    assert forall|p: (int, int)| #[trigger] e.contains(p) implies closure(g, n).contains(p) by {
        let (x, y) = p;
        if a.eps.contains((x, y)) || b.eps.contains((x - na, y - na)) {
            lemma_edge_reaches(g, x, y);
        } else {
            let f = choose|f: int| #[trigger] a.eps.contains((x, f)) && a.finals.contains(f);
            lemma_edge_reaches(g, f, na);
            if x != f {
                lemma_edge_reaches(g, x, f);
                lemma_reaches_trans(g, x, f, na);
            }
            if y != na {
                lemma_edge_reaches(g, na, y);
                lemma_reaches_trans(g, x, na, y);
            }
        }
    }
    lemma_closure_eq(g, n, e);
}

/// Where reading `w` leads in the concatenation: a state of `a` reached by
/// `w`, or a state of `b` reached by the rest of `w` after a prefix that `a`
/// accepts.
pub open spec fn concat_reach(a: Nfa, b: Nfa, w: Seq<char>, j: int) -> bool {
    ||| reach(a, w, j)
    ||| exists|i: int| 0 <= i <= w.len() && #[trigger] accepts(a, w.take(i)) && reach(b, w.skip(i), j - a.states)
}

proof fn lemma_concat_reach(a: Nfa, b: Nfa, w: Seq<char>)
    requires
        nfa_wf(a),
        nfa_wf(b),
    ensures
        forall|j: int| #[trigger] reach(nfa_concat(a, b), w, j) == concat_reach(a, b, w, j),
    decreases w.len(),
{
    let cc = nfa_concat(a, b);
    let na = a.states as int;
    lemma_concat_eps(a, b);
    if w.len() == 0 {
        assert(w =~= Seq::<char>::empty());
        assert(w.take(0) =~= w && w.skip(0) =~= w);
        assert forall|j: int| #[trigger] reach(cc, w, j) == concat_reach(a, b, w, j) by {
            lemma_reach_empty(cc, j);
            lemma_reach_empty(a, j);
            lemma_reach_empty(b, j - na);
            if reach(cc, w, j) && !reach(a, w, j) {
                if b.eps.contains((0 - na, j - na)) {
                    assert(false);
                }
                let f = choose|f: int| #[trigger] a.eps.contains((0, f)) && a.finals.contains(f);
                lemma_reach_empty(a, f);
                assert(run(a, set![0int], w.take(0)).contains(f));
                assert(accepts(a, w.take(0)));
            }
            if concat_reach(a, b, w, j) && !reach(a, w, j) {
                let i = choose|i: int| 0 <= i <= w.len() && #[trigger] accepts(a, w.take(i)) && reach(b, w.skip(i), j - na);
                assert(i == 0);
                let f = choose|f: int| #[trigger] run(a, set![0int], w.take(0)).contains(f) && a.finals.contains(f);
                lemma_reach_empty(a, f);
                assert(to_final(a, 0));
            }
        }
    } else {
        let v = w.drop_last();
        let c = w.last();
        assert(w =~= v.push(c));
        lemma_concat_reach(a, b, v);
        assert forall|j: int| #[trigger] reach(cc, w, j) == concat_reach(a, b, w, j) by {
            lemma_reach_push(cc, v, c, j);
            lemma_reach_push(a, v, c, j);
            if reach(cc, w, j) {
                let (k, l) = choose|k: int, l: int| #[trigger] step_via(cc, v, c, k, l, j);
                assert(reach(cc, v, k));
                assert(concat_reach(a, b, v, k));
                assert(cc.trans.dom().contains(c));
                if trans_of(a, c).contains((k, l)) {
                    assert(a.trans.dom().contains(c));
                    assert(within(a.trans[c], na, na));
                    if exists|i: int| 0 <= i <= v.len() && #[trigger] accepts(a, v.take(i)) && reach(b, v.skip(i), k - na) {
                        let i = choose|i: int| 0 <= i <= v.len() && #[trigger] accepts(a, v.take(i)) && reach(b, v.skip(i), k - na);
                        lemma_reach_within(b, v.skip(i), k - na);
                    }
                    assert(reach(a, v, k));
                    if a.eps.contains((l, j)) {
                        assert(step_via(a, v, c, k, l, j));
                    } else if b.eps.contains((l - na, j - na)) {
                        assert(false);
                    } else {
                        let f = choose|f: int| #[trigger] a.eps.contains((l, f)) && a.finals.contains(f);
                        assert(step_via(a, v, c, k, l, f));
                        lemma_reach_push(a, v, c, f);
                        assert(w.take(w.len() as int) =~= w);
                        assert(run(a, set![0int], w.take(w.len() as int)).contains(f));
                        assert(accepts(a, w.take(w.len() as int)));
                        assert(w.skip(w.len() as int) =~= Seq::<char>::empty());
                        lemma_reach_empty(b, j - na);
                        assert(reach(b, w.skip(w.len() as int), j - na));
                    }
                } else {
                    assert(shift_pairs(trans_of(b, c), na).contains((k, l)));
                    assert(b.trans.dom().contains(c));
                    assert(within(b.trans[c], b.states as int, b.states as int));
                    if reach(a, v, k) {
                        lemma_reach_within(a, v, k);
                    }
                    let i = choose|i: int| 0 <= i <= v.len() && #[trigger] accepts(a, v.take(i)) && reach(b, v.skip(i), k - na);
                    if a.eps.contains((l, j)) {
                        assert(false);
                    } else if b.eps.contains((l - na, j - na)) {
                        assert(step_via(b, v.skip(i), c, k - na, l - na, j - na));
                        lemma_reach_push(b, v.skip(i), c, j - na);
                        assert(w.skip(i) =~= v.skip(i).push(c));
                        assert(w.take(i) =~= v.take(i));
                        assert(accepts(a, w.take(i)) && reach(b, w.skip(i), j - na));
                    } else {
                        let f = choose|f: int| #[trigger] a.eps.contains((l, f)) && a.finals.contains(f);
                        assert(false);
                    }
                }
            }
            if concat_reach(a, b, w, j) {
                if reach(a, w, j) {
                    let (k, l) = choose|k: int, l: int| #[trigger] step_via(a, v, c, k, l, j);
                    assert(concat_reach(a, b, v, k));
                    assert(a.trans.dom().contains(c));
                    assert(step_via(cc, v, c, k, l, j));
                } else {
                    let i = choose|i: int| 0 <= i <= w.len() && #[trigger] accepts(a, w.take(i)) && reach(b, w.skip(i), j - na);
                    if i == w.len() {
                        assert(w.take(i) =~= w);
                        assert(w.skip(i) =~= Seq::<char>::empty());
                        lemma_reach_empty(b, j - na);
                        let f = choose|f: int| #[trigger] run(a, set![0int], w.take(i)).contains(f) && a.finals.contains(f);
                        lemma_reach_push(a, v, c, f);
                        assert(reach(a, w, f));
                        let (k, l) = choose|k: int, l: int| #[trigger] step_via(a, v, c, k, l, f);
                        assert(concat_reach(a, b, v, k));
                        assert(a.trans.dom().contains(c));
                        assert(to_final(a, l));
                        assert(step_via(cc, v, c, k, l, j));
                    } else {
                        assert(w.skip(i) =~= v.skip(i).push(c));
                        assert(w.take(i) =~= v.take(i));
                        lemma_reach_push(b, v.skip(i), c, j - na);
                        let (k, l) = choose|k: int, l: int| #[trigger] step_via(b, v.skip(i), c, k, l, j - na);
                        assert(accepts(a, v.take(i)) && reach(b, v.skip(i), k));
                        assert(concat_reach(a, b, v, k + na));
                        assert(b.trans.dom().contains(c));
                        assert(shift_pairs(trans_of(b, c), na).contains((k + na, l + na)));
                        assert(step_via(cc, v, c, k + na, l + na, j));
                    }
                }
            }
        }
    }
}

/// The concatenation accepts exactly the words made of a word that `a`
/// accepts followed by one that `b` accepts.
pub proof fn lemma_concat_accepts(a: Nfa, b: Nfa, w: Seq<char>)
    requires
        nfa_wf(a),
        nfa_wf(b),
    ensures
        accepts(nfa_concat(a, b), w) == exists|i: int|
            0 <= i <= w.len() && #[trigger] accepts(a, w.take(i)) && accepts(b, w.skip(i)),
{
    let cc = nfa_concat(a, b);
    let na = a.states as int;
    lemma_concat_reach(a, b, w);
    if accepts(cc, w) {
        let j = choose|j: int| #[trigger] run(cc, set![0int], w).contains(j) && cc.finals.contains(j);
        assert(reach(cc, w, j));
        assert(b.finals.contains(j - na));
        assert(0 <= j - na);
        if reach(a, w, j) {
            lemma_reach_within(a, w, j);
        }
        let i = choose|i: int| 0 <= i <= w.len() && #[trigger] accepts(a, w.take(i)) && reach(b, w.skip(i), j - na);
        assert(run(b, set![0int], w.skip(i)).contains(j - na));
        assert(accepts(b, w.skip(i)));
    }
    if exists|i: int| 0 <= i <= w.len() && #[trigger] accepts(a, w.take(i)) && accepts(b, w.skip(i)) {
        let i = choose|i: int| 0 <= i <= w.len() && #[trigger] accepts(a, w.take(i)) && accepts(b, w.skip(i));
        let f = choose|f: int| #[trigger] run(b, set![0int], w.skip(i)).contains(f) && b.finals.contains(f);
        assert(reach(b, w.skip(i), f));
        assert(concat_reach(a, b, w, f + na));
        assert(reach(cc, w, f + na));
        assert(run(cc, set![0int], w).contains(f + na) && cc.finals.contains(f + na));
    }
}

/// `w` splits into words that `a` accepts (none for the empty word).
pub open spec fn kleene(a: Nfa, w: Seq<char>) -> bool
    decreases w.len(),
{
    w.len() == 0 || exists|i: int| #![trigger w.take(i)] 0 <= i < w.len() && kleene(a, w.take(i)) && accepts(a, w.skip(i))
}

/// The epsilon relation of the repetition, written out.
pub open spec fn star_eps(a: Nfa) -> Set<(int, int)> {
    Set::new(
        |p: (int, int)|
            (p.0 == 0 && p.1 == 0) || (p.0 == 0 && a.eps.contains((0, p.1 - 1))) || (p.0 >= 1 && p.1 == 0
                && to_final(a, p.0 - 1)) || (p.0 >= 1 && a.eps.contains((p.0 - 1, p.1 - 1))) || (p.0 >= 1
                && to_final(a, p.0 - 1) && a.eps.contains((0, p.1 - 1))),
    )
}

proof fn lemma_star_eps(a: Nfa)
    requires
        nfa_wf(a),
    ensures
        nfa_star(a).eps == star_eps(a),
{
    let n = nfa_star(a).states as int;
    let g = shift_pairs(a.eps, 1).insert((0, 1)).union(edges_to(a.finals, 1, 0));
    let e = star_eps(a);
    assert(a.eps.contains((0, 0)));
    assert forall|x: int, y: int, z: int| #![trigger e.contains((x, y)), e.contains((y, z))]
        e.contains((x, y)) && e.contains((y, z)) implies e.contains((x, z)) by {
        if x == 0 && y == 0 {
        } else if x == 0 && a.eps.contains((0, y - 1)) {
            assert(y >= 1);
            if y >= 1 && z == 0 && to_final(a, y - 1) {
            } else if a.eps.contains((y - 1, z - 1)) {
                assert(a.eps.contains((0, z - 1)));
            } else {
            }
        } else if x >= 1 && y == 0 && to_final(a, x - 1) {
        } else if x >= 1 && a.eps.contains((x - 1, y - 1)) {
            assert(y >= 1);
            if z == 0 && to_final(a, y - 1) {
                let f = choose|f: int| #[trigger] a.eps.contains((y - 1, f)) && a.finals.contains(f);
                assert(a.eps.contains((x - 1, f)));
            } else if a.eps.contains((y - 1, z - 1)) {
                assert(a.eps.contains((x - 1, z - 1)));
            } else {
                let f = choose|f: int| #[trigger] a.eps.contains((y - 1, f)) && a.finals.contains(f);
                assert(a.eps.contains((x - 1, f)));
            }
        } else {
            assert(x >= 1 && to_final(a, x - 1) && a.eps.contains((0, y - 1)));
            assert(y >= 1);
            if z == 0 && to_final(a, y - 1) {
            } else if a.eps.contains((y - 1, z - 1)) {
                assert(a.eps.contains((0, z - 1)));
            } else {
            }
        }
    }
    assert forall|i: int| 0 <= i < n implies #[trigger] e.contains((i, i)) by {
        if i >= 1 {
            assert(a.eps.contains((i - 1, i - 1)));
        }
    }
    assert forall|p: (int, int)| #[trigger] g.contains(p) implies e.contains(p) by {
        if edges_to(a.finals, 1, 0).contains(p) {
            assert(a.finals.contains(p.0 - 1));
            assert(a.eps.contains((p.0 - 1, p.0 - 1)));
        }
    }
    assert forall|p: (int, int)| #[trigger] e.contains(p) implies closure(g, n).contains(p) by {
        let (x, y) = p;
        if x == 0 && y == 0 {
        } else if x == 0 && a.eps.contains((0, y - 1)) {
            lemma_edge_reaches(g, 0, 1);
            if y != 1 {
                lemma_edge_reaches(g, 1, y);
                lemma_reaches_trans(g, 0, 1, y);
            }
        } else if x >= 1 && a.eps.contains((x - 1, y - 1)) {
            lemma_edge_reaches(g, x, y);
        } else {
            let f = choose|f: int| #[trigger] a.eps.contains((x - 1, f)) && a.finals.contains(f);
            lemma_edge_reaches(g, f + 1, 0);
            if x != f + 1 {
                lemma_edge_reaches(g, x, f + 1);
                lemma_reaches_trans(g, x, f + 1, 0);
            }
            if y != 0 {
                lemma_edge_reaches(g, 0, 1);
                if y != 1 {
                    lemma_edge_reaches(g, 1, y);
                    lemma_reaches_trans(g, 0, 1, y);
                }
                lemma_reaches_trans(g, x, 0, y);
            }
        }
    }
    lemma_closure_eq(g, n, e);
}

/// Where reading `w` leads in the repetition: the new start state when `w`
/// splits into accepted words, or a state of `a` reached by the rest of `w`
/// after such a prefix.
pub open spec fn star_reach(a: Nfa, w: Seq<char>, j: int) -> bool {
    ||| j == 0 && kleene(a, w)
    ||| j >= 1 && exists|i: int| 0 <= i <= w.len() && #[trigger] kleene(a, w.take(i)) && reach(a, w.skip(i), j - 1)
}

proof fn lemma_star_reach(a: Nfa, w: Seq<char>)
    requires
        nfa_wf(a),
    ensures
        forall|j: int| #[trigger] reach(nfa_star(a), w, j) == star_reach(a, w, j),
    decreases w.len(),
{
    let st = nfa_star(a);
    let na = a.states as int;
    lemma_star_eps(a);
    if w.len() == 0 {
        assert(w =~= Seq::<char>::empty());
        assert(w.take(0) =~= w && w.skip(0) =~= w);
        assert(kleene(a, w));
        assert forall|j: int| #[trigger] reach(st, w, j) == star_reach(a, w, j) by {
            lemma_reach_empty(st, j);
            lemma_reach_empty(a, j - 1);
            if star_reach(a, w, j) && j >= 1 {
                let i = choose|i: int| 0 <= i <= w.len() && #[trigger] kleene(a, w.take(i)) && reach(a, w.skip(i), j - 1);
                assert(i == 0);
            }
            if reach(st, w, j) && j >= 1 {
                assert(kleene(a, w.take(0)) && reach(a, w.skip(0), j - 1));
            }
        }
    } else {
        let v = w.drop_last();
        let c = w.last();
        assert(w =~= v.push(c));
        assert(w.take(w.len() as int) =~= w);
        assert(w.skip(w.len() as int) =~= Seq::<char>::empty());
        lemma_star_reach(a, v);
        assert forall|j: int| #[trigger] reach(st, w, j) == star_reach(a, w, j) by {
            lemma_reach_push(st, v, c, j);
            if reach(st, w, j) {
                let (k, l) = choose|k: int, l: int| #[trigger] step_via(st, v, c, k, l, j);
                assert(reach(st, v, k));
                assert(star_reach(a, v, k));
                assert(a.trans.dom().contains(c));
                assert(within(a.trans[c], na, na));
                assert(trans_of(a, c).contains((k - 1, l - 1)));
                assert(k >= 1 && l >= 1);
                let i = choose|i: int| 0 <= i <= v.len() && #[trigger] kleene(a, v.take(i)) && reach(a, v.skip(i), k - 1);
                assert(w.skip(i) =~= v.skip(i).push(c));
                assert(w.take(i) =~= v.take(i));
                if j == 0 {
                    assert(to_final(a, l - 1));
                    let f = choose|f: int| #[trigger] a.eps.contains((l - 1, f)) && a.finals.contains(f);
                    assert(step_via(a, v.skip(i), c, k - 1, l - 1, f));
                    lemma_reach_push(a, v.skip(i), c, f);
                    assert(run(a, set![0int], w.skip(i)).contains(f));
                    assert(accepts(a, w.skip(i)));
                    assert(kleene(a, w.take(i)));
                    assert(kleene(a, w));
                } else if a.eps.contains((l - 1, j - 1)) {
                    assert(step_via(a, v.skip(i), c, k - 1, l - 1, j - 1));
                    lemma_reach_push(a, v.skip(i), c, j - 1);
                    assert(kleene(a, w.take(i)) && reach(a, w.skip(i), j - 1));
                } else {
                    assert(to_final(a, l - 1) && a.eps.contains((0, j - 1)));
                    let f = choose|f: int| #[trigger] a.eps.contains((l - 1, f)) && a.finals.contains(f);
                    assert(step_via(a, v.skip(i), c, k - 1, l - 1, f));
                    lemma_reach_push(a, v.skip(i), c, f);
                    assert(run(a, set![0int], w.skip(i)).contains(f));
                    assert(accepts(a, w.skip(i)));
                    assert(kleene(a, w.take(i)));
                    assert(kleene(a, w));
                    lemma_reach_empty(a, j - 1);
                    assert(kleene(a, w.take(w.len() as int)) && reach(a, w.skip(w.len() as int), j - 1));
                }
            }
            if star_reach(a, w, j) {
                if j == 0 || (j >= 1 && kleene(a, w) && a.eps.contains((0, j - 1))) {
                    // the last accepted piece ends the word
                    assert(kleene(a, w));
                    assert(w.len() > 0);
                    let i = choose|i: int| #![trigger w.take(i)] 0 <= i < w.len() && kleene(a, w.take(i)) && accepts(a, w.skip(i));
                    assert(w.skip(i) =~= v.skip(i).push(c));
                    assert(w.take(i) =~= v.take(i));
                    let f = choose|f: int| #[trigger] run(a, set![0int], w.skip(i)).contains(f) && a.finals.contains(f);
                    lemma_reach_push(a, v.skip(i), c, f);
                    assert(reach(a, v.skip(i).push(c), f));
                    let (k, l) = choose|k: int, l: int| #[trigger] step_via(a, v.skip(i), c, k, l, f);
                    assert(star_reach(a, v, k + 1));
                    assert(to_final(a, l));
                    assert(trans_of(st, c).contains((k + 1, l + 1)));
                    assert(step_via(st, v, c, k + 1, l + 1, j));
                } else {
                    let i = choose|i: int| 0 <= i <= w.len() && #[trigger] kleene(a, w.take(i)) && reach(a, w.skip(i), j - 1);
                    if i == w.len() {
                        lemma_reach_empty(a, j - 1);
                        assert(false);
                    }
                    assert(w.skip(i) =~= v.skip(i).push(c));
                    assert(w.take(i) =~= v.take(i));
                    lemma_reach_push(a, v.skip(i), c, j - 1);
                    let (k, l) = choose|k: int, l: int| #[trigger] step_via(a, v.skip(i), c, k, l, j - 1);
                    assert(star_reach(a, v, k + 1));
                    assert(trans_of(st, c).contains((k + 1, l + 1)));
                    assert(step_via(st, v, c, k + 1, l + 1, j));
                }
            }
        }
    }
}

/// The repetition accepts exactly the words that split into words that `a`
/// accepts.
pub proof fn lemma_star_accepts(a: Nfa, w: Seq<char>)
    requires
        nfa_wf(a),
    ensures
        accepts(nfa_star(a), w) == kleene(a, w),
{
    let st = nfa_star(a);
    lemma_star_reach(a, w);
    if accepts(st, w) {
        let j = choose|j: int| #[trigger] run(st, set![0int], w).contains(j) && st.finals.contains(j);
        assert(reach(st, w, j));
    }
    if kleene(a, w) {
        assert(reach(st, w, 0));
        assert(run(st, set![0int], w).contains(0) && st.finals.contains(0));
    }
}

proof fn lemma_wf_concat(a: Nfa, b: Nfa)
    requires
        nfa_wf(a),
        nfa_wf(b),
    ensures
        nfa_wf(nfa_concat(a, b)),
{
    let na = a.states as int;
    let cc = nfa_concat(a, b);
    let n = cc.states as int;
    let g = a.eps.union(shift_pairs(b.eps, na)).union(edges_to(a.finals, 0, na));
    lemma_closure_props(g, n);
    assert(within(g, n, n));
    lemma_closure_within(g, n, n);
    assert forall|c: char| #[trigger] cc.trans.dom().contains(c) implies within(cc.trans[c], n, n) by {
        if a.trans.dom().contains(c) {
            assert(within(a.trans[c], na, na));
        }
        if b.trans.dom().contains(c) {
            assert(within(b.trans[c], b.states as int, b.states as int));
        }
    }
}

proof fn lemma_wf_union(a: Nfa, b: Nfa)
    requires
        nfa_wf(a),
        nfa_wf(b),
    ensures
        nfa_wf(nfa_union(a, b)),
{
    let na = a.states as int;
    let u = nfa_union(a, b);
    let n = u.states as int;
    let g = shift_pairs(a.eps, 1).union(shift_pairs(b.eps, na + 1)).insert((0, 1)).insert((0, na + 1));
    lemma_closure_props(g, n);
    assert(within(g, n, n));
    lemma_closure_within(g, n, n);
    assert forall|c: char| #[trigger] u.trans.dom().contains(c) implies within(u.trans[c], n, n) by {
        if a.trans.dom().contains(c) {
            assert(within(a.trans[c], na, na));
        }
        if b.trans.dom().contains(c) {
            assert(within(b.trans[c], b.states as int, b.states as int));
        }
    }
}

proof fn lemma_wf_star(a: Nfa)
    requires
        nfa_wf(a),
    ensures
        nfa_wf(nfa_star(a)),
{
    let na = a.states as int;
    let st = nfa_star(a);
    let n = st.states as int;
    let g = shift_pairs(a.eps, 1).insert((0, 1)).union(edges_to(a.finals, 1, 0));
    lemma_closure_props(g, n);
    assert(within(g, n, n));
    lemma_closure_within(g, n, n);
    assert forall|c: char| #[trigger] st.trans.dom().contains(c) implies within(st.trans[c], n, n) by {
        assert(within(a.trans[c], na, na));
    }
}

proof fn lemma_literal_reach(c: char, w: Seq<char>)
    ensures
        forall|j: int| #[trigger] reach(nfa_literal(c), w, j) == ((w.len() == 0 && j == 0) || (w == seq![c] && j == 1)),
    decreases w.len(),
{
    let a = nfa_literal(c);
    if w.len() == 0 {
        assert(w =~= Seq::<char>::empty());
        assert forall|j: int| #[trigger] reach(a, w, j) == ((w.len() == 0 && j == 0) || (w == seq![c] && j == 1)) by {
            lemma_reach_empty(a, j);
        }
    } else {
        let v = w.drop_last();
        let x = w.last();
        assert(w =~= v.push(x));
        lemma_literal_reach(c, v);
        assert forall|j: int| #[trigger] reach(a, w, j) == ((w.len() == 0 && j == 0) || (w == seq![c] && j == 1)) by {
            lemma_reach_push(a, v, x, j);
            if reach(a, w, j) {
                let (k, l) = choose|k: int, l: int| #[trigger] step_via(a, v, x, k, l, j);
                assert(a.trans.dom().contains(x));
                assert(x == c);
                assert(k == 0 && l == 1);
                assert(v.len() == 0);
                assert(w =~= seq![c]);
            }
            if w == seq![c] && j == 1 {
                assert(v =~= Seq::<char>::empty());
                assert(x == c);
                assert(reach(a, v, 0));
                assert(step_via(a, v, x, 0, 1, 1));
            }
        }
    }
}

proof fn lemma_empty_reach(w: Seq<char>)
    ensures
        forall|j: int| #[trigger] reach(nfa_empty(), w, j) == (w.len() == 0 && j == 0),
    decreases w.len(),
{
    let a = nfa_empty();
    if w.len() == 0 {
        assert(w =~= Seq::<char>::empty());
        assert forall|j: int| #[trigger] reach(a, w, j) == (w.len() == 0 && j == 0) by {
            lemma_reach_empty(a, j);
        }
    } else {
        let v = w.drop_last();
        let x = w.last();
        assert(w =~= v.push(x));
        assert forall|j: int| #[trigger] reach(a, w, j) == (w.len() == 0 && j == 0) by {
            lemma_reach_push(a, v, x, j);
            if reach(a, w, j) {
                let (k, l) = choose|k: int, l: int| #[trigger] step_via(a, v, x, k, l, j);
                assert(!a.trans.dom().contains(x));
            }
        }
    }
}

proof fn lemma_kleene_language(node: RegexNode, a: Nfa, w: Seq<char>)
    requires
        node matches RegexNode::KleeneStar(r) && forall|x: Seq<char>| #[trigger] accepts(a, x) == in_language(*r, x),
    ensures
        kleene(a, w) == in_language(node, w),
    decreases w.len(),
{
    let r = match node {
        RegexNode::KleeneStar(r) => *r,
        _ => RegexNode::Empty,
    };
    if w.len() > 0 {
        if kleene(a, w) {
            let i = choose|i: int| #![trigger w.take(i)] 0 <= i < w.len() && kleene(a, w.take(i)) && accepts(a, w.skip(i));
            lemma_kleene_language(node, a, w.take(i));
            assert(in_language(r, w.skip(i)));
            assert(in_language(node, w.take(i)));
        }
        if in_language(node, w) {
            let i = choose|i: int| #![trigger w.take(i)] 0 <= i < w.len() && in_language(node, w.take(i)) && in_language(r, w.skip(i));
            lemma_kleene_language(node, a, w.take(i));
            assert(accepts(a, w.skip(i)));
            assert(kleene(a, w.take(i)));
        }
    }
}

/// The automaton built for a regular expression is well formed and accepts
/// exactly the words that the expression denotes.
pub proof fn lemma_thompson_correct(node: RegexNode)
    ensures
        nfa_wf(thompson(node)),
        forall|w: Seq<char>| #[trigger] accepts(thompson(node), w) == in_language(node, w),
    decreases node,
{
    match node {
        RegexNode::Literal(c) => {
            let a = nfa_literal(c);
            assert(thompson(node) == a);
            assert forall|w: Seq<char>| #[trigger] accepts(a, w) == in_language(node, w) by {
                lemma_literal_reach(c, w);
                if accepts(a, w) {
                    let j = choose|j: int| #[trigger] run(a, set![0int], w).contains(j) && a.finals.contains(j);
                    assert(reach(a, w, j));
                }
                if w == seq![c] {
                    assert(reach(a, w, 1));
                    assert(run(a, set![0int], w).contains(1) && a.finals.contains(1));
                }
            }
        },
        RegexNode::Empty => {
            let a = nfa_empty();
            assert forall|w: Seq<char>| #[trigger] accepts(a, w) == in_language(node, w) by {
                lemma_empty_reach(w);
                if accepts(a, w) {
                    let j = choose|j: int| #[trigger] run(a, set![0int], w).contains(j) && a.finals.contains(j);
                    assert(reach(a, w, j));
                }
                if w.len() == 0 {
                    assert(reach(a, w, 0));
                    assert(run(a, set![0int], w).contains(0) && a.finals.contains(0));
                }
            }
        },
        RegexNode::Concat(x, y) => {
            lemma_thompson_correct(*x);
            lemma_thompson_correct(*y);
            let a = thompson(*x);
            let b = thompson(*y);
            lemma_wf_concat(a, b);
            assert forall|w: Seq<char>| #[trigger] accepts(thompson(node), w) == in_language(node, w) by {
                lemma_concat_accepts(a, b, w);
                if accepts(thompson(node), w) {
                    let i = choose|i: int| 0 <= i <= w.len() && #[trigger] accepts(a, w.take(i)) && accepts(b, w.skip(i));
                    assert(in_language(*x, w.take(i)) && in_language(*y, w.skip(i)));
                }
                if in_language(node, w) {
                    let i = choose|i: int| #![trigger w.take(i)] 0 <= i <= w.len() && in_language(*x, w.take(i)) && in_language(*y, w.skip(i));
                    assert(accepts(a, w.take(i)) && accepts(b, w.skip(i)));
                }
            }
        },
        RegexNode::Union(x, y) => {
            lemma_thompson_correct(*x);
            lemma_thompson_correct(*y);
            let a = thompson(*x);
            let b = thompson(*y);
            lemma_wf_union(a, b);
            assert forall|w: Seq<char>| #[trigger] accepts(thompson(node), w) == in_language(node, w) by {
                lemma_union_accepts(a, b, w);
            }
        },
        RegexNode::KleeneStar(x) => {
            lemma_thompson_correct(*x);
            let a = thompson(*x);
            lemma_wf_star(a);
            assert forall|w: Seq<char>| #[trigger] accepts(thompson(node), w) == in_language(node, w) by {
                lemma_star_accepts(a, w);
                lemma_kleene_language(node, a, w);
            }
        },
    }
}

/// Feeding the characters of `w` one at a time to a fresh run of the
/// automaton built for `node` ends in an accepting state exactly when `w` is
/// in the language of `node`.
pub proof fn lemma_regex_steps(node: RegexNode, w: Seq<char>)
    ensures
        accepting(thompson(node), steps(thompson(node), eclose(thompson(node), set![0int]), w))
            == in_language(node, w),
{
    lemma_thompson_correct(node);
    lemma_steps_from_start(thompson(node), w);
    assert(accepts(thompson(node), w) == in_language(node, w));
}

/// A search through `w` with a fresh run of the automaton built for `node`
/// succeeds exactly when some part of `w`, possibly empty, is in the
/// language of `node`.
pub proof fn lemma_regex_search(node: RegexNode, w: Seq<char>)
    ensures
        search_hit(thompson(node), eclose(thompson(node), set![0int]), w) == exists|i: int, k: int|
            0 <= i <= k <= w.len() && #[trigger] in_language(node, w.subrange(i, k)),
{
    let a = thompson(node);
    lemma_thompson_correct(node);
    lemma_search_fresh(a, w);
    if search_hit(a, eclose(a, set![0int]), w) {
        let (i, k) = choose|i: int, k: int| 0 <= i <= k <= w.len() && #[trigger] accepts(a, w.subrange(i, k));
        assert(in_language(node, w.subrange(i, k)));
    }
    if exists|i: int, k: int| 0 <= i <= k <= w.len() && #[trigger] in_language(node, w.subrange(i, k)) {
        let (i, k) = choose|i: int, k: int| 0 <= i <= k <= w.len() && #[trigger] in_language(node, w.subrange(i, k));
        assert(accepts(a, w.subrange(i, k)));
    }
}

} // verus!
