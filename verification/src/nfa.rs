use vstd::prelude::*;
use crate::bool_alg::{shift_pairs, shift_set};
use crate::parse::RegexNode;
use crate::relation::{closure, image, reflexive_on, transitive, within};

verus! {

/// Mathematical model of an automaton with epsilon moves: states `0 .. states`,
/// start state `0`, one transition relation per character, an epsilon relation
/// and the accepting states.
pub struct Nfa {
    pub states: nat,
    pub trans: Map<char, Set<(int, int)>>,
    pub eps: Set<(int, int)>,
    pub finals: Set<int>,
}

/// The transitions on `c` (none when `c` has no entry).
pub open spec fn trans_of(a: Nfa, c: char) -> Set<(int, int)> {
    if a.trans.dom().contains(c) {
        a.trans[c]
    } else {
        Set::empty()
    }
}

/// States and relations stay on `0 .. states`, there is at least one state,
/// and the epsilon relation is already reflexive and transitive.
pub open spec fn nfa_wf(a: Nfa) -> bool {
    &&& a.states >= 1
    &&& within(a.eps, a.states as int, a.states as int)
    &&& reflexive_on(a.eps, a.states as int)
    &&& transitive(a.eps)
    &&& forall|c: char| #[trigger] a.trans.dom().contains(c) ==> within(a.trans[c], a.states as int, a.states as int)
    &&& forall|i: int| #[trigger] a.finals.contains(i) ==> 0 <= i < a.states
}

/// The automaton that accepts exactly the one-character word `c`.
pub open spec fn nfa_literal(c: char) -> Nfa {
    Nfa {
        states: 2,
        trans: map![c => set![(0int, 1int)]],
        eps: set![(0int, 0int), (1int, 1int)],
        finals: set![1int],
    }
}

/// The automaton that accepts exactly the empty word.
pub open spec fn nfa_empty() -> Nfa {
    Nfa { states: 1, trans: Map::empty(), eps: set![(0int, 0int)], finals: set![0int] }
}

/// Edges from every state of `finals` to `to`.
pub open spec fn edges_to(finals: Set<int>, d: int, to: int) -> Set<(int, int)> {
    Set::new(|p: (int, int)| finals.contains(p.0 - d) && p.1 == to)
}

/// `a` followed by `b`: the states of `b` come after those of `a`, and every
/// accepting state of `a` has an epsilon move to the start of `b`.
pub open spec fn nfa_concat(a: Nfa, b: Nfa) -> Nfa {
    let na = a.states as int;
    let n = a.states + b.states;
    Nfa {
        states: n,
        trans: Map::new(
            |c: char| a.trans.dom().contains(c) || b.trans.dom().contains(c),
            |c: char| trans_of(a, c).union(shift_pairs(trans_of(b, c), na)),
        ),
        eps: closure(a.eps.union(shift_pairs(b.eps, na)).union(edges_to(a.finals, 0, na)), n as int),
        finals: shift_set(b.finals, na),
    }
}

/// `a` or `b`: a new start state `0` with epsilon moves to the starts of `a`
/// (placed at `1`) and of `b` (placed after `a`).
pub open spec fn nfa_union(a: Nfa, b: Nfa) -> Nfa {
    let na = a.states as int;
    let n = a.states + b.states + 1;
    Nfa {
        states: n,
        trans: Map::new(
            |c: char| a.trans.dom().contains(c) || b.trans.dom().contains(c),
            |c: char| shift_pairs(trans_of(a, c), 1).union(shift_pairs(trans_of(b, c), na + 1)),
        ),
        eps: closure(
            shift_pairs(a.eps, 1).union(shift_pairs(b.eps, na + 1)).insert((0, 1)).insert((0, na + 1)),
            n as int,
        ),
        finals: shift_set(a.finals, 1).union(shift_set(b.finals, na + 1)),
    }
}

/// Any number of repetitions of `a`: a new start state `0`, the only
/// accepting one, with an epsilon move to the start of `a` (placed at `1`),
/// and epsilon moves back from every accepting state of `a`.
pub open spec fn nfa_star(a: Nfa) -> Nfa {
    let n = a.states + 1;
    Nfa {
        states: n,
        trans: Map::new(|c: char| a.trans.dom().contains(c), |c: char| shift_pairs(trans_of(a, c), 1)),
        eps: closure(shift_pairs(a.eps, 1).insert((0, 1)).union(edges_to(a.finals, 1, 0)), n as int),
        finals: set![0int],
    }
}

/// The automaton built for `node`, piece by piece.
pub open spec fn thompson(node: RegexNode) -> Nfa
    decreases node,
{
    match node {
        RegexNode::Literal(c) => nfa_literal(c),
        RegexNode::Empty => nfa_empty(),
        RegexNode::Concat(a, b) => nfa_concat(thompson(*a), thompson(*b)),
        RegexNode::Union(a, b) => nfa_union(thompson(*a), thompson(*b)),
        RegexNode::KleeneStar(a) => nfa_star(thompson(*a)),
    }
}

/// The states reached from `s` by epsilon moves.
pub open spec fn eclose(a: Nfa, s: Set<int>) -> Set<int> {
    image(s, a.eps)
}

/// The states reached from `s` by reading `c`, epsilon moves before and after
/// included.
pub open spec fn step_set(a: Nfa, s: Set<int>, c: char) -> Set<int> {
    eclose(a, image(eclose(a, s), trans_of(a, c)))
}

/// The states reached from `s` by reading `w`.
pub open spec fn run(a: Nfa, s: Set<int>, w: Seq<char>) -> Set<int>
    decreases w.len(),
{
    if w.len() == 0 {
        eclose(a, s)
    } else {
        eclose(a, image(run(a, s, w.drop_last()), trans_of(a, w.last())))
    }
}

/// `s` holds an accepting state.
pub open spec fn accepting(a: Nfa, s: Set<int>) -> bool {
    exists|i: int| #[trigger] s.contains(i) && a.finals.contains(i)
}

/// The automaton accepts the whole word `w`.
pub open spec fn accepts(a: Nfa, w: Seq<char>) -> bool {
    accepting(a, run(a, set![0int], w))
}

/// The states active after reading `w.take(k)` from `s` while also starting
/// afresh before every character: those reached from `s`, and those reached
/// from the start state by some `w.subrange(i, k)` with `i < k`.
pub open spec fn found(a: Nfa, s: Set<int>, w: Seq<char>, k: int) -> Set<int> {
    run(a, s, w.take(k)).union(
        Set::new(|j: int| exists|i: int| 0 <= i < k && #[trigger] run(a, set![0int], w.subrange(i, k)).contains(j)),
    )
}

/// The states from which the character at `k` is read during such a search:
/// those reached from `s`, and those reached from the start state by some
/// `w.subrange(i, k)` with `i <= k`.
pub open spec fn pre_found(a: Nfa, s: Set<int>, w: Seq<char>, k: int) -> Set<int> {
    run(a, s, w.take(k)).union(
        Set::new(|j: int| exists|i: int| 0 <= i <= k && #[trigger] run(a, set![0int], w.subrange(i, k)).contains(j)),
    )
}

/// A search through `w` from the states `s` succeeds: some part of `w`,
/// possibly empty, is accepted by the automaton, or some non-empty prefix of
/// `w` leads from `s` to an accepting state, or `w` is empty and `s` holds an
/// accepting state.
pub open spec fn search_hit(a: Nfa, s: Set<int>, w: Seq<char>) -> bool {
    ||| (w.len() == 0 && accepting(a, s))
    ||| exists|k: int| 1 <= k <= w.len() && #[trigger] accepting(a, run(a, s, w.take(k)))
    ||| exists|i: int, k: int| 0 <= i <= k <= w.len() && #[trigger] accepts(a, w.subrange(i, k))
}

/// `k` is the first point, after at least one character, at which a search
/// through `w` from `s` finds an accepting state.
pub open spec fn first_hit(a: Nfa, s: Set<int>, w: Seq<char>, k: int) -> bool {
    &&& 1 <= k <= w.len()
    &&& accepting(a, found(a, s, w, k))
    &&& forall|q: int| 1 <= q < k ==> !#[trigger] accepting(a, found(a, s, w, q))
}

/// Where a search through `w` from `s` stops reading: at its first hit, or
/// at the end of `w` when there is none.
pub open spec fn search_stop(a: Nfa, s: Set<int>, w: Seq<char>) -> int {
    if exists|k: int| #[trigger] first_hit(a, s, w, k) {
        choose|k: int| #[trigger] first_hit(a, s, w, k)
    } else {
        w.len() as int
    }
}

/// The states a search through `w` from `s` leaves active: `s` itself when
/// the empty word is accepted or nothing is read, else the states found
/// where the search stops.
pub open spec fn search_rest(a: Nfa, s: Set<int>, w: Seq<char>) -> Set<int> {
    if accepts(a, Seq::<char>::empty()) || search_stop(a, s, w) == 0 {
        s
    } else {
        found(a, s, w, search_stop(a, s, w))
    }
}

/// A first hit is where the search stops.
pub proof fn lemma_first_hit_stop(a: Nfa, s: Set<int>, w: Seq<char>, k: int)
    requires
        first_hit(a, s, w, k),
    ensures
        search_stop(a, s, w) == k,
{
    let j = choose|j: int| #[trigger] first_hit(a, s, w, j);
    if j < k {
        assert(!accepting(a, found(a, s, w, j)));
    } else if j > k {
        assert(!accepting(a, found(a, s, w, k)));
    }
}

/// Epsilon moves distribute over unions of start sets.
pub proof fn lemma_image_union(s: Set<int>, t: Set<int>, r: Set<(int, int)>)
    ensures
        image(s.union(t), r) == image(s, r).union(image(t, r)),
{
    assert forall|j: int| #[trigger] image(s.union(t), r).contains(j) == image(s, r).union(image(t, r)).contains(j) by {
        if image(s.union(t), r).contains(j) {
            let i = choose|i: int| #![trigger r.contains((i, j))] s.union(t).contains(i) && r.contains((i, j));
            if s.contains(i) {
                assert(image(s, r).contains(j));
            } else {
                assert(image(t, r).contains(j));
            }
        }
        if image(s, r).contains(j) {
            let i = choose|i: int| #![trigger r.contains((i, j))] s.contains(i) && r.contains((i, j));
            assert(s.union(t).contains(i));
        }
        if image(t, r).contains(j) {
            let i = choose|i: int| #![trigger r.contains((i, j))] t.contains(i) && r.contains((i, j));
            assert(s.union(t).contains(i));
        }
    }
    assert(image(s.union(t), r) =~= image(s, r).union(image(t, r)));
}

/// Taking epsilon moves twice is the same as taking them once.
pub proof fn lemma_eclose_idem(a: Nfa, s: Set<int>)
    requires
        nfa_wf(a),
    ensures
        eclose(a, eclose(a, s)) == eclose(a, s),
{
    let e = eclose(a, s);
    assert forall|j: int| #[trigger] eclose(a, e).contains(j) == e.contains(j) by {
        if eclose(a, e).contains(j) {
            let i = choose|i: int| #![trigger a.eps.contains((i, j))] e.contains(i) && a.eps.contains((i, j));
            let h = choose|h: int| #![trigger a.eps.contains((h, i))] s.contains(h) && a.eps.contains((h, i));
            assert(a.eps.contains((h, i)) && a.eps.contains((i, j)));
            assert(a.eps.contains((h, j)));
        }
        if e.contains(j) {
            let h = choose|h: int| #![trigger a.eps.contains((h, j))] s.contains(h) && a.eps.contains((h, j));
            assert(a.eps.contains((h, j)));
            assert(0 <= j < a.states);
            assert(a.eps.contains((j, j)));
        }
    }
    assert(eclose(a, e) =~= e);
}

/// The states reached by reading a word are closed under epsilon moves.
pub proof fn lemma_run_closed(a: Nfa, s: Set<int>, w: Seq<char>)
    requires
        nfa_wf(a),
    ensures
        eclose(a, run(a, s, w)) == run(a, s, w),
{
    if w.len() == 0 {
        lemma_eclose_idem(a, s);
    } else {
        lemma_eclose_idem(a, image(run(a, s, w.drop_last()), trans_of(a, w.last())));
    }
}

/// Reading one more character.
pub proof fn lemma_run_push(a: Nfa, s: Set<int>, w: Seq<char>, c: char)
    ensures
        run(a, s, w.push(c)) == eclose(a, image(run(a, s, w), trans_of(a, c))),
{
    assert(w.push(c).drop_last() =~= w);
}

/// Before the character at `k` is read, the search holds the states found so
/// far, the start state, and what epsilon moves reach from them.
pub proof fn lemma_pre_found(a: Nfa, s: Set<int>, w: Seq<char>, k: int)
    requires
        nfa_wf(a),
        0 <= k <= w.len(),
    ensures
        k == 0 ==> pre_found(a, s, w, k) == eclose(a, s.union(set![0int])),
        k > 0 ==> pre_found(a, s, w, k) == eclose(a, found(a, s, w, k).union(set![0int])),
{
    let z = set![0int];
    let emp = w.subrange(k, k);
    assert(emp =~= Seq::<char>::empty());
    assert(run(a, z, emp) == eclose(a, z));
    if k == 0 {
        lemma_image_union(s, z, a.eps);
        assert(w.take(0) =~= Seq::<char>::empty());
        assert forall|j: int| #[trigger] pre_found(a, s, w, k).contains(j) == eclose(a, s.union(z)).contains(j) by {
            if pre_found(a, s, w, k).contains(j) && !run(a, s, w.take(k)).contains(j) {
                let i = choose|i: int| 0 <= i <= k && #[trigger] run(a, z, w.subrange(i, k)).contains(j);
                assert(i == 0);
            }
            if eclose(a, z).contains(j) {
                assert(run(a, z, w.subrange(0, 0)).contains(j));
            }
        }
        assert(pre_found(a, s, w, k) =~= eclose(a, s.union(z)));
    } else {
        let f = found(a, s, w, k);
        let rest = Set::new(|j: int| exists|i: int| 0 <= i < k && #[trigger] run(a, z, w.subrange(i, k)).contains(j));
        lemma_image_union(f, z, a.eps);
        lemma_image_union(run(a, s, w.take(k)), rest, a.eps);
        lemma_run_closed(a, s, w.take(k));
        assert(eclose(a, rest) == rest) by {
            assert forall|j: int| #[trigger] eclose(a, rest).contains(j) == rest.contains(j) by {
                if eclose(a, rest).contains(j) {
                    let h = choose|h: int| #![trigger a.eps.contains((h, j))] rest.contains(h) && a.eps.contains((h, j));
                    let i = choose|i: int| 0 <= i < k && #[trigger] run(a, z, w.subrange(i, k)).contains(h);
                    lemma_run_closed(a, z, w.subrange(i, k));
                    assert(eclose(a, run(a, z, w.subrange(i, k))).contains(j));
                }
                if rest.contains(j) {
                    let i = choose|i: int| 0 <= i < k && #[trigger] run(a, z, w.subrange(i, k)).contains(j);
                    lemma_run_closed(a, z, w.subrange(i, k));
                    assert(eclose(a, run(a, z, w.subrange(i, k))).contains(j));
                    let h = choose|h: int| #![trigger a.eps.contains((h, j))] run(a, z, w.subrange(i, k)).contains(h) && a.eps.contains((h, j));
                    assert(0 <= j < a.states);
                    assert(a.eps.contains((j, j)));
                }
            }
            assert(eclose(a, rest) =~= rest);
        }
        assert forall|j: int| #[trigger] pre_found(a, s, w, k).contains(j) == eclose(a, f.union(z)).contains(j) by {
            if pre_found(a, s, w, k).contains(j) && !run(a, s, w.take(k)).contains(j) {
                let i = choose|i: int| 0 <= i <= k && #[trigger] run(a, z, w.subrange(i, k)).contains(j);
                if i < k {
                    assert(rest.contains(j));
                } else {
                    assert(eclose(a, z).contains(j));
                }
            }
            if eclose(a, z).contains(j) {
                assert(run(a, z, w.subrange(k, k)).contains(j));
            }
            if rest.contains(j) {
                let i = choose|i: int| 0 <= i < k && #[trigger] run(a, z, w.subrange(i, k)).contains(j);
                assert(run(a, z, w.subrange(i, k)).contains(j));
            }
        }
        assert(pre_found(a, s, w, k) =~= eclose(a, f.union(z)));
    }
}

/// Reading the character at `k` from the states held before it gives the
/// states found after it.
pub proof fn lemma_found_step(a: Nfa, s: Set<int>, w: Seq<char>, k: int)
    requires
        0 <= k < w.len(),
    ensures
        found(a, s, w, k + 1) == eclose(a, image(pre_found(a, s, w, k), trans_of(a, w[k]))),
{
    let z = set![0int];
    let t = trans_of(a, w[k]);
    let p = pre_found(a, s, w, k);
    let lhs = found(a, s, w, k + 1);
    let rhs = eclose(a, image(p, t));
    assert(w.take(k + 1) =~= w.take(k).push(w[k]));
    lemma_run_push(a, s, w.take(k), w[k]);
    assert forall|i: int| 0 <= i <= k implies #[trigger] run(a, z, w.subrange(i, k + 1)) == eclose(
        a,
        image(run(a, z, w.subrange(i, k)), t),
    ) by {
        assert(w.subrange(i, k + 1) =~= w.subrange(i, k).push(w[k]));
        lemma_run_push(a, z, w.subrange(i, k), w[k]);
    }
    assert forall|j: int| #[trigger] lhs.contains(j) == rhs.contains(j) by {
        if lhs.contains(j) {
            if run(a, s, w.take(k + 1)).contains(j) {
                let m = choose|m: int| #![trigger a.eps.contains((m, j))] image(run(a, s, w.take(k)), t).contains(m) && a.eps.contains((m, j));
                let h = choose|h: int| #![trigger t.contains((h, m))] run(a, s, w.take(k)).contains(h) && t.contains((h, m));
                assert(p.contains(h));
                assert(image(p, t).contains(m));
            } else {
                let i = choose|i: int| 0 <= i < k + 1 && #[trigger] run(a, z, w.subrange(i, k + 1)).contains(j);
                let m = choose|m: int| #![trigger a.eps.contains((m, j))] image(run(a, z, w.subrange(i, k)), t).contains(m) && a.eps.contains((m, j));
                let h = choose|h: int| #![trigger t.contains((h, m))] run(a, z, w.subrange(i, k)).contains(h) && t.contains((h, m));
                assert(p.contains(h));
                assert(image(p, t).contains(m));
            }
        }
        if rhs.contains(j) {
            let m = choose|m: int| #![trigger a.eps.contains((m, j))] image(p, t).contains(m) && a.eps.contains((m, j));
            let h = choose|h: int| #![trigger t.contains((h, m))] p.contains(h) && t.contains((h, m));
            if run(a, s, w.take(k)).contains(h) {
                assert(image(run(a, s, w.take(k)), t).contains(m));
                assert(run(a, s, w.take(k + 1)).contains(j));
            } else {
                let i = choose|i: int| 0 <= i <= k && #[trigger] run(a, z, w.subrange(i, k)).contains(h);
                assert(image(run(a, z, w.subrange(i, k)), t).contains(m));
                assert(run(a, z, w.subrange(i, k + 1)).contains(j));
            }
        }
    }
    assert(lhs =~= rhs);
}

/// The states after reading `w` one character at a time, starting from `s`.
pub open spec fn steps(a: Nfa, s: Set<int>, w: Seq<char>) -> Set<int>
    decreases w.len(),
{
    if w.len() == 0 {
        s
    } else {
        step_set(a, steps(a, s, w.drop_last()), w.last())
    }
}

/// Reading one more character from the states reached by `w` gives the
/// states reached by `w` followed by it.
pub proof fn lemma_step_run(a: Nfa, s: Set<int>, w: Seq<char>, c: char)
    requires
        nfa_wf(a),
    ensures
        step_set(a, run(a, s, w), c) == run(a, s, w.push(c)),
{
    lemma_run_closed(a, s, w);
    lemma_run_push(a, s, w, c);
}

/// A run started from the start state and its epsilon moves, then fed the
/// characters of `w` one at a time, holds exactly the states reached by `w`.
pub proof fn lemma_steps_from_start(a: Nfa, w: Seq<char>)
    requires
        nfa_wf(a),
    ensures
        steps(a, eclose(a, set![0int]), w) == run(a, set![0int], w),
    decreases w.len(),
{
    if w.len() > 0 {
        lemma_steps_from_start(a, w.drop_last());
        lemma_step_run(a, set![0int], w.drop_last(), w.last());
        assert(w.drop_last().push(w.last()) =~= w);
    }
}

/// Reading from `s` or from its epsilon moves reaches the same states.
pub proof fn lemma_run_eclose_start(a: Nfa, s: Set<int>, w: Seq<char>)
    requires
        nfa_wf(a),
    ensures
        run(a, eclose(a, s), w) == run(a, s, w),
    decreases w.len(),
{
    if w.len() == 0 {
        lemma_eclose_idem(a, s);
    } else {
        lemma_run_eclose_start(a, s, w.drop_last());
    }
}

proof fn lemma_run_dead(a: Nfa, s: Set<int>, w: Seq<char>, i: int, k: int)
    requires
        0 <= i < k <= w.len(),
        !a.trans.dom().contains(w[i]),
    ensures
        run(a, s, w.take(k)) == Set::<int>::empty(),
    decreases k,
{
    let t = w.take(k);
    assert(t.drop_last() =~= w.take(k - 1));
    if k == i + 1 {
        assert(trans_of(a, t.last()) == Set::<(int, int)>::empty());
    } else {
        lemma_run_dead(a, s, w, i, k - 1);
    }
    assert(run(a, s, t) =~= Set::<int>::empty());
}

/// A word holding a character without transitions is not accepted.
pub proof fn lemma_dead_char_rejects(a: Nfa, w: Seq<char>, i: int)
    requires
        0 <= i < w.len(),
        !a.trans.dom().contains(w[i]),
    ensures
        !accepts(a, w),
{
    lemma_run_dead(a, set![0int], w, i, w.len() as int);
    assert(w.take(w.len() as int) =~= w);
}

/// A search that starts from the start state and its epsilon moves succeeds
/// exactly when some part of `w`, possibly empty, is accepted.
pub proof fn lemma_search_fresh(a: Nfa, w: Seq<char>)
    requires
        nfa_wf(a),
    ensures
        search_hit(a, eclose(a, set![0int]), w) == exists|i: int, k: int|
            0 <= i <= k <= w.len() && #[trigger] accepts(a, w.subrange(i, k)),
{
    let z = set![0int];
    let s = eclose(a, z);
    assert(w.subrange(0, 0) =~= Seq::<char>::empty());
    if search_hit(a, s, w) {
        if w.len() == 0 && accepting(a, s) {
            assert(accepts(a, w.subrange(0, 0)));
        } else if exists|k: int| 1 <= k <= w.len() && #[trigger] accepting(a, run(a, s, w.take(k))) {
            let k = choose|k: int| 1 <= k <= w.len() && #[trigger] accepting(a, run(a, s, w.take(k)));
            lemma_run_eclose_start(a, z, w.take(k));
            assert(w.take(k) =~= w.subrange(0, k));
            assert(accepts(a, w.subrange(0, k)));
        }
    }
}

} // verus!
