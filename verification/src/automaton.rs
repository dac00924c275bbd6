use vstd::prelude::*;
use std::collections::HashMap;
use crate::bool_alg::{lemma_same_layout, lemma_seq_set_push, seq_set, shift_pairs, shift_set, BoolMat, BoolVec};
use crate::nfa::{
    accepting, accepts, eclose, edges_to, first_hit, found, lemma_first_hit_stop, lemma_found_step, lemma_pre_found, nfa_concat,
    nfa_empty, nfa_literal, nfa_star, nfa_union, nfa_wf, pre_found, run, search_hit, search_rest, step_set,
    thompson, trans_of, Nfa,
};
use crate::parse::{lemma_parse_states, node_states, parse_spec, RegexNode};
use crate::relation::{lemma_closure_props, reflexive_on, transitive, within};
use crate::text::chars_of;

verus! {

/// A finite automaton with epsilon moves, built from a regular expression.
///
/// The transitions on each character are a matrix in a hash table keyed by
/// the character's code point. The epsilon matrix is kept closed: it already
/// holds every state reached through any number of epsilon moves.
#[derive(Debug)]
pub struct Automaton {
    states: usize,
    transition: HashMap<u32, BoolMat>,
    final_states: BoolVec,
    epsilon_closure: BoolMat,
}

/// The transition relation of each character with an entry; the table is
/// keyed by the characters' code points.
pub open spec fn trans_map(t: Map<u32, BoolMat>) -> Map<char, Set<(int, int)>> {
    Map::new(|c: char| t.contains_key(c as u32), |c: char| t[c as u32].entries())
}

/// Every matrix is well formed and square of side `n`.
pub open spec fn mats_wf(t: Map<u32, BoolMat>, n: usize) -> bool {
    forall|k: u32| #[trigger] t.contains_key(k) ==> t[k].wf() && t[k].shape == (n, n)
}

/// The relation stored under `k` (empty when `k` has no entry).
pub open spec fn rel_of(t: Map<u32, BoolMat>, k: u32) -> Set<(int, int)> {
    if t.contains_key(k) {
        t[k].entries()
    } else {
        Set::empty()
    }
}

/// `n * n` fits in a `usize`.
pub open spec fn fits(n: int) -> bool {
    n * n < usize::MAX
}

/// Distinct characters have distinct code points.
proof fn lemma_code_points(a: char, b: char)
    ensures
        (a as u32 == b as u32) == (a == b),
{
}

/// `k` is among the first `i` elements of `keys`.
pub open spec fn seen(keys: Seq<u32>, i: int, k: u32) -> bool {
    exists|j: int| 0 <= j < i && keys[j] == k
}

proof fn lemma_seen_next(keys: Seq<u32>, i: int)
    requires
        0 <= i < keys.len(),
        keys.no_duplicates(),
    ensures
        forall|k: u32| #[trigger] seen(keys, i + 1, k) == (seen(keys, i, k) || k == keys[i]),
        !seen(keys, i, keys[i]),
{
    assert forall|k: u32| #[trigger] seen(keys, i + 1, k) == (seen(keys, i, k) || k == keys[i]) by {
        if seen(keys, i + 1, k) {
            let j = choose|j: int| 0 <= j < i + 1 && keys[j] == k;
            if j < i {
                assert(seen(keys, i, k));
            }
        }
        if seen(keys, i, k) {
            let j = choose|j: int| 0 <= j < i && keys[j] == k;
            assert(0 <= j < i + 1 && keys[j] == k);
        }
        if k == keys[i] {
            assert(0 <= i < i + 1 && keys[i] == k);
        }
    }
    if seen(keys, i, keys[i]) {
        let j = choose|j: int| 0 <= j < i && keys[j] == keys[i];
        assert(keys[j] != keys[i]);
    }
}

proof fn lemma_seen_all(keys: Seq<u32>, k: u32)
    requires
        keys.to_set().contains(k),
    ensures
        seen(keys, keys.len() as int, k),
{
    let j = choose|j: int| 0 <= j < keys.len() && keys[j] == k;
    assert(0 <= j < keys.len() && keys[j] == k);
}

/// The keys of `t`, each once, in the order the table hands them out.
fn keys_of(t: &HashMap<u32, BoolMat>) -> (r: Vec<u32>)
    ensures
        r@.to_set() == t@.dom(),
        r@.no_duplicates(),
{
    let mut r: Vec<u32> = Vec::new();
    for kv in it: t.iter()
        invariant
            r@.len() == it.index(),
            forall|i: int| 0 <= i < it.index() ==> r@[i] == *it.seq()[i].0,
            it.seq().len() == t@.dom().len(),
            forall|i: int| 0 <= i < it.seq().len() ==> t@.contains_key(*it.seq()[i].0),
            forall|k: u32| #[trigger] t@.contains_key(k) ==> it.seq().contains((&k, &t@[k])),
            it.seq().no_duplicates(),
            forall|k: u32| #[trigger] t@.contains_key(k) ==> (r@.contains(k) || exists|i: int|
                it.index() <= i < it.seq().len() && *it.seq()[i].0 == k),
            forall|i: int| 0 <= i < r@.len() ==> t@.contains_key(#[trigger] r@[i]),
    {
        let ghost before = r@;
        r.push(*kv.0);
        proof {
            assert forall|k: u32| #[trigger] t@.contains_key(k) implies (r@.contains(k) || exists|i: int|
                it.index() + 1 <= i < it.seq().len() && *it.seq()[i].0 == k) by {
                if before.contains(k) {
                    let j = choose|j: int| 0 <= j < before.len() && before[j] == k;
                    assert(r@[j] == k);
                } else {
                    let i = choose|i: int| it.index() <= i < it.seq().len() && *it.seq()[i].0 == k;
                    if i == it.index() {
                        assert(r@[before.len() as int] == k);
                    }
                }
            }
        }
    }
    proof {
        assert(r@.to_set() =~= t@.dom()) by {
            assert forall|k: u32| r@.to_set().contains(k) implies t@.dom().contains(k) by {
                let j = choose|j: int| 0 <= j < r@.len() && r@[j] == k;
            }
        }
    }
    r
}

/// Shifts every matrix of `t` (of side `nb`) by `off` along both
/// coordinates; with `star`, by the Kleene shift, which moves by one.
fn shift_all(t: &mut HashMap<u32, BoolMat>, nb: usize, off: usize, star: bool)
    requires
        mats_wf(old(t)@, nb),
        nb + off + 1 < usize::MAX,
        star ==> off == 1,
    ensures
        final(t)@.dom() == old(t)@.dom(),
        mats_wf(final(t)@, (nb + off) as usize),
        forall|k: u32| #[trigger] final(t)@.contains_key(k) ==> final(t)@[k].entries() == shift_pairs(
            old(t)@[k].entries(),
            off as int,
        ),
{
    let keys = keys_of(t);
    let ghost t0 = t@;
    let n: usize = nb + off;
    let mut i: usize = 0;
    while i < keys.len()
        invariant
            keys@.to_set() == t0.dom(),
            keys@.no_duplicates(),
            i <= keys@.len(),
            t@.dom() == t0.dom(),
            mats_wf(t0, nb),
            n == nb + off,
            n + 1 < usize::MAX,
            star ==> off == 1,
            forall|k: u32| #[trigger] t@.contains_key(k) ==> if seen(keys@, i as int, k) {
                &&& t@[k].wf()
                &&& t@[k].shape == (n, n)
                &&& t@[k].entries() == shift_pairs(t0[k].entries(), off as int)
            } else {
                t@[k] == t0[k]
            },
        decreases keys@.len() - i,
    {
        let k = keys[i];
        proof {
            assert(keys@.to_set().contains(k));
            lemma_seen_next(keys@, i as int);
        }
        let ghost before = t@;
        match t.remove(&k) {
            Some(m) => {
                let mut m = m;
                if star {
                    m.kleene_shift();
                } else {
                    m.shift_by(off);
                }
                t.insert(k, m);
            },
            None => {
                assert(false);
            },
        }
        proof {
            assert(t@.dom() =~= t0.dom());
        }
        i = i + 1;
    }
    proof {
        assert forall|k: u32| #[trigger] t@.contains_key(k) implies seen(keys@, keys@.len() as int, k) by {
            lemma_seen_all(keys@, k);
        }
    }
}

proof fn lemma_fits_bound(n: int)
    requires
        n >= 1,
        fits(n),
    ensures
        n < usize::MAX,
{
    assert(n <= n * n) by (nonlinear_arith)
        requires
            n >= 1,
    ;
}

proof fn lemma_fits_mono(n: int, m: int)
    requires
        0 <= m <= n,
        fits(n),
    ensures
        fits(m),
{
    assert(m * m <= n * n) by (nonlinear_arith)
        requires
            0 <= m <= n,
    ;
}

proof fn lemma_fits_succ(n: int)
    requires
        n >= 1,
        fits(n),
    ensures
        n + 1 < usize::MAX,
{
    if n >= 2 {
        assert(n + 1 <= n * n) by (nonlinear_arith)
            requires
                n >= 2,
        ;
    }
}

/// The model of an automaton made of these parts.
pub open spec fn parts_view(states: usize, t: Map<u32, BoolMat>, finals: BoolVec, eps: BoolMat) -> Nfa {
    Nfa { states: states as nat, trans: trans_map(t), eps: eps.entries(), finals: finals.entries() }
}

/// The parts make a well-formed automaton.
pub open spec fn parts_inv(states: usize, t: Map<u32, BoolMat>, finals: BoolVec, eps: BoolMat) -> bool {
    &&& eps.wf()
    &&& eps.shape == (states, states)
    &&& finals.wf()
    &&& finals.len == states
    &&& mats_wf(t, states)
    &&& nfa_wf(parts_view(states, t, finals, eps))
}

proof fn lemma_parts_inv(states: usize, t: Map<u32, BoolMat>, finals: BoolVec, eps: BoolMat)
    requires
        states >= 1,
        eps.wf(),
        eps.shape == (states, states),
        reflexive_on(eps.entries(), states as int),
        transitive(eps.entries()),
        finals.wf(),
        finals.len == states,
        mats_wf(t, states),
    ensures
        parts_inv(states, t, finals, eps),
{
    let a = parts_view(states, t, finals, eps);
    eps.lemma_entries_within();
    assert forall|c: char| #[trigger] a.trans.dom().contains(c) implies within(
        a.trans[c],
        a.states as int,
        a.states as int,
    ) by {
        assert(t.contains_key(c as u32));
        t[c as u32].lemma_entries_within();
    }
    assert forall|i: int| #[trigger] a.finals.contains(i) implies 0 <= i < a.states by {
        let k = choose|k: int| 0 <= k < finals.val_indx@.len() && #[trigger] finals.val_indx@[k] == i;
    }
}

/// Sets in `target` every entry of `src` moved by `off` along both
/// coordinates.
fn copy_shifted(target: &mut BoolMat, src: &BoolMat, off: usize)
    requires
        old(target).wf(),
        src.wf(),
        src.rows() + off <= old(target).rows(),
        src.cols() + off <= old(target).cols(),
        old(target).rows() * old(target).cols() < usize::MAX,
    ensures
        final(target).wf(),
        final(target).shape == old(target).shape,
        final(target).entries() == old(target).entries().union(shift_pairs(src.entries(), off as int)),
{
    let ghost e0 = target.entries();
    let ghost se = src.entries();
    let mut m: usize = 0;
    while m < src.shape.0
        invariant
            target.wf(),
            target.shape == old(target).shape,
            src.wf(),
            se == src.entries(),
            m <= src.rows(),
            src.rows() + off <= target.rows(),
            src.cols() + off <= target.cols(),
            target.rows() * target.cols() < usize::MAX,
            target.entries() == e0.union(
                Set::new(|p: (int, int)| se.contains((p.0 - off, p.1 - off)) && p.0 - off < m),
            ),
        decreases src.rows() - m,
    {
        assert(src.start(m as int) <= src.start(m + 1) <= src.start(src.rows()));
        let start = src.row_ptr[m];
        let end = src.row_ptr[m + 1];
        let mut q = start;
        while q < end
            invariant
                target.wf(),
                target.shape == old(target).shape,
                src.wf(),
                se == src.entries(),
                m < src.rows(),
                start == src.start(m as int),
                end == src.start(m + 1),
                start <= q <= end <= src.col_indx@.len(),
                src.rows() + off <= target.rows(),
                src.cols() + off <= target.cols(),
                target.rows() * target.cols() < usize::MAX,
                target.entries() == e0.union(
                    Set::new(|p: (int, int)| se.contains((p.0 - off, p.1 - off)) && p.0 - off < m),
                ).union(
                    Set::new(|p: (int, int)| p.0 == m + off && exists|q2: int| start <= q2 < q && #[trigger] src.col_indx@[q2] == p.1 - off),
                ),
            decreases end - q,
        {
            let n = src.col_indx[q];
            proof {
                target.lemma_len_bound();
            }
            target.insert(m + off, n + off);
            proof {
                assert(target.entries() =~= e0.union(
                    Set::new(|p: (int, int)| se.contains((p.0 - off, p.1 - off)) && p.0 - off < m),
                ).union(
                    Set::new(|p: (int, int)| p.0 == m + off && exists|q2: int| start <= q2 < q + 1 && #[trigger] src.col_indx@[q2] == p.1 - off),
                )) by {
                    assert(src.col_indx@[q as int] == n);
                }
            }
            q = q + 1;
        }
        proof {
            assert(target.entries() =~= e0.union(
                Set::new(|p: (int, int)| se.contains((p.0 - off, p.1 - off)) && p.0 - off < m + 1),
            )) by {
                assert forall|p: (int, int)| se.contains((p.0 - off, p.1 - off)) && p.0 - off == m implies
                    exists|q2: int| start <= q2 < end && #[trigger] src.col_indx@[q2] == p.1 - off by {
                    assert(src.has(p.0 - off, p.1 - off));
                }
            }
        }
        m = m + 1;
    }
    proof {
        src.lemma_entries_within();
        assert(target.entries() =~= e0.union(shift_pairs(se, off as int)));
    }
}

/// The transitions of two automata placed side by side: those of `at` moved
/// by `a_off`, those of `bt` (of side `nb`) moved by `b_off`, in matrices of
/// side `n`.
fn merge_transitions(
    at: &HashMap<u32, BoolMat>,
    bt: HashMap<u32, BoolMat>,
    na: usize,
    nb: usize,
    a_off: usize,
    b_off: usize,
    n: usize,
) -> (r: HashMap<u32, BoolMat>)
    requires
        mats_wf(at@, na),
        mats_wf(bt@, nb),
        na + a_off <= n,
        nb + b_off == n,
        n >= 1,
        fits(n as int),
    ensures
        mats_wf(r@, n),
        r@.dom() == at@.dom().union(bt@.dom()),
        forall|k: u32| #[trigger] r@.contains_key(k) ==> r@[k].entries() == shift_pairs(
            rel_of(at@, k),
            a_off as int,
        ).union(shift_pairs(rel_of(bt@, k), b_off as int)),
{
    proof {
        lemma_fits_bound(n as int);
        lemma_fits_succ(n as int);
    }
    let a_keys = keys_of(at);
    let ghost b0 = bt@;
    let mut t = bt;
    let mut i: usize = 0;
    while i < a_keys.len()
        invariant
            a_keys@.to_set() == at@.dom(),
            a_keys@.no_duplicates(),
            i <= a_keys@.len(),
            nb < usize::MAX,
            t@.dom() == b0.dom().union(Set::new(|k: u32| seen(a_keys@, i as int, k))),
            mats_wf(t@, nb),
            forall|k: u32| #[trigger] t@.contains_key(k) ==> t@[k].entries() == rel_of(b0, k),
        decreases a_keys@.len() - i,
    {
        let k = a_keys[i];
        proof {
            lemma_seen_next(a_keys@, i as int);
        }
        if !t.contains_key(&k) {
            t.insert(k, BoolMat::zeros(nb, nb));
        }
        proof {
            assert(t@.dom() =~= b0.dom().union(Set::new(|k: u32| seen(a_keys@, i + 1, k))));
        }
        i = i + 1;
    }
    let ghost t1 = t@;
    shift_all(&mut t, nb, b_off, false);
    let ghost t2 = t@;
    proof {
        assert forall|k: u32| #[trigger] at@.dom().contains(k) implies t2.dom().contains(k) by {
            lemma_seen_all(a_keys@, k);
        }
    }
    let mut i: usize = 0;
    while i < a_keys.len()
        invariant
            a_keys@.to_set() == at@.dom(),
            a_keys@.no_duplicates(),
            i <= a_keys@.len(),
            mats_wf(at@, na),
            na + a_off <= n,
            fits(n as int),
            t@.dom() == t2.dom(),
            at@.dom().subset_of(t2.dom()),
            mats_wf(t@, n),
            forall|k: u32| #[trigger] t@.contains_key(k) ==> t@[k].entries() == t2[k].entries().union(
                if seen(a_keys@, i as int, k) {
                    shift_pairs(rel_of(at@, k), a_off as int)
                } else {
                    Set::empty()
                },
            ),
        decreases a_keys@.len() - i,
    {
        let k = a_keys[i];
        proof {
            assert(a_keys@.to_set().contains(k));
            lemma_seen_next(a_keys@, i as int);
        }
        let ghost before = t@;
        let src = match at.get(&k) {
            Some(src) => src,
            None => {
                assert(false);
                return t;
            },
        };
        match t.remove(&k) {
            Some(m) => {
                let mut m = m;
                copy_shifted(&mut m, src, a_off);
                t.insert(k, m);
            },
            None => {
                assert(false);
            },
        }
        proof {
            assert(t@.dom() =~= t2.dom());
            assert forall|k2: u32| #[trigger] t@.contains_key(k2) implies t@[k2].entries() == t2[k2].entries().union(
                if seen(a_keys@, i + 1, k2) {
                    shift_pairs(rel_of(at@, k2), a_off as int)
                } else {
                    Set::empty()
                },
            ) by {
                if k2 == k {
                    assert(t@[k2].entries() =~= t2[k2].entries().union(shift_pairs(rel_of(at@, k2), a_off as int)));
                } else {
                    assert(t@[k2] == before[k2]);
                }
            }
        }
        i = i + 1;
    }
    proof {
        assert forall|k: u32| #[trigger] t@.contains_key(k) implies t@[k].entries() == shift_pairs(
            rel_of(at@, k),
            a_off as int,
        ).union(shift_pairs(rel_of(b0, k), b_off as int)) by {
            assert(t1.contains_key(k));
            assert(t1[k].entries() == rel_of(b0, k));
            if at@.contains_key(k) {
                lemma_seen_all(a_keys@, k);
                assert(t@[k].entries() =~= shift_pairs(rel_of(at@, k), a_off as int).union(
                    shift_pairs(rel_of(b0, k), b_off as int),
                ));
            } else {
                if seen(a_keys@, a_keys@.len() as int, k) {
                    let j = choose|j: int| 0 <= j < a_keys@.len() && a_keys@[j] == k;
                    assert(a_keys@.to_set().contains(k));
                }
                assert(shift_pairs(Set::<(int, int)>::empty(), a_off as int) =~= Set::<(int, int)>::empty());
                assert(t@[k].entries() =~= shift_pairs(rel_of(at@, k), a_off as int).union(
                    shift_pairs(rel_of(b0, k), b_off as int),
                ));
            }
        }
        assert(t@.dom() =~= at@.dom().union(b0.dom())) by {
            assert forall|k: u32| #[trigger] at@.dom().contains(k) implies t1.dom().contains(k) by {
                lemma_seen_all(a_keys@, k);
            }
            assert forall|k: u32| #[trigger] t1.dom().contains(k) && !b0.dom().contains(k) implies at@.dom().contains(k) by {
                let j = choose|j: int| 0 <= j < a_keys@.len() && a_keys@[j] == k;
                assert(a_keys@.to_set().contains(k));
            }
        }
    }
    t
}

/// Appends to `out` every value of `v` increased by `d`.
fn push_shifted(out: &mut Vec<usize>, v: &Vec<usize>, d: usize)
    requires
        forall|k: int| 0 <= k < v@.len() ==> #[trigger] v@[k] + d <= usize::MAX,
    ensures
        seq_set(final(out)@) == seq_set(old(out)@).union(shift_set(seq_set(v@), d as int)),
{
    let ghost o = out@;
    let mut k: usize = 0;
    while k < v.len()
        invariant
            k <= v@.len(),
            forall|q: int| 0 <= q < v@.len() ==> #[trigger] v@[q] + d <= usize::MAX,
            seq_set(out@) == seq_set(o).union(shift_set(seq_set(v@.take(k as int)), d as int)),
        decreases v@.len() - k,
    {
        let ghost before = out@;
        out.push(v[k] + d);
        proof {
            lemma_seq_set_push(before, (v@[k as int] + d) as usize);
            assert(v@.take(k + 1) =~= v@.take(k as int).push(v@[k as int]));
            lemma_seq_set_push(v@.take(k as int), v@[k as int]);
            assert(seq_set(out@) =~= seq_set(o).union(shift_set(seq_set(v@.take(k + 1)), d as int)));
        }
        k = k + 1;
    }
    assert(v@.take(v@.len() as int) =~= v@);
}

/// Sets in `eps` an entry from every listed state to `to`.
fn link_to(eps: &mut BoolMat, from: &Vec<usize>, to: usize)
    requires
        old(eps).wf(),
        to < old(eps).cols(),
        old(eps).rows() * old(eps).cols() < usize::MAX,
        forall|k: int| 0 <= k < from@.len() ==> #[trigger] from@[k] < old(eps).rows(),
    ensures
        final(eps).wf(),
        final(eps).shape == old(eps).shape,
        final(eps).entries() == old(eps).entries().union(edges_to(seq_set(from@), 0, to as int)),
{
    let ghost e0 = eps.entries();
    let mut k: usize = 0;
    while k < from.len()
        invariant
            k <= from@.len(),
            eps.wf(),
            eps.shape == old(eps).shape,
            to < eps.cols(),
            eps.rows() * eps.cols() < usize::MAX,
            forall|q: int| 0 <= q < from@.len() ==> #[trigger] from@[q] < eps.rows(),
            eps.entries() == e0.union(edges_to(seq_set(from@.take(k as int)), 0, to as int)),
        decreases from@.len() - k,
    {
        proof {
            eps.lemma_len_bound();
        }
        eps.insert(from[k], to);
        proof {
            assert(from@.take(k + 1) =~= from@.take(k as int).push(from@[k as int]));
            lemma_seq_set_push(from@.take(k as int), from@[k as int]);
            assert(eps.entries() =~= e0.union(edges_to(seq_set(from@.take(k + 1)), 0, to as int)));
        }
        k = k + 1;
    }
    assert(from@.take(from@.len() as int) =~= from@);
}

impl View for Automaton {
    type V = Nfa;

    closed spec fn view(&self) -> Nfa {
        parts_view(self.states, self.transition@, self.final_states, self.epsilon_closure)
    }
}

impl Clone for Automaton {
    /// A copy that describes the same automaton.
    fn clone(&self) -> (r: Self)
        ensures
            r@ == self@,
    {
        proof {
            use_type_invariant(self);
        }
        let transition = self.transition.clone();
        let final_states = self.final_states.clone();
        let epsilon_closure = self.epsilon_closure.clone();
        proof {
            lemma_same_layout(epsilon_closure, self.epsilon_closure);
            assert(final_states.entries() =~= self.final_states.entries());
            assert(parts_view(self.states, transition@, final_states, epsilon_closure) == self@);
        }
        Automaton { states: self.states, transition, final_states, epsilon_closure }
    }
}

impl Automaton {
    #[verifier::type_invariant]
    spec fn inv(self) -> bool {
        parts_inv(self.states, self.transition@, self.final_states, self.epsilon_closure)
    }

    /// The number of states.
    pub fn states(&self) -> (r: usize)
        ensures
            r == self@.states,
    {
        self.states
    }

    /// Whether `n * n < usize::MAX`, the bound under which automata of `n`
    /// states are built.
    pub fn fits_states(n: usize) -> (r: bool)
        ensures
            r == fits(n as int),
    {
        match n.checked_mul(n) {
            Some(sq) => sq < usize::MAX,
            None => false,
        }
    }

    /// Whether a regular expression of `len` characters is short enough for
    /// `from_str`: `(2 * len + 1)` squared is below `usize::MAX`.
    pub fn fits_regex_len(len: usize) -> (r: bool)
        ensures
            r == fits(2 * len + 1int),
    {
        let n: u128 = 2 * (len as u128) + 1;
        if n > usize::MAX as u128 {
            assert((2 * len + 1int) * (2 * len + 1int) >= 2 * len + 1int) by (nonlinear_arith);
            return false;
        }
        Self::fits_states(n as usize)
    }

    /// The two-state automaton that accepts exactly the word `c`.
    pub fn literal(c: char) -> (r: Self)
        ensures
            r@ == nfa_literal(c),
            nfa_wf(r@),
    {
        let mut coords: Vec<(usize, usize)> = Vec::new();
        coords.push((0, 1));
        let ghost coords_one = coords;
        let m = BoolMat::from_coord(coords, (2, 2));
        let m = match m {
            Some(m) => m,
            None => {
                assert(false);
                BoolMat::zeros(2, 2)
            },
        };
        let mut finals: Vec<usize> = Vec::new();
        finals.push(1);
        let ghost finals_one = finals;
        let f = match BoolVec::from_indices(finals, 2) {
            Some(f) => f,
            None => {
                assert(false);
                BoolVec { len: 2, val_indx: Vec::new() }
            },
        };
        let mut transition: HashMap<u32, BoolMat> = HashMap::new();
        transition.insert(c as u32, m);
        let r = Automaton {
            states: 2,
            transition,
            final_states: f,
            epsilon_closure: BoolMat::identity(2),
        };
        proof {
            let t = r.transition@;
            assert(t[c as u32].entries() =~= set![(0int, 1int)]) by {
                assert(coords_one@[0] == (0usize, 1usize));
            }
            assert(t.contains_key(c as u32));
            assert forall|c2: char| #[trigger] trans_map(t).dom().contains(c2) == (c2 == c) by {
                lemma_code_points(c2, c);
            }
            assert(trans_map(t).dom() =~= set![c]);
            assert(trans_map(t)[c] == set![(0int, 1int)]);
            assert(trans_map(t) =~= map![c => set![(0int, 1int)]]);
            assert(r.epsilon_closure.entries() =~= set![(0int, 0int), (1int, 1int)]);
            assert(r.final_states.entries() =~= set![1int]) by {
                assert(finals_one@[0] == 1usize);
            }
        }
        proof {
            use_type_invariant(&r);
        }
        r
    }

    /// The one-state automaton that accepts exactly the empty word.
    pub fn empty() -> (r: Self)
        ensures
            r@ == nfa_empty(),
            nfa_wf(r@),
    {
        let mut finals: Vec<usize> = Vec::new();
        finals.push(0);
        let ghost finals_one = finals;
        let f = match BoolVec::from_indices(finals, 1) {
            Some(f) => f,
            None => {
                assert(false);
                BoolVec { len: 1, val_indx: Vec::new() }
            },
        };
        let r = Automaton {
            states: 1,
            transition: HashMap::new(),
            final_states: f,
            epsilon_closure: BoolMat::identity(1),
        };
        proof {
            assert(trans_map(r.transition@) =~= Map::<char, Set<(int, int)>>::empty());
            assert(r.epsilon_closure.entries() =~= set![(0int, 0int)]);
            assert(r.final_states.entries() =~= set![0int]) by {
                assert(finals_one@[0] == 0usize);
            }
        }
        proof {
            use_type_invariant(&r);
        }
        r
    }

    /// Any number of repetitions of the words this automaton accepts.
    pub fn kleene_star(self) -> (r: Self)
        requires
            fits(self@.states + 1int),
        ensures
            r@ == nfa_star(self@),
            nfa_wf(r@),
    {
        proof {
            use_type_invariant(&self);
        }
        let ghost a = self@;
        let Automaton { states, transition, final_states, epsilon_closure } = self;
        proof {
            lemma_fits_bound(states + 1);
        }
        let n = states + 1;
        proof {
            lemma_fits_succ(n as int);
        }
        let mut transition = transition;
        shift_all(&mut transition, states, 1, true);
        let mut epsilon_closure = epsilon_closure;
        let mut final_states = final_states;
        epsilon_closure.kleene_shift();
        proof {
            epsilon_closure.lemma_len_bound();
        }
        epsilon_closure.insert(0, 1);
        final_states.kleene_shift();
        let ghost g0 = epsilon_closure.entries();
        let mut k: usize = 0;
        while k < final_states.val_indx.len()
            invariant
                n == states + 1,
                fits(n as int),
                final_states.wf(),
                final_states.len == n,
                final_states.entries() == shift_set(a.finals, 1),
                epsilon_closure.wf(),
                epsilon_closure.shape == (n, n),
                k <= final_states.val_indx@.len(),
                epsilon_closure.entries() == g0.union(
                    Set::new(|p: (int, int)| p.1 == 0 && exists|q: int| 0 <= q < k && #[trigger] final_states.val_indx@[q] == p.0),
                ),
            decreases final_states.val_indx@.len() - k,
        {
            let x = final_states.val_indx[k];
            proof {
                epsilon_closure.lemma_len_bound();
            }
            epsilon_closure.insert(x, 0);
            proof {
                assert(epsilon_closure.entries() =~= g0.union(
                    Set::new(|p: (int, int)| p.1 == 0 && exists|q: int| 0 <= q < k + 1 && #[trigger] final_states.val_indx@[q] == p.0),
                )) by {
                    assert(final_states.val_indx@[k as int] == x);
                }
            }
            k = k + 1;
        }
        let ghost g = shift_pairs(a.eps, 1).insert((0, 1)).union(edges_to(a.finals, 1, 0));
        proof {
            assert(epsilon_closure.entries() =~= g) by {
                assert forall|p: (int, int)| #[trigger] epsilon_closure.entries().contains(p) == g.contains(p) by {
                    if p.1 == 0 && edges_to(a.finals, 1, 0).contains(p) {
                        assert(shift_set(a.finals, 1).contains(p.0));
                        assert(seq_set(final_states.val_indx@).contains(p.0));
                        let q = choose|q: int| 0 <= q < final_states.val_indx@.len() && #[trigger] final_states.val_indx@[q] == p.0;
                    }
                    if p.1 == 0 && (exists|q: int| 0 <= q < k && #[trigger] final_states.val_indx@[q] == p.0) {
                        let q = choose|q: int| 0 <= q < k && #[trigger] final_states.val_indx@[q] == p.0;
                        assert(seq_set(final_states.val_indx@).contains(p.0));
                    }
                }
            }
            epsilon_closure.lemma_entries_within();
        }
        epsilon_closure.close_epsilon();
        let mut zero: Vec<usize> = Vec::new();
        zero.push(0);
        let ghost zero_v = zero@;
        final_states.set_indices(zero);
        proof {
            lemma_closure_props(g, n as int);
            lemma_parts_inv(n, transition@, final_states, epsilon_closure);
        }
        let r = Automaton { states: n, transition, final_states, epsilon_closure };
        proof {
            assert(zero_v[0] == 0usize);
            assert(r.final_states.entries() =~= set![0int]);
            assert(trans_map(r.transition@) =~= nfa_star(a).trans);
            lemma_closure_props(g, n as int);
            assert(r@ == nfa_star(a));
        }
        proof {
            use_type_invariant(&r);
        }
        r
    }

    /// The words made of a word of `a` followed by a word of `b`.
    pub fn concat(a: Self, b: Self) -> (r: Self)
        requires
            fits(a@.states + b@.states as int),
        ensures
            r@ == nfa_concat(a@, b@),
            nfa_wf(r@),
    {
        proof {
            use_type_invariant(&a);
            use_type_invariant(&b);
        }
        let ghost av = a@;
        let ghost bv = b@;
        let a_states = a.states;
        let b_states = b.states;
        proof {
            lemma_fits_bound(a_states + b_states);
            lemma_fits_succ(a_states + b_states);
        }
        let n = a_states + b_states;
        let Automaton { states: _, transition: bt, final_states: bf, epsilon_closure: be } = b;
        let transition = merge_transitions(&a.transition, bt, a_states, b_states, 0, a_states, n);
        let mut eps = be;
        eps.shift_by(a_states);
        copy_shifted(&mut eps, &a.epsilon_closure, 0);
        link_to(&mut eps, &a.final_states.val_indx, a_states);
        let ghost g = eps.entries();
        proof {
            eps.lemma_entries_within();
        }
        eps.close_epsilon();
        let mut fv: Vec<usize> = Vec::new();
        push_shifted(&mut fv, &bf.val_indx, a_states);
        let final_states = match BoolVec::from_indices(fv, n) {
            Some(f) => f,
            None => {
                proof {
                    let k = choose|k: int| 0 <= k < fv@.len() && #[trigger] fv@[k] >= n;
                    assert(seq_set(fv@).contains(fv@[k] as int));
                    let q = choose|q: int| 0 <= q < bf.val_indx@.len() && #[trigger] bf.val_indx@[q] == fv@[k] - a_states;
                    assert(false);
                }
                BoolVec { len: n, val_indx: Vec::new() }
            },
        };
        proof {
            assert(g =~= av.eps.union(shift_pairs(bv.eps, a_states as int)).union(edges_to(av.finals, 0, a_states as int))) by {
                assert(shift_pairs(av.eps, 0) =~= av.eps);
            }
            lemma_closure_props(g, n as int);
            lemma_parts_inv(n, transition@, final_states, eps);
        }
        let r = Automaton { states: n, transition, final_states, epsilon_closure: eps };
        proof {
            assert forall|c: char| #[trigger] trans_map(r.transition@).dom().contains(c) implies trans_map(r.transition@)[c]
                == nfa_concat(av, bv).trans[c] by {
                assert(shift_pairs(rel_of(a.transition@, c as u32), 0) =~= rel_of(a.transition@, c as u32));
            }
            assert(trans_map(r.transition@) =~= nfa_concat(av, bv).trans);
            assert(seq_set(Seq::<usize>::empty()) =~= Set::<int>::empty());
            assert(r.final_states.entries() =~= nfa_concat(av, bv).finals);
            assert(r@ == nfa_concat(av, bv));
        }
        proof {
            use_type_invariant(&r);
        }
        r
    }

    /// The words of `a` together with those of `b`.
    pub fn union(a: Self, b: Self) -> (r: Self)
        requires
            fits(a@.states + b@.states + 1int),
        ensures
            r@ == nfa_union(a@, b@),
            nfa_wf(r@),
    {
        proof {
            use_type_invariant(&a);
            use_type_invariant(&b);
        }
        let ghost av = a@;
        let ghost bv = b@;
        let a_states = a.states;
        let b_states = b.states;
        proof {
            lemma_fits_bound(a_states + b_states + 1);
            lemma_fits_succ(a_states + b_states + 1);
        }
        let n = a_states + b_states + 1;
        let Automaton { states: _, transition: bt, final_states: bf, epsilon_closure: be } = b;
        let transition = merge_transitions(&a.transition, bt, a_states, b_states, 1, a_states + 1, n);
        let mut eps = be;
        eps.shift_by(a_states + 1);
        copy_shifted(&mut eps, &a.epsilon_closure, 1);
        proof {
            eps.lemma_len_bound();
        }
        eps.insert(0, 1);
        proof {
            eps.lemma_len_bound();
        }
        eps.insert(0, a_states + 1);
        let ghost g = eps.entries();
        proof {
            eps.lemma_entries_within();
        }
        eps.close_epsilon();
        let mut fv: Vec<usize> = Vec::new();
        push_shifted(&mut fv, &a.final_states.val_indx, 1);
        push_shifted(&mut fv, &bf.val_indx, a_states + 1);
        let final_states = match BoolVec::from_indices(fv, n) {
            Some(f) => f,
            None => {
                proof {
                    let k = choose|k: int| 0 <= k < fv@.len() && #[trigger] fv@[k] >= n;
                    assert(seq_set(fv@).contains(fv@[k] as int));
                    if shift_set(seq_set(a.final_states.val_indx@), 1).contains(fv@[k] as int) {
                        let q = choose|q: int| 0 <= q < a.final_states.val_indx@.len() && #[trigger] a.final_states.val_indx@[q] == fv@[k] - 1;
                    } else {
                        let q = choose|q: int| 0 <= q < bf.val_indx@.len() && #[trigger] bf.val_indx@[q] == fv@[k] - a_states - 1;
                    }
                    assert(false);
                }
                BoolVec { len: n, val_indx: Vec::new() }
            },
        };
        proof {
            assert(seq_set(Seq::<usize>::empty()) =~= Set::<int>::empty());
            assert(g =~= shift_pairs(av.eps, 1).union(shift_pairs(bv.eps, a_states + 1)).insert((0, 1)).insert((0, a_states + 1)));
            lemma_closure_props(g, n as int);
            lemma_parts_inv(n, transition@, final_states, eps);
        }
        let r = Automaton { states: n, transition, final_states, epsilon_closure: eps };
        proof {
            assert(trans_map(r.transition@) =~= nfa_union(av, bv).trans);
            assert(r.final_states.entries() =~= nfa_union(av, bv).finals);
            assert(r@ == nfa_union(av, bv));
        }
        proof {
            use_type_invariant(&r);
        }
        r
    }

    /// The automaton for a parsed regular expression.
    pub fn from_regex_node(node: RegexNode) -> (r: Self)
        requires
            fits(node_states(node) as int),
        ensures
            r@ == thompson(node),
            nfa_wf(r@),
            r@.states == node_states(node),
        decreases node,
    {
        match node {
            RegexNode::Concat(a, b) => {
                proof {
                    lemma_fits_mono(node_states(node) as int, node_states(*a) as int);
                    lemma_fits_mono(node_states(node) as int, node_states(*b) as int);
                }
                Self::concat(Self::from_regex_node(*a), Self::from_regex_node(*b))
            },
            RegexNode::Union(a, b) => {
                proof {
                    lemma_fits_mono(node_states(node) as int, node_states(*a) as int);
                    lemma_fits_mono(node_states(node) as int, node_states(*b) as int);
                }
                Self::union(Self::from_regex_node(*a), Self::from_regex_node(*b))
            },
            RegexNode::KleeneStar(a) => {
                proof {
                    lemma_fits_mono(node_states(node) as int, node_states(*a) as int);
                }
                Self::kleene_star(Self::from_regex_node(*a))
            },
            RegexNode::Literal(c) => Self::literal(c),
            RegexNode::Empty => Self::empty(),
        }
    }

    /// The automaton for the regular expression written `value`, or `None`
    /// when it is not valid. The bound on the length keeps the matrices of
    /// the automaton (at most `2 * len + 1` states a side) addressable.
    pub fn from_str(value: &str) -> (r: Option<Self>)
        requires
            fits(2 * value@.len() + 1int),
        ensures
            r is Some <==> parse_spec(value@) is Some,
            r matches Some(a) ==> a@ == thompson(parse_spec(value@).unwrap()),
            r matches Some(a) ==> nfa_wf(a@),
    {
        let node = RegexNode::parse(value)?;
        proof {
            lemma_parse_states(value@);
            lemma_fits_mono(2 * value@.len() + 1int, node_states(node) as int);
        }
        Some(Self::from_regex_node(node))
    }
}

/// A run of an automaton over some input: the set of its active states.
pub struct Match<'a> {
    automaton: &'a Automaton,
    active: BoolVec,
}

impl<'a> Match<'a> {
    #[verifier::type_invariant]
    spec fn inv(self) -> bool {
        &&& self.active.wf()
        &&& self.active.len == self.automaton.states
    }

    /// The automaton being run.
    pub closed spec fn nfa(&self) -> Nfa {
        self.automaton@
    }

    /// The active states.
    pub closed spec fn active(&self) -> Set<int> {
        self.active.entries()
    }

    /// A run that has read nothing: the start state and every state it
    /// reaches by epsilon moves are active.
    pub fn new(automaton: &'a Automaton) -> (r: Self)
        ensures
            r.nfa() == automaton@,
            r.active() == eclose(automaton@, set![0int]),
    {
        proof {
            use_type_invariant(automaton);
        }
        let ghost zero = seq![0usize];
        let start = match BoolVec::from_indices(vec![0], automaton.states) {
            Some(v) => v,
            None => {
                assert(false);
                BoolVec { len: automaton.states, val_indx: Vec::new() }
            },
        };
        assert(start.entries() =~= set![0int]) by {
            assert(seq_set(seq![0usize]) =~= set![0int]) by {
                assert(seq![0usize][0] == 0usize);
            }
        }
        let active = match start.mul(&automaton.epsilon_closure) {
            Some(v) => v,
            None => {
                assert(false);
                BoolVec { len: automaton.states, val_indx: Vec::new() }
            },
        };
        Match { automaton, active }
    }

    /// Reads `c`: the active states become those reached from them by epsilon
    /// moves, one transition on `c` and epsilon moves again. `None` when the
    /// automaton has no transition on `c`; the epsilon moves before it have
    /// then been taken.
    pub fn step(&mut self, c: char) -> (r: Option<()>)
        ensures
            final(self).nfa() == old(self).nfa(),
            r is Some <==> old(self).nfa().trans.dom().contains(c),
            r is Some ==> final(self).active() == step_set(old(self).nfa(), old(self).active(), c),
            r is None ==> final(self).active() == eclose(old(self).nfa(), old(self).active()),
    {
        proof {
            use_type_invariant(&*self);
            use_type_invariant(self.automaton);
        }
        let ghost a = self.automaton@;
        self.active = self.active.mul(&self.automaton.epsilon_closure)?;
        let m = self.automaton.transition.get(&(c as u32))?;
        self.active = self.active.mul(m)?;
        self.active = self.active.mul(&self.automaton.epsilon_closure)?;
        Some(())
    }

    /// Some active state is accepting.
    pub fn is_accepting(&self) -> (r: bool)
        ensures
            r == accepting(self.nfa(), self.active()),
    {
        proof {
            use_type_invariant(self);
            use_type_invariant(self.automaton);
        }
        let act = &self.active.val_indx;
        let fin = &self.automaton.final_states.val_indx;
        let mut state_indx: usize = 0;
        let mut accept_indx: usize = 0;
        while state_indx < act.len() && accept_indx < fin.len()
            invariant
                self.active.wf(),
                self.automaton.final_states.wf(),
                act == &self.active.val_indx,
                fin == &self.automaton.final_states.val_indx,
                state_indx <= act@.len(),
                accept_indx <= fin@.len(),
                forall|p: int, q: int|
                    0 <= p < act@.len() && 0 <= q < fin@.len() && (p < state_indx || q < accept_indx)
                        ==> #[trigger] act@[p] != #[trigger] fin@[q],
            decreases act@.len() - state_indx + fin@.len() - accept_indx,
        {
            let state = act[state_indx];
            let accept = fin[accept_indx];
            if state == accept {
                proof {
                    assert(self.active().contains(state as int));
                    assert(self.nfa().finals.contains(state as int));
                }
                return true;
            } else if state > accept {
                proof {
                    assert forall|p: int| 0 <= p < act@.len() implies #[trigger] act@[p] != fin@[accept_indx as int] by {
                        if p > state_indx {
                            assert(act@[state_indx as int] < act@[p]);
                        }
                    }
                }
                accept_indx = accept_indx + 1;
            } else {
                proof {
                    assert forall|q: int| 0 <= q < fin@.len() implies act@[state_indx as int] != #[trigger] fin@[q] by {
                        if q > accept_indx {
                            assert(fin@[accept_indx as int] < fin@[q]);
                        }
                    }
                }
                state_indx = state_indx + 1;
            }
        }
        proof {
            if accepting(self.nfa(), self.active()) {
                let i = choose|i: int| #[trigger] self.active().contains(i) && self.nfa().finals.contains(i);
                let p = choose|p: int| 0 <= p < act@.len() && #[trigger] act@[p] == i;
                let q = choose|q: int| 0 <= q < fin@.len() && #[trigger] fin@[q] == i;
                assert(act@[p] == fin@[q]);
            }
        }
        false
    }

    /// Adds the start state to the active states.
    fn restart(&mut self)
        ensures
            final(self).nfa() == old(self).nfa(),
            final(self).active() == old(self).active().insert(0),
    {
        proof {
            use_type_invariant(&*self);
            use_type_invariant(self.automaton);
        }
        let act = self.active.with_zero();
        self.active = act;
    }

    /// Searches `input` for a part that the automaton accepts, starting
    /// afresh before every character while also carrying on from the active
    /// states. True when some part of the input, possibly empty, is
    /// accepted, when some non-empty prefix of the input leads from the
    /// active states to an accepting state, or when the input is empty and
    /// the active states accept; for a run that has read nothing yet this is
    /// exactly: some part of `input`, possibly empty, is accepted.
    pub fn recognizes(&mut self, input: &str) -> (r: bool)
        ensures
            final(self).nfa() == old(self).nfa(),
            r == search_hit(old(self).nfa(), old(self).active(), input@),
            final(self).active() == search_rest(old(self).nfa(), old(self).active(), input@),
    {
        proof {
            use_type_invariant(&*self);
            use_type_invariant(self.automaton);
        }
        let ghost a = self.nfa();
        let ghost s = self.active();
        let w = chars_of(input);
        let fresh = Match::new(self.automaton);
        if fresh.is_accepting() {
            proof {
                assert(Seq::<char>::empty() =~= w@.subrange(0, 0));
                assert(run(a, set![0int], Seq::<char>::empty()) == eclose(a, set![0int]));
                assert(accepts(a, w@.subrange(0, 0)));
            }
            return true;
        }
        assert(run(a, set![0int], Seq::<char>::empty()) == eclose(a, set![0int]));
        let mut k: usize = 0;
        while k < w.len()
            invariant
                self.nfa() == a,
                nfa_wf(a),
                s == old(self).active(),
                a == old(self).nfa(),
                w@ == input@,
                k <= w@.len(),
                k == 0 ==> self.active() == s,
                k > 0 ==> self.active() == found(a, s, w@, k as int),
                !accepts(a, Seq::<char>::empty()),
                forall|q: int| 1 <= q <= k ==> !#[trigger] accepting(a, found(a, s, w@, q)),
            decreases w@.len() - k,
        {
            let c = w[k];
            let ghost before = self.active();
            self.restart();
            let ghost restarted = self.active();
            proof {
                lemma_pre_found(a, s, w@, k as int);
                lemma_found_step(a, s, w@, k as int);
                assert(restarted =~= before.union(set![0int]));
                assert(eclose(a, restarted) == pre_found(a, s, w@, k as int));
            }
            if self.step(c).is_none() {
                proof {
                    use_type_invariant(&*self);
                }
                let empty = match BoolVec::from_indices(Vec::new(), self.automaton.states) {
                    Some(v) => v,
                    None => {
                        assert(false);
                        BoolVec { len: self.automaton.states, val_indx: Vec::new() }
                    },
                };
                self.active = empty;
                proof {
                    assert(trans_of(a, c) == Set::<(int, int)>::empty());
                    assert(found(a, s, w@, k + 1) =~= Set::<int>::empty());
                    assert(seq_set(Seq::<usize>::empty()) =~= Set::<int>::empty());
                    assert(self.active() =~= Set::<int>::empty());
                }
                k = k + 1;
                continue;
            }
            assert(self.active() == found(a, s, w@, k + 1));
            if self.is_accepting() {
                proof {
                    lemma_found_hit(a, s, w@, k + 1);
                    assert(first_hit(a, s, w@, k + 1));
                    lemma_first_hit_stop(a, s, w@, k + 1);
                }
                return true;
            }
            k = k + 1;
        }
        let r = self.is_accepting();
        proof {
            if !r {
                lemma_no_hit(a, s, w@);
            } else if w@.len() > 0 {
                lemma_found_hit(a, s, w@, w@.len() as int);
            }
            if r && w@.len() > 0 {
                assert(first_hit(a, s, w@, w@.len() as int));
                lemma_first_hit_stop(a, s, w@, w@.len() as int);
            } else {
                assert(!exists|j: int| #[trigger] first_hit(a, s, w@, j));
            }
        }
        r
    }
}

/// An accepting state found after `k` characters makes the search succeed.
proof fn lemma_found_hit(a: Nfa, s: Set<int>, w: Seq<char>, k: int)
    requires
        1 <= k <= w.len(),
        accepting(a, found(a, s, w, k)),
    ensures
        search_hit(a, s, w),
{
    let f = found(a, s, w, k);
    let j = choose|j: int| #[trigger] f.contains(j) && a.finals.contains(j);
    if run(a, s, w.take(k)).contains(j) {
        assert(accepting(a, run(a, s, w.take(k))));
    } else {
        let i = choose|i: int| 0 <= i < k && #[trigger] run(a, set![0int], w.subrange(i, k)).contains(j);
        assert(accepting(a, run(a, set![0int], w.subrange(i, k))));
        assert(accepts(a, w.subrange(i, k)));
    }
}

/// When nothing accepting was found at any point, the search fails.
proof fn lemma_no_hit(a: Nfa, s: Set<int>, w: Seq<char>)
    requires
        !accepts(a, Seq::<char>::empty()),
        w.len() == 0 ==> !accepting(a, s),
        forall|q: int| 1 <= q <= w.len() ==> !#[trigger] accepting(a, found(a, s, w, q)),
    ensures
        !search_hit(a, s, w),
{
    assert forall|k: int| 1 <= k <= w.len() implies !#[trigger] accepting(a, run(a, s, w.take(k))) by {
        if accepting(a, run(a, s, w.take(k))) {
            let j = choose|j: int| #[trigger] run(a, s, w.take(k)).contains(j) && a.finals.contains(j);
            assert(found(a, s, w, k).contains(j));
            assert(accepting(a, found(a, s, w, k)));
        }
    }
    assert forall|i: int, k: int| 0 <= i <= k <= w.len() implies !#[trigger] accepts(a, w.subrange(i, k)) by {
        if i == k {
            assert(w.subrange(i, k) =~= Seq::<char>::empty());
        } else if accepts(a, w.subrange(i, k)) {
            let j = choose|j: int| #[trigger] run(a, set![0int], w.subrange(i, k)).contains(j) && a.finals.contains(j);
            assert(found(a, s, w, k).contains(j));
            assert(accepting(a, found(a, s, w, k)));
        }
    }
}

} // verus!
