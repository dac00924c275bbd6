use lin_reg::automaton::{Automaton, Match};
use lin_reg::bool_alg::{BoolMat, BoolVec};
use lin_reg::parse::RegexNode;

fn full_match(nfa: &Automaton, input: &str) -> bool {
    let mut m = Match::new(nfa);
    for c in input.chars() {
        if m.step(c).is_none() {
            return false;
        }
    }
    m.is_accepting()
}

fn search(re: &str, input: &str) -> bool {
    let nfa = Automaton::from_str(re).unwrap();
    let mut m = Match::new(&nfa);
    m.recognizes(input)
}

// ── Matrices ──

#[test]
fn from_coord_ignores_order_and_repeats() {
    let a = BoolMat::from_coord(vec![(2, 0), (0, 2), (0, 1), (2, 0), (1, 1)], (3, 3)).unwrap();
    let b = BoolMat::from_coord(vec![(0, 1), (1, 1), (0, 2), (2, 0)], (3, 3)).unwrap();
    assert_eq!(a.col_indx, b.col_indx);
    assert_eq!(a.row_ptr, b.row_ptr);
    assert_eq!(a.col_indx, vec![1, 2, 1, 0]);
    assert_eq!(a.row_ptr, vec![0, 2, 3, 4]);
}

#[test]
fn zeros_and_identity_layout() {
    let z = BoolMat::zeros(2, 5);
    assert_eq!(z.shape, (2, 5));
    assert_eq!(z.row_ptr, vec![0, 0, 0]);
    assert!(z.col_indx.is_empty());
    let id = BoolMat::identity(3);
    assert_eq!(id.shape, (3, 3));
    assert_eq!(id.col_indx, vec![0, 1, 2]);
    assert_eq!(id.row_ptr, vec![0, 1, 2, 3]);
}

#[test]
fn insert_keeps_rows_sorted() {
    let mut m = BoolMat::zeros(3, 3);
    m.insert(1, 2);
    m.insert(1, 0);
    m.insert(0, 1);
    m.insert(1, 2);
    assert_eq!(m.col_indx, vec![1, 0, 2]);
    assert_eq!(m.row_ptr, vec![0, 1, 3, 3]);
    let same = BoolMat::from_coord(vec![(0, 1), (1, 0), (1, 2)], (3, 3)).unwrap();
    assert_eq!(m, same);
}

#[test]
fn shifts_move_every_entry() {
    let mut m = BoolMat::from_coord(vec![(0, 1), (1, 0)], (2, 2)).unwrap();
    m.kleene_shift();
    assert_eq!(m.shape, (3, 3));
    assert_eq!(m.col_indx, vec![2, 1]);
    assert_eq!(m.row_ptr, vec![0, 0, 1, 2]);
    m.shift_by(2);
    assert_eq!(m.shape, (5, 5));
    assert_eq!(m.col_indx, vec![4, 3]);
    assert_eq!(m.row_ptr, vec![0, 0, 0, 0, 1, 2]);
}

#[test]
fn close_epsilon_adds_diagonal_and_paths() {
    let mut m = BoolMat::from_coord(vec![(0, 1), (1, 2)], (4, 4)).unwrap();
    m.close_epsilon();
    let expected =
        BoolMat::from_coord(vec![(0, 0), (1, 1), (2, 2), (3, 3), (0, 1), (1, 2), (0, 2)], (4, 4)).unwrap();
    assert_eq!(m, expected);
}

#[test]
fn close_epsilon_follows_cycles() {
    let mut m = BoolMat::from_coord(vec![(0, 1), (1, 2), (2, 0)], (3, 3)).unwrap();
    m.close_epsilon();
    assert_eq!(m.col_indx, vec![0, 1, 2, 0, 1, 2, 0, 1, 2]);
    assert_eq!(m.row_ptr, vec![0, 3, 6, 9]);
}

// ── Vectors ──

#[test]
fn vector_shift_and_reset() {
    let mut v = BoolVec::from_indices(vec![2, 0], 3).unwrap();
    v.kleene_shift();
    assert_eq!(v.len, 4);
    assert_eq!(v.val_indx, vec![1, 3]);
    v.set_indices(vec![3, 0, 3]);
    assert_eq!(v.len, 4);
    assert_eq!(v.val_indx, vec![0, 3]);
}

#[test]
fn vector_times_identity_is_itself() {
    let v = BoolVec::from_indices(vec![4, 1], 5).unwrap();
    let r = (&v * &BoolMat::identity(5)).unwrap();
    assert_eq!(r.len, 5);
    assert_eq!(r.val_indx, vec![1, 4]);
}

#[test]
fn vector_times_zeros_is_empty() {
    let v = BoolVec::from_indices(vec![0, 1], 2).unwrap();
    let r = v.mul(&BoolMat::zeros(2, 3)).unwrap();
    assert_eq!(r.len, 3);
    assert!(r.val_indx.is_empty());
}

// ── Parser ──

#[test]
fn parse_builds_right_nested_concat() {
    let n = RegexNode::parse("abc").unwrap();
    let lit = |c| Box::new(RegexNode::Literal(c));
    let expected = RegexNode::Concat(
        lit('a'),
        Box::new(RegexNode::Concat(lit('b'), lit('c'))),
    );
    assert_eq!(n, expected);
}

#[test]
fn parse_union_star_and_groups() {
    let n = RegexNode::parse("a|(b)*").unwrap();
    let expected = RegexNode::Union(
        Box::new(RegexNode::Literal('a')),
        Box::new(RegexNode::KleeneStar(Box::new(RegexNode::Literal('b')))),
    );
    assert_eq!(n, expected);
    assert_eq!(RegexNode::parse("").unwrap(), RegexNode::Empty);
    assert_eq!(RegexNode::parse("()").unwrap(), RegexNode::Empty);
    assert_eq!(
        RegexNode::parse("a|").unwrap(),
        RegexNode::Union(Box::new(RegexNode::Literal('a')), Box::new(RegexNode::Empty)),
    );
}

#[test]
fn parse_rejects_invalid_expressions() {
    assert!(RegexNode::parse("*a").is_none());
    assert!(RegexNode::parse("(ab").is_none());
    assert!(RegexNode::parse("a#").is_none());
    assert!(RegexNode::parse("a)").is_none());
    assert!(RegexNode::parse("a|*").is_none());
    assert!(RegexNode::parse("((a)").is_none());
    assert!(Automaton::from_str("a b").is_none());
}

#[test]
fn parse_accepts_unicode_letters_and_digits() {
    assert_eq!(RegexNode::parse("é").unwrap(), RegexNode::Literal('é'));
    assert_eq!(RegexNode::parse("7").unwrap(), RegexNode::Literal('7'));
    assert!(RegexNode::parse("-").is_none());
}

// ── Matching a whole word ──

#[test]
fn step_fails_on_unknown_character() {
    let nfa = Automaton::from_str("ab").unwrap();
    let mut m = Match::new(&nfa);
    assert!(m.step('a').is_some());
    assert!(m.step('x').is_none());
}

#[test]
fn full_match_follows_the_language() {
    let nfa = Automaton::from_str("(ab|c)*d").unwrap();
    assert!(full_match(&nfa, "d"));
    assert!(full_match(&nfa, "abcd"));
    assert!(full_match(&nfa, "ccabd"));
    assert!(!full_match(&nfa, "abc"));
    assert!(!full_match(&nfa, "ad"));
    assert!(!full_match(&nfa, "dd"));
}

#[test]
fn fresh_match_accepts_empty_word_only_for_nullable() {
    let star = Automaton::from_str("(ab)*").unwrap();
    assert!(Match::new(&star).is_accepting());
    let lit = Automaton::from_str("ab").unwrap();
    assert!(!Match::new(&lit).is_accepting());
}

// ── Searching a line ──

#[test]
fn search_finds_match_inside_line() {
    assert!(search("abc", "xxabcxx"));
    assert!(search("abc", "abc"));
    assert!(!search("abc", "ab c"));
    assert!(!search("abc", "ab"));
    assert!(search("ab|cd", "xcdx"));
}

#[test]
fn search_accepts_empty_match_anywhere() {
    assert!(search("a*", "xyz"));
    assert!(search("a*", ""));
    assert!(search("(a|b)*", "CHAPTER I."));
}

#[test]
fn search_rejects_when_no_part_matches() {
    assert!(!search("b", ""));
    assert!(!search("ab*c", "abbb"));
    assert!(!search("ba", "aabb"));
}

#[test]
fn search_restarts_after_unknown_character() {
    assert!(search("ab", "a-ab"));
    assert!(!search("ab", "a-b"));
}

#[test]
fn close_epsilon_twice_is_once() {
    let mut m = BoolMat::from_coord(vec![(0, 2), (2, 1), (3, 3)], (4, 4)).unwrap();
    m.close_epsilon();
    let once = BoolMat::from_coord(
        vec![(0, 0), (1, 1), (2, 2), (3, 3), (0, 2), (2, 1), (0, 1)],
        (4, 4),
    )
    .unwrap();
    assert_eq!(m, once);
    m.close_epsilon();
    assert_eq!(m, once);
}

#[test]
fn automaton_pieces_match_their_languages() {
    let lit = Automaton::literal('x');
    assert!(full_match(&lit, "x"));
    assert!(!full_match(&lit, "xx"));
    let empty = Automaton::empty();
    assert!(full_match(&empty, ""));
    assert!(!full_match(&empty, "x"));
    let u = Automaton::union(Automaton::literal('x'), Automaton::empty());
    assert!(full_match(&u, ""));
    assert!(full_match(&u, "x"));
    let c = Automaton::concat(Automaton::literal('x').kleene_star(), Automaton::literal('y'));
    assert!(full_match(&c, "xxy"));
    assert!(!full_match(&c, "yx"));
}

// ── Searching from a state already reached ──

#[test]
fn search_after_steps_reads_the_input() {
    let nfa = Automaton::literal('a');
    let mut m = Match::new(&nfa);
    assert_eq!(m.step('a'), Some(()));
    assert!(m.is_accepting());
    assert!(!m.recognizes("b"));
}

#[test]
fn search_of_nothing_reports_the_current_states() {
    let nfa = Automaton::literal('a');
    let mut m = Match::new(&nfa);
    assert!(!m.recognizes(""));
    let mut m = Match::new(&nfa);
    assert_eq!(m.step('a'), Some(()));
    assert!(m.recognizes(""));
}

#[test]
fn search_after_steps_counts_the_empty_match() {
    let nfa = Automaton::from_str("(a|b)*").unwrap();
    let mut m = Match::new(&nfa);
    assert_eq!(m.step('a'), Some(()));
    assert!(m.recognizes("xyz"));
}

// ── Sizes ──

#[test]
fn automaton_state_counts() {
    assert_eq!(Automaton::literal('a').states(), 2);
    assert_eq!(Automaton::empty().states(), 1);
    assert_eq!(Automaton::from_str("a|b").unwrap().states(), 5);
    assert_eq!(Automaton::from_str("ab*").unwrap().states(), 5);
    assert_eq!(Automaton::from_str("(ab)*").unwrap().states(), 5);
}

#[test]
fn node_state_counts_agree_with_automata() {
    for re in ["a", "ab", "a|b", "a*", "(a|bc)*d", "()"] {
        let node = RegexNode::parse(re).unwrap();
        let n = node.state_count().unwrap();
        assert_eq!(Automaton::from_regex_node(node).states(), n);
    }
}

#[test]
fn size_bounds() {
    assert!(Automaton::fits_states(0));
    assert!(Automaton::fits_states(1000));
    assert!(!Automaton::fits_states(usize::MAX));
    assert!(Automaton::fits_regex_len(0));
    assert!(Automaton::fits_regex_len(1000));
    assert!(!Automaton::fits_regex_len(usize::MAX));
    assert!(!Automaton::fits_regex_len(usize::MAX / 2));
}

// ── Copies ──

#[test]
fn copies_are_equal() {
    let m = BoolMat::from_coord(vec![(0, 1), (2, 2)], (3, 3)).unwrap();
    assert_eq!(m.clone(), m);
    let v = BoolVec::from_indices(vec![2, 0], 4).unwrap();
    let w = v.clone();
    assert_eq!(w.len, v.len);
    assert_eq!(w.val_indx, v.val_indx);
    let node = RegexNode::parse("(a|b)*c").unwrap();
    assert_eq!(node.clone(), node);
    let nfa = Automaton::from_str("(a|b)*c").unwrap();
    let copy = nfa.clone();
    assert_eq!(copy.states(), nfa.states());
    for input in ["c", "abc", "ab", ""] {
        assert_eq!(full_match(&copy, input), full_match(&nfa, input));
    }
    assert!(full_match(&copy, "abac"));
}

#[test]
fn close_epsilon_on_a_wide_matrix() {
    let mut m = BoolMat::from_coord(vec![(0, 1)], (2, usize::MAX)).unwrap();
    m.close_epsilon();
    assert_eq!(m.shape, (2, usize::MAX));
    assert_eq!(m.col_indx, vec![0, 1, 1]);
    assert_eq!(m.row_ptr, vec![0, 2, 3]);
}

#[test]
fn search_leaves_the_states_where_it_stopped() {
    let nfa = Automaton::literal('a');
    let mut m = Match::new(&nfa);
    assert!(m.recognizes("ab"));
    // stopped right after the `a`, in the accepting state
    assert!(m.is_accepting());
    assert!(m.recognizes(""));

    let mut m = Match::new(&nfa);
    assert!(!m.recognizes("bb"));
    assert!(!m.is_accepting());
    assert!(!m.recognizes(""));

    let mut m = Match::new(&nfa);
    assert!(m.recognizes("ba"));
    assert!(m.is_accepting());
}
