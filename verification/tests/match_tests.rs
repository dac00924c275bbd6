use lin_reg::automaton::{Automaton, Match};
use lin_reg::parse::RegexNode;

fn recognizes(automaton: &Automaton, input: &str) -> bool {
    let mut m = Match::new(automaton);
    for c in input.chars() {
        if m.step(c).is_none() {
            return false;
        }
    }
    m.is_accepting()
}

// ── Literal ──

#[test]
fn literal_accepts_single_char() {
    let nfa = Automaton::literal('a');
    assert!(recognizes(&nfa, "a"));
}

#[test]
fn literal_rejects_wrong_char() {
    let nfa = Automaton::literal('a');
    assert!(!recognizes(&nfa, "b"));
}

#[test]
fn literal_rejects_empty() {
    let nfa = Automaton::literal('a');
    assert!(!recognizes(&nfa, ""));
}

#[test]
fn literal_rejects_too_long() {
    let nfa = Automaton::literal('a');
    assert!(!recognizes(&nfa, "aa"));
}

// ── Empty ──

#[test]
fn empty_accepts_empty_string() {
    let nfa = Automaton::empty();
    assert!(recognizes(&nfa, ""));
}

// ── Concat ──

#[test]
fn concat_accepts_sequence() {
    let nfa = Automaton::concat(Automaton::literal('a'), Automaton::literal('b'));
    assert!(recognizes(&nfa, "ab"));
}

#[test]
fn concat_rejects_prefix() {
    let nfa = Automaton::concat(Automaton::literal('a'), Automaton::literal('b'));
    assert!(!recognizes(&nfa, "a"));
}

#[test]
fn concat_rejects_reversed() {
    let nfa = Automaton::concat(Automaton::literal('a'), Automaton::literal('b'));
    assert!(!recognizes(&nfa, "ba"));
}

#[test]
fn concat_rejects_empty() {
    let nfa = Automaton::concat(Automaton::literal('a'), Automaton::literal('b'));
    assert!(!recognizes(&nfa, ""));
}

// ── Union ──

#[test]
fn union_accepts_either_branch() {
    let nfa = Automaton::union(Automaton::literal('a'), Automaton::literal('b'));
    assert!(recognizes(&nfa, "a"));
    assert!(recognizes(&nfa, "b"));
}

#[test]
fn union_rejects_concat_of_branches() {
    let nfa = Automaton::union(Automaton::literal('a'), Automaton::literal('b'));
    assert!(!recognizes(&nfa, "ab"));
}

#[test]
fn union_rejects_empty() {
    let nfa = Automaton::union(Automaton::literal('a'), Automaton::literal('b'));
    assert!(!recognizes(&nfa, ""));
}

// ── Kleene star ──

#[test]
fn star_accepts_empty() {
    let nfa = Automaton::literal('a').kleene_star();
    assert!(recognizes(&nfa, ""));
}

#[test]
fn star_accepts_one() {
    let nfa = Automaton::literal('a').kleene_star();
    assert!(recognizes(&nfa, "a"));
}

#[test]
fn star_accepts_many() {
    let nfa = Automaton::literal('a').kleene_star();
    assert!(recognizes(&nfa, "aaaaaaa"));
}

#[test]
fn star_rejects_wrong_char() {
    let nfa = Automaton::literal('a').kleene_star();
    assert!(!recognizes(&nfa, "aab"));
}

// ── Complex: (a|b)*abb ──

#[test]
fn textbook_nfa_accepts_abb() {
    let nfa = Automaton::from_regex_node(RegexNode::parse("(a|b)*abb").unwrap());
    assert!(recognizes(&nfa, "abb"));
}

#[test]
fn textbook_nfa_accepts_aabb() {
    let nfa = Automaton::from_regex_node(RegexNode::parse("(a|b)*abb").unwrap());
    assert!(recognizes(&nfa, "aabb"));
}

#[test]
fn textbook_nfa_accepts_babb() {
    let nfa = Automaton::from_regex_node(RegexNode::parse("(a|b)*abb").unwrap());
    assert!(recognizes(&nfa, "babb"));
}

#[test]
fn textbook_nfa_rejects_ab() {
    let nfa = Automaton::from_regex_node(RegexNode::parse("(a|b)*abb").unwrap());
    assert!(!recognizes(&nfa, "ab"));
}

#[test]
fn textbook_nfa_rejects_empty() {
    let nfa = Automaton::from_regex_node(RegexNode::parse("(a|b)*abb").unwrap());
    assert!(!recognizes(&nfa, ""));
}

#[test]
fn textbook_nfa_rejects_abba() {
    let nfa = Automaton::from_regex_node(RegexNode::parse("(a|b)*abb").unwrap());
    assert!(!recognizes(&nfa, "abba"));
}

// ── Nested star: (a*b*)* ──

#[test]
fn nested_star_accepts_mixed() {
    let nfa = Automaton::from_regex_node(RegexNode::parse("(a*b*)*").unwrap());
    assert!(recognizes(&nfa, ""));
    assert!(recognizes(&nfa, "a"));
    assert!(recognizes(&nfa, "b"));
    assert!(recognizes(&nfa, "aaabbb"));
    assert!(recognizes(&nfa, "abab"));
    assert!(recognizes(&nfa, "bba"));
}

#[test]
fn nested_star_rejects_foreign_char() {
    let nfa = Automaton::from_regex_node(RegexNode::parse("(a*b*)*").unwrap());
    assert!(!recognizes(&nfa, "abc"));
}
