use lin_reg::automaton::{Automaton, Match};
use lin_reg::parse::RegexNode;

fn recognizes(re: &str, input: &str) -> bool {
    let node = RegexNode::parse(re).expect(&format!("Failed to parse regex: {re}"));
    let nfa = Automaton::from_regex_node(node);
    let mut m = Match::new(&nfa);
    for c in input.chars() {
        if m.step(c).is_none() {
            return false;
        }
    }
    m.is_accepting()
}

// ── Union of concats ──

#[test]
fn union_of_concats_accepts_both() {
    assert!(recognizes("ab|cd", "ab"));
    assert!(recognizes("ab|cd", "cd"));
}

#[test]
fn union_of_concats_rejects_cross() {
    assert!(!recognizes("ab|cd", "ac"));
    assert!(!recognizes("ab|cd", "bd"));
    assert!(!recognizes("ab|cd", "abcd"));
}

// ── Star of concat ──

#[test]
fn star_of_concat_accepts() {
    assert!(recognizes("(ab)*", ""));
    assert!(recognizes("(ab)*", "ab"));
    assert!(recognizes("(ab)*", "abababab"));
}

#[test]
fn star_of_concat_rejects_partial() {
    assert!(!recognizes("(ab)*", "a"));
    assert!(!recognizes("(ab)*", "aba"));
    assert!(!recognizes("(ab)*", "abba"));
}

// ── Deeply nested ──

#[test]
fn nested_star_union_concat() {
    assert!(recognizes("((a|b)*c)*", ""));
    assert!(recognizes("((a|b)*c)*", "c"));
    assert!(recognizes("((a|b)*c)*", "ac"));
    assert!(recognizes("((a|b)*c)*", "abcbc"));
    assert!(recognizes("((a|b)*c)*", "aabbcc"));
}

#[test]
fn nested_star_union_concat_rejects() {
    assert!(!recognizes("((a|b)*c)*", "a"));
    assert!(!recognizes("((a|b)*c)*", "abcb"));
    assert!(!recognizes("((a|b)*c)*", "abcca"));
}

// ── Empty in combinations ──

#[test]
fn empty_union_left() {
    // "(|a)b" means (ε|a) followed by b
    assert!(recognizes("(|a)b", "b"));
    assert!(recognizes("(|a)b", "ab"));
    assert!(!recognizes("(|a)b", ""));
    assert!(!recognizes("(|a)b", "aab"));
}

#[test]
fn empty_union_right() {
    assert!(recognizes("(a|)b", "b"));
    assert!(recognizes("(a|)b", "ab"));
    assert!(!recognizes("(a|)b", ""));
}

#[test]
fn empty_star() {
    // Star of empty should accept only empty string
    let node = RegexNode::KleeneStar(Box::new(RegexNode::Empty));
    let nfa = Automaton::from_regex_node(node);
    let m = Match::new(&nfa);
    assert!(m.is_accepting());
}

// ── Three-way union ──

#[test]
fn three_way_union() {
    assert!(recognizes("a|b|c", "a"));
    assert!(recognizes("a|b|c", "b"));
    assert!(recognizes("a|b|c", "c"));
    assert!(!recognizes("a|b|c", "d"));
    assert!(!recognizes("a|b|c", "ab"));
}

// ── Long concat chains ──

#[test]
fn four_char_concat() {
    assert!(recognizes("abcd", "abcd"));
    assert!(!recognizes("abcd", "abc"));
    assert!(!recognizes("abcd", "abcde"));
    assert!(!recognizes("abcd", "abdc"));
}

#[test]
fn six_char_concat() {
    assert!(recognizes("abcdef", "abcdef"));
    assert!(!recognizes("abcdef", "abcde"));
}

// ── Star interacting with concat ──

#[test]
fn star_then_literal() {
    assert!(recognizes("a*b", "b"));
    assert!(recognizes("a*b", "ab"));
    assert!(recognizes("a*b", "aaab"));
    assert!(!recognizes("a*b", ""));
    assert!(!recognizes("a*b", "a"));
    assert!(!recognizes("a*b", "ba"));
}

#[test]
fn literal_then_star() {
    assert!(recognizes("ab*", "a"));
    assert!(recognizes("ab*", "ab"));
    assert!(recognizes("ab*", "abbb"));
    assert!(!recognizes("ab*", ""));
    assert!(!recognizes("ab*", "b"));
}

#[test]
fn star_between_literals() {
    assert!(recognizes("ab*c", "ac"));
    assert!(recognizes("ab*c", "abc"));
    assert!(recognizes("ab*c", "abbbc"));
    assert!(!recognizes("ab*c", "abbb"));
    assert!(!recognizes("ab*c", "c"));
}

// ── Multiple stars ──

#[test]
fn two_consecutive_stars() {
    assert!(recognizes("a*b*", ""));
    assert!(recognizes("a*b*", "aaa"));
    assert!(recognizes("a*b*", "bbb"));
    assert!(recognizes("a*b*", "aaabbb"));
    assert!(!recognizes("a*b*", "ba"));
    assert!(!recognizes("a*b*", "aba"));
}

// ── Union with star branches ──

#[test]
fn union_of_stars() {
    assert!(recognizes("a*|b*", ""));
    assert!(recognizes("a*|b*", "aaa"));
    assert!(recognizes("a*|b*", "bbb"));
    // "ab" is NOT in a*|b* since union picks one branch
    assert!(!recognizes("a*|b*", "ab"));
}

// ── Larger alphabet ──

#[test]
fn digits_in_regex() {
    assert!(recognizes("(0|1)*", ""));
    assert!(recognizes("(0|1)*", "0110100"));
    assert!(!recognizes("(0|1)*", "012"));
}

#[test]
fn mixed_alpha_digit() {
    assert!(recognizes("a1b2", "a1b2"));
    assert!(!recognizes("a1b2", "a1b"));
    assert!(!recognizes("a1b2", "ab12"));
}

// ── Star of union of concats ──

#[test]
fn star_of_union_of_concats() {
    // (ab|cd)* — alternating pairs
    assert!(recognizes("(ab|cd)*", ""));
    assert!(recognizes("(ab|cd)*", "ab"));
    assert!(recognizes("(ab|cd)*", "cd"));
    assert!(recognizes("(ab|cd)*", "abcd"));
    assert!(recognizes("(ab|cd)*", "cdab"));
    assert!(recognizes("(ab|cd)*", "ababcdcd"));
    assert!(!recognizes("(ab|cd)*", "ac"));
    assert!(!recognizes("(ab|cd)*", "a"));
}

// ── Triple nesting ──

#[test]
fn triple_nested_star() {
    // (((a)*))* is just a*
    assert!(recognizes("(((a)*))*", ""));
    assert!(recognizes("(((a)*))*", "a"));
    assert!(recognizes("(((a)*))*", "aaaa"));
    assert!(!recognizes("(((a)*))*", "b"));
}

// ── Same automaton, multiple matches ──

#[test]
fn reuse_automaton() {
    let node = RegexNode::parse("(a|b)*abb").unwrap();
    let nfa = Automaton::from_regex_node(node);

    let inputs = vec![
        ("abb", true),
        ("aabb", true),
        ("babb", true),
        ("bbbabb", true),
        ("ab", false),
        ("", false),
        ("abba", false),
        ("abb abb", false),
    ];

    for (input, expected) in inputs {
        let mut m = Match::new(&nfa);
        let mut ok = true;
        for c in input.chars() {
            if m.step(c).is_none() {
                ok = false;
                break;
            }
        }
        let result = ok && m.is_accepting();
        assert_eq!(result, expected, "Failed on input: {input:?}");
    }
}
