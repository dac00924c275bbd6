use vstd::prelude::*;
use crate::text::chars_of;

verus! {

/// Abstract syntax of a regular expression.
#[derive(Debug, PartialEq, Eq)]
pub enum RegexNode {
    Literal(char),
    Concat(Box<RegexNode>, Box<RegexNode>),
    Union(Box<RegexNode>, Box<RegexNode>),
    KleeneStar(Box<RegexNode>),
    Empty,
}

/// Whether `c` has the Unicode `Alphabetic` property, as `char::is_alphabetic`
/// reports it.
pub uninterp spec fn alphabetic(c: char) -> bool;

/// `c` is one of `A-Z` or `a-z`.
pub open spec fn ascii_letter(c: char) -> bool {
    65 <= (c as u32) <= 90 || 97 <= (c as u32) <= 122
}

/// Calls `char::is_alphabetic`. Its contract claims that the result is the
/// named property of `c`, a function of `c` alone, and that among the ASCII
/// characters exactly the letters `A-Z` and `a-z` have it; which other
/// characters have it (the Unicode tables) is left unsaid.
#[verifier::external_body]
fn is_alphabetic(c: char) -> (r: bool)
    ensures
        r == alphabetic(c),
        (c as u32) < 128 ==> (r == ascii_letter(c)),
{
    c.is_alphabetic()
}

/// `c` is one of `0-9`.
pub open spec fn ascii_digit(c: char) -> bool {
    48 <= (c as u32) <= 57
}

/// The node for the literal character `c` (kept opaque so that proofs over
/// the parser unfold it only where they need to).
#[verifier::opaque]
pub open spec fn literal_node(c: char) -> RegexNode {
    RegexNode::Literal(c)
}

/// `c` is alphabetic: among the ASCII characters the letters, beyond them
/// the characters with the Unicode `Alphabetic` property.
pub open spec fn letter(c: char) -> bool {
    if (c as u32) < 128 {
        ascii_letter(c)
    } else {
        alphabetic(c)
    }
}

/// `c` stands for itself in a regular expression.
pub open spec fn is_literal_char(c: char) -> bool {
    letter(c) || ascii_digit(c)
}

fn is_ascii_digit(c: char) -> (r: bool)
    ensures
        r == ascii_digit(c),
{
    let x = c as u32;
    48 <= x && x <= 57
}

/// The nodes joined into one right-nested concatenation, or `Empty` when
/// there are none.
pub open spec fn concat_spec(nodes: Seq<RegexNode>) -> RegexNode
    decreases nodes.len(),
{
    if nodes.len() == 0 {
        RegexNode::Empty
    } else if nodes.len() == 1 {
        nodes[0]
    } else {
        RegexNode::Concat(Box::new(nodes[0]), Box::new(concat_spec(nodes.drop_first())))
    }
}

/// The position of the `)` that closes a group whose contents start at `i`,
/// with `depth` groups already open inside it.
pub open spec fn close_index(s: Seq<char>, depth: nat, i: int) -> Option<int>
    decreases s.len() - i,
{
    if i < 0 || i >= s.len() {
        None
    } else if s[i] == ')' {
        if depth == 0 {
            Some(i)
        } else {
            close_index(s, (depth - 1) as nat, i + 1)
        }
    } else if s[i] == '(' {
        close_index(s, depth + 1, i + 1)
    } else {
        close_index(s, depth, i + 1)
    }
}

/// A closing position lies after the start of the group and inside `s`.
pub proof fn lemma_close_index_bound(s: Seq<char>, depth: nat, i: int)
    ensures
        close_index(s, depth, i) matches Some(j) ==> 0 <= i <= j < s.len(),
    decreases s.len() - i,
{
    if 0 <= i < s.len() {
        if s[i] == ')' {
            if depth > 0 {
                lemma_close_index_bound(s, (depth - 1) as nat, i + 1);
            }
        } else if s[i] == '(' {
            lemma_close_index_bound(s, depth + 1, i + 1);
        } else {
            lemma_close_index_bound(s, depth, i + 1);
        }
    }
}

/// The result of parsing `s` from position `i` on, with `nodes` the pieces
/// of the current concatenation read so far.
///
/// Letters and digits stand for themselves; `|` splits the expression into
/// what precedes it and the expression that follows it; `*` repeats the
/// piece just before it (there must be one); `(` opens a group that the
/// matching `)` closes. Any other character makes the expression invalid.
pub open spec fn parse_from(s: Seq<char>, i: int, nodes: Seq<RegexNode>) -> Option<RegexNode>
    decreases s.len() - i,
{
    if i < 0 || i >= s.len() {
        Some(concat_spec(nodes))
    } else {
        let c = s[i];
        if is_literal_char(c) {
            parse_from(s, i + 1, nodes.push(literal_node(c)))
        } else if c == '|' {
            match parse_from(s.skip(i + 1), 0, seq![]) {
                Some(next) => Some(RegexNode::Union(Box::new(concat_spec(nodes)), Box::new(next))),
                None => None,
            }
        } else if c == '*' {
            if nodes.len() == 0 {
                None
            } else {
                parse_from(s, i + 1, nodes.drop_last().push(RegexNode::KleeneStar(Box::new(nodes.last()))))
            }
        } else if c == '(' {
            match close_index(s, 0, i + 1) {
                Some(j) if i < j < s.len() => match parse_from(s.subrange(i + 1, j), 0, seq![]) {
                    None => None,
                    Some(group) => parse_from(s, j + 1, nodes.push(group)),
                },
                _ => None,
            }
        } else {
            None
        }
    }
}

/// The regular expression written `s`, or `None` when `s` is not valid.
pub open spec fn parse_spec(s: Seq<char>) -> Option<RegexNode> {
    parse_from(s, 0, seq![])
}

/// The words that `node` denotes contain `w`.
pub open spec fn in_language(node: RegexNode, w: Seq<char>) -> bool
    decreases node, w.len(),
{
    match node {
        RegexNode::Literal(c) => w == seq![c],
        RegexNode::Empty => w.len() == 0,
        RegexNode::Concat(a, b) => exists|i: int|
            #![trigger w.take(i)]
            0 <= i <= w.len() && in_language(*a, w.take(i)) && in_language(*b, w.skip(i)),
        RegexNode::Union(a, b) => in_language(*a, w) || in_language(*b, w),
        RegexNode::KleeneStar(a) => w.len() == 0 || exists|i: int|
            #![trigger w.take(i)]
            0 <= i < w.len() && in_language(node, w.take(i)) && in_language(*a, w.skip(i)),
    }
}

/// The number of states of the automaton built for `node`.
pub open spec fn node_states(node: RegexNode) -> nat
    decreases node,
{
    match node {
        RegexNode::Literal(_) => 2,
        RegexNode::Empty => 1,
        RegexNode::Concat(a, b) => node_states(*a) + node_states(*b),
        RegexNode::Union(a, b) => node_states(*a) + node_states(*b) + 1,
        RegexNode::KleeneStar(a) => node_states(*a) + 1,
    }
}

/// The states of all the nodes together.
pub open spec fn sum_states(nodes: Seq<RegexNode>) -> nat
    decreases nodes.len(),
{
    if nodes.len() == 0 {
        0
    } else {
        sum_states(nodes.drop_last()) + node_states(nodes.last())
    }
}

proof fn lemma_sum_states_push(nodes: Seq<RegexNode>, x: RegexNode)
    ensures
        sum_states(nodes.push(x)) == sum_states(nodes) + node_states(x),
{
    assert(nodes.push(x).drop_last() =~= nodes);
    assert(nodes.push(x).last() == x);
}

proof fn lemma_sum_states_first(nodes: Seq<RegexNode>)
    requires
        nodes.len() >= 1,
    ensures
        sum_states(nodes) == node_states(nodes[0]) + sum_states(nodes.drop_first()),
    decreases nodes.len(),
{
    if nodes.len() > 1 {
        let dl = nodes.drop_last();
        let df = nodes.drop_first();
        lemma_sum_states_first(dl);
        assert(dl.drop_first() =~= df.drop_last());
        assert(df.last() == nodes.last());
        assert(dl[0] == nodes[0]);
        assert(sum_states(nodes) == sum_states(dl) + node_states(nodes.last()));
        assert(sum_states(df) == sum_states(df.drop_last()) + node_states(df.last()));
    } else {
        assert(nodes.drop_first().len() == 0);
        assert(nodes.drop_last().len() == 0);
        assert(sum_states(nodes.drop_last()) == 0);
        assert(sum_states(nodes.drop_first()) == 0);
        assert(nodes.last() == nodes[0]);
        assert(sum_states(nodes) == sum_states(nodes.drop_last()) + node_states(nodes.last()));
    }
}

proof fn lemma_concat_states(nodes: Seq<RegexNode>)
    ensures
        node_states(concat_spec(nodes)) <= sum_states(nodes) + 1,
        node_states(concat_spec(nodes)) >= 1,
    decreases nodes.len(),
{
    lemma_node_states_pos(concat_spec(nodes));
    if nodes.len() >= 1 {
        lemma_sum_states_first(nodes);
        if nodes.len() >= 2 {
            lemma_concat_states(nodes.drop_first());
            lemma_node_states_pos(nodes.drop_first()[0]);
            lemma_sum_states_first(nodes.drop_first());
        }
    }
}

proof fn lemma_node_states_pos(node: RegexNode)
    ensures
        node_states(node) >= 1,
    decreases node,
{
    match node {
        RegexNode::Concat(a, b) => {
            lemma_node_states_pos(*a);
        },
        _ => {},
    }
}

proof fn lemma_parse_from_states(s: Seq<char>, i: int, nodes: Seq<RegexNode>)
    requires
        0 <= i <= s.len(),
    ensures
        parse_from(s, i, nodes) matches Some(n) ==> node_states(n) <= sum_states(nodes) + 1 + 2 * (s.len() - i),
    decreases s.len() - i,
{
    if i >= s.len() {
        lemma_concat_states(nodes);
    } else {
        let c = s[i];
        if is_literal_char(c) {
            let ns = nodes.push(literal_node(c));
            lemma_sum_states_push(nodes, literal_node(c));
            reveal(literal_node);
            lemma_parse_from_states(s, i + 1, ns);
            assert(parse_from(s, i, nodes) == parse_from(s, i + 1, ns));
        } else if c == '|' {
            lemma_parse_from_states(s.skip(i + 1), 0, seq![]);
            lemma_concat_states(nodes);
            assert(sum_states(Seq::<RegexNode>::empty()) == 0);
        } else if c == '*' {
            if nodes.len() > 0 {
                let x = RegexNode::KleeneStar(Box::new(nodes.last()));
                let ns = nodes.drop_last().push(x);
                lemma_sum_states_push(nodes.drop_last(), x);
                lemma_parse_from_states(s, i + 1, ns);
                assert(parse_from(s, i, nodes) == parse_from(s, i + 1, ns));
            }
        } else if c == '(' {
            lemma_close_index_bound(s, 0, i + 1);
            match close_index(s, 0, i + 1) {
                None => {},
                Some(j) => {
                    lemma_parse_from_states(s.subrange(i + 1, j), 0, seq![]);
                    assert(sum_states(Seq::<RegexNode>::empty()) == 0);
                    match parse_from(s.subrange(i + 1, j), 0, seq![]) {
                        None => {},
                        Some(g) => {
                            let ns = nodes.push(g);
                            lemma_sum_states_push(nodes, g);
                            lemma_parse_from_states(s, j + 1, ns);
                        },
                    }
                },
            }
        }
    }
}

/// A regular expression of `n` characters has at most `2 * n + 1` states.
pub proof fn lemma_parse_states(s: Seq<char>)
    ensures
        parse_spec(s) matches Some(n) ==> node_states(n) <= 2 * s.len() + 1,
{
    lemma_parse_from_states(s, 0, seq![]);
}

/// Joins the nodes into one right-nested concatenation, or `Empty` when there
/// are none.
fn concat_list(list: Vec<RegexNode>) -> (r: RegexNode)
    ensures
        r == concat_spec(list@),
{
    let ghost orig = list@;
    let mut list = list;
    match list.pop() {
        None => RegexNode::Empty,
        Some(last) => {
            let mut acc = last;
            assert(orig.skip(orig.len() - 1) =~= seq![last]);
            while list.len() > 0
                invariant
                    list@.len() < orig.len(),
                    list@ == orig.take(list@.len() as int),
                    acc == concat_spec(orig.skip(list@.len() as int)),
                decreases list@.len(),
            {
                let ghost j = list@.len() as int;
                let left = match list.pop() {
                    Some(x) => x,
                    None => {
                        assert(false);
                        RegexNode::Empty
                    },
                };
                proof {
                    let t = orig.skip(j - 1);
                    assert(t.len() >= 2);
                    assert(t[0] == left);
                    assert(t.drop_first() =~= orig.skip(j));
                    assert(list@ =~= orig.take(j - 1));
                }
                acc = RegexNode::Concat(Box::new(left), Box::new(acc));
            }
            assert(orig.skip(0) =~= orig);
            acc
        },
    }
}

impl Clone for RegexNode {
    /// A copy of the whole tree.
    fn clone(&self) -> (r: Self)
        ensures
            r == *self,
        decreases self,
    {
        match self {
            RegexNode::Literal(c) => RegexNode::Literal(*c),
            RegexNode::Concat(a, b) => RegexNode::Concat(Box::new((**a).clone()), Box::new((**b).clone())),
            RegexNode::Union(a, b) => RegexNode::Union(Box::new((**a).clone()), Box::new((**b).clone())),
            RegexNode::KleeneStar(a) => RegexNode::KleeneStar(Box::new((**a).clone())),
            RegexNode::Empty => RegexNode::Empty,
        }
    }
}

impl RegexNode {
    /// The number of states of the automaton built for this node, or `None`
    /// where that number exceeds `usize::MAX`.
    pub fn state_count(&self) -> (r: Option<usize>)
        ensures
            r is Some <==> node_states(*self) <= usize::MAX,
            r matches Some(n) ==> n == node_states(*self),
        decreases self,
    {
        match self {
            RegexNode::Literal(_) => Some(2),
            RegexNode::Empty => Some(1),
            RegexNode::Concat(a, b) => match (a.state_count(), b.state_count()) {
                (Some(x), Some(y)) => x.checked_add(y),
                _ => None,
            },
            RegexNode::Union(a, b) => match (a.state_count(), b.state_count()) {
                (Some(x), Some(y)) => match x.checked_add(y) {
                    Some(z) => z.checked_add(1),
                    None => None,
                },
                _ => None,
            },
            RegexNode::KleeneStar(a) => match a.state_count() {
                Some(x) => x.checked_add(1),
                None => None,
            },
        }
    }

    /// Parses a regular expression; `None` when it is not valid.
    pub fn parse(re: &str) -> (r: Option<RegexNode>)
        ensures
            r == parse_spec(re@),
    {
        let chars = chars_of(re);
        let r = parse_range(&chars, 0, chars.len());
        assert(chars@.subrange(0, chars@.len() as int) =~= re@);
        r
    }
}

/// Parses the characters `lo .. hi` of `chars`.
fn parse_range(chars: &Vec<char>, lo: usize, hi: usize) -> (r: Option<RegexNode>)
    requires
        lo <= hi <= chars@.len(),
    ensures
        r == parse_spec(chars@.subrange(lo as int, hi as int)),
    decreases hi - lo,
{
    let ghost s = chars@.subrange(lo as int, hi as int);
    let mut concat_nodes: Vec<RegexNode> = Vec::new();
    let mut i = lo;
    while i < hi
        invariant
            lo <= i <= hi <= chars@.len(),
            s == chars@.subrange(lo as int, hi as int),
            parse_from(s, (i - lo) as int, concat_nodes@) == parse_spec(s),
        decreases hi - i,
    {
        let c = chars[i];
        assert(s[i - lo] == c);
        if is_alphabetic(c) || is_ascii_digit(c) {
            proof {
                reveal(literal_node);
            }
            concat_nodes.push(RegexNode::Literal(c));
            i = i + 1;
        } else if c == '|' {
            let next_node = parse_range(chars, i + 1, hi);
            assert(s.skip(i - lo + 1) =~= chars@.subrange(i + 1, hi as int));
            let next_node = match next_node {
                Some(n) => n,
                None => {
                    return None;
                },
            };
            let last_node = concat_list(concat_nodes);
            return Some(RegexNode::Union(Box::new(last_node), Box::new(next_node)));
        } else if c == '*' {
            let last_node = match concat_nodes.pop() {
                Some(n) => n,
                None => {
                    return None;
                },
            };
            concat_nodes.push(RegexNode::KleeneStar(Box::new(last_node)));
            i = i + 1;
        } else if c == '(' {
            let mut depth: usize = 0;
            let mut j = i + 1;
            let ghost rel = (i - lo) as int;
            proof {
                lemma_close_index_bound(s, 0, rel + 1);
            }
            loop
                invariant
                    lo <= i < j <= hi <= chars@.len(),
                    s == chars@.subrange(lo as int, hi as int),
                    rel == i - lo,
                    depth <= j - i,
                    close_index(s, 0, rel + 1) == close_index(s, depth as nat, (j - lo) as int),
                    s[rel] == '(',
                    !is_literal_char(s[rel]),
                    parse_from(s, rel, concat_nodes@) == parse_spec(s),
                ensures
                    lo <= i < j < hi <= chars@.len(),
                    close_index(s, 0, rel + 1) == Some((j - lo) as int),
                decreases hi - j,
            {
                if j >= hi {
                    return None;
                }
                let d = chars[j];
                assert(s[j - lo] == d);
                if d == ')' && depth == 0 {
                    break;
                } else if d == ')' {
                    depth = depth - 1;
                } else if d == '(' {
                    depth = depth + 1;
                }
                j = j + 1;
            }
            let group = parse_range(chars, i + 1, j);
            assert(s.subrange(rel + 1, (j - lo) as int) =~= chars@.subrange(i + 1, j as int));
            let group = match group {
                Some(g) => g,
                None => {
                    return None;
                },
            };
            concat_nodes.push(group);
            i = j + 1;
        } else {
            return None;
        }
    }
    let r = concat_list(concat_nodes);
    Some(r)
}

/// The position at which a group closes holds `)`.
proof fn lemma_close_index_paren(s: Seq<char>, depth: nat, i: int)
    ensures
        close_index(s, depth, i) matches Some(j) ==> 0 <= j < s.len() && s[j] == ')',
    decreases s.len() - i,
{
    if 0 <= i < s.len() {
        if s[i] == ')' {
            if depth > 0 {
                lemma_close_index_paren(s, (depth - 1) as nat, i + 1);
            }
        } else if s[i] == '(' {
            lemma_close_index_paren(s, depth + 1, i + 1);
        } else {
            lemma_close_index_paren(s, depth, i + 1);
        }
    }
}

/// What a valid expression leaves open: scanning for the `)` of an
/// enclosing group across the rest of a valid expression `r`, placed at
/// `off` in `u`, ends where it would from the end of `r`; the parentheses of
/// a valid expression are balanced.
proof fn lemma_valid_balanced(r: Seq<char>, i: int, nodes: Seq<RegexNode>, u: Seq<char>, off: int, d: nat)
    requires
        0 <= i <= r.len(),
        0 <= off,
        off + r.len() <= u.len(),
        u.subrange(off, off + r.len()) == r,
        parse_from(r, i, nodes) is Some,
    ensures
        close_index(u, d, off + i) == close_index(u, d, off + r.len()),
    decreases r.len() - i, 0int,
{
    if i < r.len() {
        let c = r[i];
        assert(u[off + i] == r[i]);
        if is_literal_char(c) {
            assert(c != '(' && c != ')');
            lemma_valid_balanced(r, i + 1, nodes.push(literal_node(c)), u, off, d);
        } else if c == '|' {
            let rest = r.skip(i + 1);
            assert(u.subrange(off + i + 1, off + i + 1 + rest.len()) =~= rest);
            lemma_valid_balanced(rest, 0, seq![], u, off + i + 1, d);
        } else if c == '*' {
            lemma_valid_balanced(
                r,
                i + 1,
                nodes.drop_last().push(RegexNode::KleeneStar(Box::new(nodes.last()))),
                u,
                off,
                d,
            );
        } else if c == '(' {
            let j = close_index(r, 0, i + 1).unwrap();
            lemma_close_index_paren(r, 0, i + 1);
            let g = r.subrange(i + 1, j);
            let group = parse_from(g, 0, seq![]).unwrap();
            assert(u.subrange(off + i + 1, off + i + 1 + g.len()) =~= g);
            lemma_valid_balanced(g, 0, seq![], u, off + i + 1, d + 1);
            assert(u[off + j] == r[j]);
            lemma_valid_balanced(r, j + 1, nodes.push(group), u, off, d);
        }
    }
}

/// A letter or digit alone is the literal of that character: `A-Z`, `a-z`
/// and `0-9` are literals, and no other ASCII character is.
pub proof fn lemma_parse_ascii_literal(c: char)
    requires
        (c as u32) < 128,
    ensures
        (65 <= (c as u32) <= 90 || 97 <= (c as u32) <= 122 || 48 <= (c as u32) <= 57) ==> parse_spec(seq![c])
            == Some(RegexNode::Literal(c)),
        !(65 <= (c as u32) <= 90 || 97 <= (c as u32) <= 122 || 48 <= (c as u32) <= 57) ==> parse_spec(seq![c])
            != Some(RegexNode::Literal(c)),
{
    reveal(literal_node);
    let s = seq![c];
    if is_literal_char(c) {
        assert(parse_from(s, 1, seq![RegexNode::Literal(c)]) == Some(concat_spec(seq![RegexNode::Literal(c)])));
        assert(seq![RegexNode::Literal(c)] =~= Seq::<RegexNode>::empty().push(literal_node(c)));
    }
}

/// A character beyond ASCII alone is a literal exactly when it is
/// alphabetic, as `char::is_alphabetic` reports it.
pub proof fn lemma_parse_other_literal(c: char)
    requires
        (c as u32) >= 128,
    ensures
        (parse_spec(seq![c]) == Some(RegexNode::Literal(c))) == alphabetic(c),
{
    reveal(literal_node);
    let s = seq![c];
    if is_literal_char(c) {
        assert(parse_from(s, 1, seq![RegexNode::Literal(c)]) == Some(concat_spec(seq![RegexNode::Literal(c)])));
        assert(seq![RegexNode::Literal(c)] =~= Seq::<RegexNode>::empty().push(literal_node(c)));
    }
}

/// Parentheses around a valid expression change nothing.
pub proof fn lemma_parse_group(r: Seq<char>)
    requires
        parse_spec(r) is Some,
    ensures
        parse_spec(seq!['('] + r + seq![')']) == parse_spec(r),
{
    let s = seq!['('] + r + seq![')'];
    let n = r.len() as int;
    assert(s.subrange(1, 1 + n) =~= r);
    lemma_valid_balanced(r, 0, seq![], s, 1, 0);
    assert(s[1 + n] == ')');
    assert(close_index(s, 0, 1) == Some(1 + n));
    let g = parse_spec(r).unwrap();
    assert(parse_from(s, n + 2, seq![g]) == Some(concat_spec(seq![g])));
    assert(Seq::<RegexNode>::empty().push(g) =~= seq![g]);
}

/// A literal followed by a group is the concatenation of the literal and
/// the expression inside the group.
pub proof fn lemma_parse_literal_then_group(x: char, r: Seq<char>)
    requires
        is_literal_char(x),
        parse_spec(r) is Some,
    ensures
        parse_spec(seq![x] + seq!['('] + r + seq![')']) == Some(
            RegexNode::Concat(Box::new(RegexNode::Literal(x)), Box::new(parse_spec(r).unwrap())),
        ),
{
    reveal(literal_node);
    let s = seq![x] + seq!['('] + r + seq![')'];
    let n = r.len() as int;
    assert(s.subrange(2, 2 + n) =~= r);
    lemma_valid_balanced(r, 0, seq![], s, 2, 0);
    assert(s[2 + n] == ')');
    assert(close_index(s, 0, 2) == Some(2 + n));
    let g = parse_spec(r).unwrap();
    let lx = RegexNode::Literal(x);
    assert(Seq::<RegexNode>::empty().push(literal_node(x)) =~= seq![lx]);
    assert(seq![lx].push(g) =~= seq![lx, g]);
    assert(parse_from(s, n + 3, seq![lx, g]) == Some(concat_spec(seq![lx, g])));
    assert(seq![lx, g].drop_first() =~= seq![g]);
    assert(concat_spec(seq![g]) == g);
    assert(seq![lx, g][0] == lx);
    assert(concat_spec(seq![lx, g]) == RegexNode::Concat(Box::new(lx), Box::new(g)));
    assert(s[1] == '(');
    assert(!is_literal_char('('));
    assert(parse_from(s, 1, seq![lx]) == parse_from(s, n + 3, seq![lx].push(g)));
    assert(s[0] == x);
    assert(parse_from(s, 0, seq![]) == parse_from(s, 1, Seq::<RegexNode>::empty().push(literal_node(x))));
}

/// The literals of the characters of `p`, in order.
pub open spec fn literals(p: Seq<char>) -> Seq<RegexNode> {
    Seq::new(p.len(), |j: int| literal_node(p[j]))
}

/// `literals(p)` holds, at each position, the literal of `p`'s character
/// there.
pub proof fn lemma_literals(p: Seq<char>)
    ensures
        literals(p).len() == p.len(),
        forall|j: int| 0 <= j < p.len() ==> #[trigger] literals(p)[j] == RegexNode::Literal(p[j]),
{
    reveal(literal_node);
}

/// A run of letters and digits adds one literal per character.
proof fn lemma_literal_run(s: Seq<char>, i: int, k: int, nodes: Seq<RegexNode>)
    requires
        0 <= i <= k <= s.len(),
        forall|j: int| i <= j < k ==> is_literal_char(#[trigger] s[j]),
    ensures
        parse_from(s, i, nodes) == parse_from(s, k, nodes + literals(s.subrange(i, k))),
    decreases k - i,
{
    let q = s.subrange(i, k);
    assert(literals(q).len() == q.len());
    if i == k {
        assert(nodes + literals(q) =~= nodes);
    } else {
        let q1 = s.subrange(i + 1, k);
        lemma_literal_run(s, i + 1, k, nodes.push(literal_node(s[i])));
        assert(literals(q1).len() == q1.len());
        let lhs = nodes.push(literal_node(s[i])) + literals(q1);
        let rhs = nodes + literals(q);
        assert forall|j: int| 0 <= j < lhs.len() implies lhs[j] == rhs[j] by {
            if j > nodes.len() {
                assert(q1[j - nodes.len() - 1] == q[j - nodes.len()]);
                assert(literals(q1)[j - nodes.len() - 1] == literal_node(q1[j - nodes.len() - 1]));
                assert(literals(q)[j - nodes.len()] == literal_node(q[j - nodes.len()]));
            } else if j == nodes.len() {
                assert(literals(q)[0] == literal_node(q[0]));
            }
        }
        assert(lhs =~= rhs);
    }
}

/// Letters and digits followed by a group: the literals of the characters,
/// in order, then the expression inside the group, joined into one
/// concatenation.
pub proof fn lemma_parse_literals_then_group(p: Seq<char>, r: Seq<char>)
    requires
        forall|j: int| 0 <= j < p.len() ==> is_literal_char(#[trigger] p[j]),
        parse_spec(r) is Some,
    ensures
        parse_spec(p + seq!['('] + r + seq![')']) == Some(concat_spec(literals(p).push(parse_spec(r).unwrap()))),
{
    let s = p + seq!['('] + r + seq![')'];
    let m = p.len() as int;
    let n = r.len() as int;
    assert(s.subrange(0, m) =~= p);
    lemma_literal_run(s, 0, m, seq![]);
    assert(Seq::<RegexNode>::empty() + literals(p) =~= literals(p));
    assert(s.subrange(m + 1, m + 1 + n) =~= r);
    lemma_valid_balanced(r, 0, seq![], s, m + 1, 0);
    assert(s[m + 1 + n] == ')');
    assert(close_index(s, 0, m + 1) == Some(m + 1 + n));
    assert(s[m] == '(');
    assert(!is_literal_char('('));
    let g = parse_spec(r).unwrap();
    assert(parse_from(s, m + n + 2, literals(p).push(g)) == Some(concat_spec(literals(p).push(g))));
}

} // verus!
