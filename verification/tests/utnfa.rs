use std::collections::HashSet;
use utnfa::automata::eq;
use utnfa::{Automata, Charset, SimpleAutomata, UTnfa};

/// Whether the automaton can read `input` on a walk from its entry to
/// an accepting node.
fn reads<A: Automata>(a: &A, input: &[u8]) -> bool {
    let edges = a.list_edges();
    let n = a.nodes();
    let close = |set: &mut Vec<bool>| loop {
        let mut grown = false;
        for e in edges.iter() {
            if e.2.is_none() && set[e.0] && !set[e.1] {
                set[e.1] = true;
                grown = true;
            }
        }
        if !grown {
            break;
        }
    };
    let mut now = vec![false; n];
    now[a.begin()] = true;
    close(&mut now);
    for b in input {
        let mut next = vec![false; n];
        for e in edges.iter() {
            if e.2 == Some(*b) && now[e.0] {
                next[e.1] = true;
            }
        }
        close(&mut next);
        now = next;
    }
    (0..n).any(|i| now[i] && a.is_final(i))
}

fn letters(lo: u8, hi: u8) -> UTnfa {
    UTnfa::charset(Charset::from_range((lo, hi)))
}

fn word(w: &[u8]) -> UTnfa {
    let mut r = UTnfa::empty();
    for b in w {
        r.concat(&UTnfa::charset(Charset::from_char(*b)));
    }
    r
}

#[test]
fn empty_fragment() {
    let e = UTnfa::empty();
    assert_eq!(e.nodes(), 1);
    assert_eq!(e.begin(), 0);
    assert!(e.is_final(0));
    assert!(!e.is_final(1));
    assert_eq!(e.list_edges(), vec![]);
    assert!(reads(&e, b""));
    assert!(!reads(&e, b"a"));
}

#[test]
fn charset_fragment() {
    let c = Charset::from_range((b'a', b'c'));
    let f = UTnfa::charset(c);
    assert_eq!(f.nodes(), 2);
    assert_eq!(f.begin(), 0);
    assert!(f.is_final(1));
    assert!(!f.is_final(0));
    assert_eq!(
        f.list_edges(),
        vec![(0, 1, Some(b'a'), -1), (0, 1, Some(b'b'), -1), (0, 1, Some(b'c'), -1)]
    );
    for b in 0..=255u8 {
        assert_eq!(reads(&f, &[b]), c.contains(b));
    }
    assert!(!reads(&f, b""));
    assert!(!reads(&f, b"ab"));
}

#[test]
fn tag_fragment() {
    let f = UTnfa::tag(7);
    assert_eq!(f.nodes(), 2);
    assert_eq!(f.begin(), 0);
    assert!(f.is_final(1));
    assert_eq!(f.list_edges(), vec![(0, 1, None, 7)]);
    assert!(reads(&f, b""));
    assert!(!reads(&f, b"a"));
    assert_eq!(UTnfa::tag(-5).list_edges(), vec![(0, 1, None, -5)]);
}

#[test]
fn concat_joins_exit_to_entry() {
    let mut f = letters(b'a', b'a');
    f.concat(&letters(b'b', b'b'));
    assert_eq!(f.nodes(), 4);
    assert_eq!(f.begin(), 0);
    assert!(f.is_final(3));
    assert_eq!(
        f.list_edges(),
        vec![(0, 1, Some(b'a'), -1), (2, 3, Some(b'b'), -1), (1, 2, None, -1)]
    );
    assert!(reads(&f, b"ab"));
    assert!(!reads(&f, b"a"));
    assert!(!reads(&f, b"b"));
    assert!(!reads(&f, b"ba"));
    assert!(!reads(&f, b"abb"));
    assert!(!reads(&f, b""));
}

#[test]
fn concat_leaves_the_operand_alone() {
    let operand = letters(b'x', b'z');
    let before = operand.list_edges();
    let mut f = UTnfa::tag(1);
    f.concat(&operand);
    f.union(&operand);
    assert_eq!(operand.list_edges(), before);
    assert_eq!(operand.nodes(), 2);
    assert_eq!(operand.begin(), 0);
}

#[test]
fn union_adds_an_entry_and_an_exit() {
    let mut f = letters(b'a', b'a');
    f.union(&letters(b'b', b'b'));
    assert_eq!(f.nodes(), 6);
    assert_eq!(f.begin(), 4);
    assert!(f.is_final(5));
    assert_eq!(
        f.list_edges(),
        vec![
            (0, 1, Some(b'a'), -1),
            (2, 3, Some(b'b'), -1),
            (4, 0, None, -1),
            (4, 2, None, -1),
            (1, 5, None, -1),
            (3, 5, None, -1),
        ]
    );
    assert!(reads(&f, b"a"));
    assert!(reads(&f, b"b"));
    assert!(!reads(&f, b""));
    assert!(!reads(&f, b"ab"));
    assert!(!reads(&f, b"c"));
}

#[test]
fn union_order_changes_numbers_only() {
    let mut f = word(b"no");
    f.union(&word(b"yes"));
    let mut g = word(b"yes");
    g.union(&word(b"no"));
    for w in [&b"no"[..], b"yes", b"", b"n", b"ye", b"noyes", b"yesno"] {
        assert_eq!(reads(&f, w), reads(&g, w));
        assert_eq!(reads(&f, w), w == b"no" || w == b"yes");
    }
}

#[test]
fn kleene_repeats() {
    let mut f = word(b"ab");
    let nodes = f.nodes();
    f.kleene();
    assert_eq!(f.nodes(), nodes + 2);
    assert_eq!(f.begin(), nodes);
    assert!(f.is_final(nodes));
    assert!(!f.is_final(nodes + 1));
    assert!(reads(&f, b""));
    assert!(reads(&f, b"ab"));
    assert!(reads(&f, b"abab"));
    assert!(reads(&f, b"ababababab"));
    assert!(!reads(&f, b"a"));
    assert!(!reads(&f, b"aba"));
    assert!(!reads(&f, b"ba"));
    assert!(!reads(&f, b"abb"));
}

#[test]
fn kleene_of_a_charset_has_this_shape() {
    let mut f = letters(b'a', b'a');
    f.kleene();
    assert_eq!(
        f.list_edges(),
        vec![(0, 1, Some(b'a'), -1), (2, 0, None, -1), (1, 3, None, -1), (3, 2, None, -1)]
    );
    assert_eq!(f.begin(), 2);
    assert!(f.is_final(2));
}

#[test]
fn optional_is_union_with_empty() {
    let mut f = word(b"ab");
    f.optional();
    let mut g = word(b"ab");
    g.union(&UTnfa::empty());
    assert_eq!(f.list_edges(), g.list_edges());
    assert_eq!(f.nodes(), g.nodes());
    assert_eq!(f.begin(), g.begin());
    assert!(reads(&f, b""));
    assert!(reads(&f, b"ab"));
    assert!(!reads(&f, b"a"));
    assert!(!reads(&f, b"abab"));
}

#[test]
fn tags_pass_through_untouched() {
    let mut f = UTnfa::tag(3);
    f.concat(&letters(b'a', b'z'));
    f.concat(&UTnfa::tag(4));
    f.kleene();
    let tags: Vec<isize> = f.list_edges().iter().filter(|e| e.2.is_none()).map(|e| e.3).collect();
    assert_eq!(tags.iter().filter(|t| **t == 3).count(), 1);
    assert_eq!(tags.iter().filter(|t| **t == 4).count(), 1);
    assert!(tags.iter().all(|t| *t == 3 || *t == 4 || *t == -1));
    assert!(reads(&f, b"abc"));
}

#[test]
fn a_fragment_has_its_own_shape() {
    let mut f = letters(b'a', b'b');
    f.concat(&UTnfa::tag(9));
    assert!(eq(&f, &f));
    let expected = SimpleAutomata {
        begin: 3,
        nodes: 4,
        finals: HashSet::from([0]),
        edges: vec![(3, 2, Some(b'a'), -1), (3, 2, Some(b'b'), -1), (1, 0, None, 9), (2, 1, None, -1)],
    };
    assert!(eq(&f, &expected));
    assert!(eq(&expected, &f));
    let other_tag = SimpleAutomata {
        begin: 3,
        nodes: 4,
        finals: HashSet::from([0]),
        edges: vec![(3, 2, Some(b'a'), -1), (3, 2, Some(b'b'), -1), (1, 0, None, 8), (2, 1, None, -1)],
    };
    assert!(!eq(&f, &other_tag));
}

#[test]
fn clone_keeps_the_fragment() {
    let mut f = word(b"hi");
    f.kleene();
    let g = f.clone();
    assert_eq!(f.list_edges(), g.list_edges());
    assert_eq!(f.nodes(), g.nodes());
    assert_eq!(f.begin(), g.begin());
    assert!(eq(&f, &g));
}

#[test]
fn nested_combinators() {
    // (ab|c)*d?
    let mut inner = word(b"ab");
    inner.union(&word(b"c"));
    inner.kleene();
    let mut tail = word(b"d");
    tail.optional();
    inner.concat(&tail);
    for w in [&b""[..], b"d", b"ab", b"c", b"abd", b"cabcc", b"ccabd"] {
        assert!(reads(&inner, w));
    }
    for w in [&b"a"[..], b"dd", b"da", b"abdc", b"b", b"e"] {
        assert!(!reads(&inner, w));
    }
}
