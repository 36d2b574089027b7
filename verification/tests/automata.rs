use std::collections::HashSet;
use utnfa::automata::{eq, is_valid};
use utnfa::{SimpleAutomata, UTnfa};

fn five_nodes() -> SimpleAutomata {
    SimpleAutomata {
        begin: 0,
        nodes: 5,
        finals: HashSet::from([1, 2, 3]),
        edges: vec![
            (0, 1, Some(1), -1),
            (2, 1, Some(2), -1),
            (3, 1, Some(3), -1),
            (3, 4, Some(4), 2),
        ],
    }
}

#[test]
fn automata_simple_test() {
    let a = SimpleAutomata {
        begin: 0,
        nodes: 5,
        finals: HashSet::from([1, 2, 3]),
        edges: vec![
            (0, 1, Some(1), -1),
            (2, 1, Some(2), -1),
            (3, 1, Some(3), -1),
            (3, 4, Some(4), 2),
        ],
    };
    assert_eq!(a, a);

    let mut shifted = SimpleAutomata {
        begin: 1,
        nodes: 5,
        finals: HashSet::from([2, 3, 4]),
        edges: vec![
            (1, 2, Some(1), -1),
            (3, 2, Some(2), -1),
            (4, 2, Some(3), -1),
            (4, 0, Some(4), 2),
        ],
    };
    assert_eq!(a, shifted);
    assert_eq!(shifted, a);

    shifted.edges[2] = (3, 2, Some(3), -1);
    assert_ne!(a, shifted);
    assert_ne!(shifted, a);
}

#[test]
fn function_and_operator_agree() {
    let a = five_nodes();
    let mut b = five_nodes();
    assert!(eq(&a, &b));
    assert!(a == b);
    b.edges[0] = (0, 2, Some(1), -1);
    assert!(!eq(&a, &b));
    assert!(a != b);
}

#[test]
fn operator_rejects_what_is_not_valid() {
    let mut a = five_nodes();
    a.edges.push((0, 9, None, -1));
    assert!(!is_valid(&a));
    assert!(a != a);
    assert!(a != five_nodes());
    assert!(five_nodes() != a);
}

#[test]
fn different_node_counts_differ() {
    let a = five_nodes();
    let mut b = five_nodes();
    b.nodes = 6;
    assert!(!eq(&a, &b));
}

#[test]
fn entry_node_must_correspond() {
    let a = SimpleAutomata { begin: 0, nodes: 2, finals: HashSet::new(), edges: vec![(0, 1, Some(7), -1)] };
    let b = SimpleAutomata { begin: 1, nodes: 2, finals: HashSet::new(), edges: vec![(0, 1, Some(7), -1)] };
    let c = SimpleAutomata { begin: 1, nodes: 2, finals: HashSet::new(), edges: vec![(1, 0, Some(7), -1)] };
    assert!(!eq(&a, &b));
    assert!(eq(&a, &c));
}

#[test]
fn accepting_nodes_must_correspond() {
    let a = SimpleAutomata { begin: 0, nodes: 2, finals: HashSet::from([1]), edges: vec![(0, 1, None, -1)] };
    let b = SimpleAutomata { begin: 0, nodes: 2, finals: HashSet::from([0]), edges: vec![(0, 1, None, -1)] };
    let c = SimpleAutomata { begin: 0, nodes: 2, finals: HashSet::new(), edges: vec![(0, 1, None, -1)] };
    assert!(eq(&a, &a));
    assert!(!eq(&a, &b));
    assert!(!eq(&a, &c));
    assert!(!eq(&c, &a));
}

#[test]
fn repeated_edges_count_once() {
    let a = SimpleAutomata { begin: 0, nodes: 2, finals: HashSet::new(), edges: vec![(0, 1, Some(1), -1)] };
    let b = SimpleAutomata {
        begin: 0,
        nodes: 2,
        finals: HashSet::new(),
        edges: vec![(0, 1, Some(1), -1), (0, 1, Some(1), -1)],
    };
    assert!(eq(&a, &b));
    assert!(eq(&b, &a));
}

#[test]
fn tags_and_bytes_must_agree() {
    let a = SimpleAutomata { begin: 0, nodes: 2, finals: HashSet::new(), edges: vec![(0, 1, None, 3)] };
    let b = SimpleAutomata { begin: 0, nodes: 2, finals: HashSet::new(), edges: vec![(0, 1, None, 4)] };
    let c = SimpleAutomata { begin: 0, nodes: 2, finals: HashSet::new(), edges: vec![(0, 1, Some(3), 3)] };
    assert!(!eq(&a, &b));
    assert!(!eq(&a, &c));
}

#[test]
fn single_nodes_without_edges_agree() {
    let a = SimpleAutomata { begin: 0, nodes: 1, finals: HashSet::new(), edges: vec![] };
    let b = SimpleAutomata { begin: 0, nodes: 1, finals: HashSet::new(), edges: vec![] };
    assert!(eq(&a, &b));
}

#[test]
fn a_symmetric_target_change_keeps_the_shape() {
    // Moving the target of the only edge from node 1 to node 2 gives an
    // automaton that the swap of 1 and 2 turns back into the first.
    let a = SimpleAutomata { begin: 0, nodes: 3, finals: HashSet::new(), edges: vec![(0, 1, Some(9), -1)] };
    let b = SimpleAutomata { begin: 0, nodes: 3, finals: HashSet::new(), edges: vec![(0, 2, Some(9), -1)] };
    assert!(eq(&a, &b));
}

#[test]
fn utnfa_simple_test() {
    // The single node of the empty fragment is its exit, hence accepting.
    assert_eq!(
        UTnfa::empty(),
        SimpleAutomata {
            begin: 0,
            nodes: 1,
            finals: HashSet::from([0]),
            edges: vec![]
        }
    );
    assert_ne!(
        UTnfa::empty(),
        SimpleAutomata {
            begin: 0,
            nodes: 1,
            finals: HashSet::new(),
            edges: vec![]
        }
    );
    assert_ne!(
        UTnfa::empty(),
        SimpleAutomata {
            begin: 0,
            nodes: 1,
            finals: HashSet::from([0]),
            edges: vec![(0, 0, None, -1)]
        }
    );
    assert_ne!(
        UTnfa::empty(),
        SimpleAutomata {
            begin: 0,
            nodes: 1,
            finals: HashSet::from([0]),
            edges: vec![(0, 0, Some(b'a'), -1)]
        }
    );
    assert_ne!(
        SimpleAutomata {
            begin: 0,
            nodes: 1,
            finals: HashSet::new(),
            edges: vec![]
        },
        UTnfa::empty()
    );
}

#[test]
fn validity_is_about_indices() {
    assert!(is_valid(&five_nodes()));
    assert!(is_valid(&UTnfa::empty()));
    let mut a = five_nodes();
    a.begin = 5;
    assert!(!is_valid(&a));
    let mut b = five_nodes();
    b.edges.push((0, 5, None, -1));
    assert!(!is_valid(&b));
    let mut c = five_nodes();
    c.edges.push((7, 0, Some(1), -1));
    assert!(!is_valid(&c));
    let mut d = five_nodes();
    d.finals.insert(99);
    assert!(is_valid(&d));
    let none = SimpleAutomata { begin: 0, nodes: 0, finals: HashSet::new(), edges: vec![] };
    assert!(!is_valid(&none));
}

#[test]
fn all_arrangements_are_tried() {
    // The one renaming that works is the last of the six in order.
    let a = SimpleAutomata {
        begin: 0,
        nodes: 3,
        finals: HashSet::from([2]),
        edges: vec![(0, 1, Some(1), -1), (1, 2, Some(2), -1)],
    };
    let b = SimpleAutomata {
        begin: 2,
        nodes: 3,
        finals: HashSet::from([0]),
        edges: vec![(2, 1, Some(1), -1), (1, 0, Some(2), -1)],
    };
    assert!(eq(&a, &b));
    assert!(eq(&b, &a));
}

#[test]
fn same_shape_carries_over() {
    let a = five_nodes();
    let b = SimpleAutomata {
        begin: 1,
        nodes: 5,
        finals: HashSet::from([2, 3, 4]),
        edges: vec![(1, 2, Some(1), -1), (3, 2, Some(2), -1), (4, 2, Some(3), -1), (4, 0, Some(4), 2)],
    };
    let c = SimpleAutomata {
        begin: 4,
        nodes: 5,
        finals: HashSet::from([0, 1, 2]),
        edges: vec![(4, 0, Some(1), -1), (1, 0, Some(2), -1), (2, 0, Some(3), -1), (2, 3, Some(4), 2)],
    };
    assert!(eq(&a, &b));
    assert!(eq(&b, &c));
    assert!(eq(&a, &c));
    assert!(eq(&c, &a));
}
