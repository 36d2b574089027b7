//! The common face of all automata, and a test for sameness of shape.
//!
//! Two automata have the same shape when the nodes of one can be renamed
//! into the nodes of the other so that the entry node, the accepting nodes
//! and the set of edges all correspond.  The test tries every renaming, so
//! its cost grows with the factorial of the node count: it is meant for
//! small automata.

use crate::permute::{is_permutation, next_permutation, pending, permutations};
use std::collections::HashSet;
use vstd::prelude::*;
use vstd::relations::injective_on;
use vstd::set_lib::{lemma_map_size, lemma_subset_equality};

verus! {

broadcast use vstd::std_specs::hash::group_hash_axioms;

/// An automaton as mathematical data.
pub struct Shape {
    /// Number of nodes; the nodes are `0..nodes`.
    pub nodes: usize,
    /// The entry node.
    pub begin: usize,
    /// The accepting nodes.
    pub finals: Set<usize>,
    /// The edges: source, target, the byte read (`None` on an epsilon
    /// edge) and the tag.
    pub edges: Seq<(usize, usize, Option<u8>, isize)>,
}

impl Shape {
    /// The entry node and every edge endpoint are nodes of the automaton.
    pub open spec fn valid(self) -> bool {
        &&& self.begin < self.nodes
        &&& forall|k: int|
            0 <= k < self.edges.len() ==> (#[trigger] self.edges[k]).0 < self.nodes
                && self.edges[k].1 < self.nodes
    }

    /// The automaton with node `i` renamed to `p[i]`.
    pub open spec fn renamed(self, p: Seq<usize>) -> Shape {
        Shape {
            nodes: self.nodes,
            begin: p[self.begin as int],
            finals: Set::new(
                |m: usize|
                    exists|i: int|
                        0 <= i < self.nodes && self.finals.contains(i as usize) && #[trigger] p[i]
                            == m,
            ),
            edges: self.edges.map_values(|e: (usize, usize, Option<u8>, isize)| renamed_edge(e, p)),
        }
    }
}

/// The edge `e` with both endpoints renamed by `p`.
pub open spec fn renamed_edge(e: (usize, usize, Option<u8>, isize), p: Seq<usize>) -> (
    usize,
    usize,
    Option<u8>,
    isize,
) {
    (p[e.0 as int], p[e.1 as int], e.2, e.3)
}

/// Every edge of `x`, renamed by `p`, is an edge of `y`.
pub open spec fn maps_into(
    x: Seq<(usize, usize, Option<u8>, isize)>,
    y: Seq<(usize, usize, Option<u8>, isize)>,
    p: Seq<usize>,
) -> bool {
    forall|k: int| 0 <= k < x.len() ==> y.contains(renamed_edge(#[trigger] x[k], p))
}

/// Every edge of `y` is an edge of `x` renamed by `p`.
pub open spec fn maps_onto(
    x: Seq<(usize, usize, Option<u8>, isize)>,
    y: Seq<(usize, usize, Option<u8>, isize)>,
    p: Seq<usize>,
) -> bool {
    forall|k: int| 0 <= k < y.len() ==> x.map_values(
        |e: (usize, usize, Option<u8>, isize)| renamed_edge(e, p),
    ).contains(#[trigger] y[k])
}

/// Renaming node `i` to `p[i]` turns `a` into `b`: `p` arranges the nodes,
/// sends entry to entry, keeps accepting and non-accepting nodes apart, and
/// the renamed edges of `a` are, as a set, the edges of `b`.
pub open spec fn matches_under(a: Shape, b: Shape, p: Seq<usize>) -> bool {
    &&& a.nodes == b.nodes
    &&& is_permutation(p, a.nodes as int)
    &&& p[a.begin as int] == b.begin
    &&& forall|i: int|
        0 <= i < a.nodes ==> (a.finals.contains(i as usize) <==> b.finals.contains(#[trigger] p[i]))
    &&& maps_into(a.edges, b.edges, p)
    &&& maps_onto(a.edges, b.edges, p)
}

/// Some renaming of the nodes turns `a` into `b`.
pub open spec fn equivalent(a: Shape, b: Shape) -> bool {
    exists|p: Seq<usize>| matches_under(a, b, p)
}

/// A renaming never sends two edges of a valid automaton to the same edge.
proof fn lemma_renaming_injective(x: Seq<(usize, usize, Option<u8>, isize)>, p: Seq<usize>, n: int)
    requires
        is_permutation(p, n),
        forall|k: int| 0 <= k < x.len() ==> (#[trigger] x[k]).0 < n && x[k].1 < n,
    ensures
        injective_on(|e: (usize, usize, Option<u8>, isize)| renamed_edge(e, p), x.to_set()),
{
    let f = |e: (usize, usize, Option<u8>, isize)| renamed_edge(e, p);
    assert forall|e1: (usize, usize, Option<u8>, isize), e2: (usize, usize, Option<u8>, isize)|
        x.to_set().contains(e1) && x.to_set().contains(e2) && #[trigger] f(e1) == #[trigger] f(
            e2,
        ) implies e1 == e2 by {
        let k1 = choose|k: int| 0 <= k < x.len() && x[k] == e1;
        let k2 = choose|k: int| 0 <= k < x.len() && x[k] == e2;
        assert(x[k1].0 < n && x[k2].0 < n);
        assert(p[e1.0 as int] == p[e2.0 as int]);
        assert(p[e1.1 as int] == p[e2.1 as int]);
    }
}

/// The set of renamed edges of `x`.
proof fn lemma_renamed_set(x: Seq<(usize, usize, Option<u8>, isize)>, p: Seq<usize>)
    ensures
        x.to_set().map(|e: (usize, usize, Option<u8>, isize)| renamed_edge(e, p)) == x.map_values(
            |e: (usize, usize, Option<u8>, isize)| renamed_edge(e, p),
        ).to_set(),
{
    let f = |e: (usize, usize, Option<u8>, isize)| renamed_edge(e, p);
    let img = x.to_set().map(f);
    let seq_img = x.map_values(f);
    assert forall|e: (usize, usize, Option<u8>, isize)| img.contains(e) <==> seq_img.to_set().contains(
        e,
    ) by {
        if img.contains(e) {
            let pre = choose|pre: (usize, usize, Option<u8>, isize)|
                x.to_set().contains(pre) && f(pre) == e;
            let k = choose|k: int| 0 <= k < x.len() && x[k] == pre;
            assert(seq_img[k] == e);
        }
        if seq_img.to_set().contains(e) {
            let k = choose|k: int| 0 <= k < seq_img.len() && seq_img[k] == e;
            assert(x.to_set().contains(x[k]));
            assert(f(x[k]) == e);
        }
    }
    assert(img =~= seq_img.to_set());
}

/// Where a renaming sends the edges of `x` into those of `y`, and both
/// have equally many distinct edges, every edge of `y` is hit.
proof fn lemma_onto_by_count(
    x: Seq<(usize, usize, Option<u8>, isize)>,
    y: Seq<(usize, usize, Option<u8>, isize)>,
    p: Seq<usize>,
    n: int,
)
    requires
        is_permutation(p, n),
        forall|k: int| 0 <= k < x.len() ==> (#[trigger] x[k]).0 < n && x[k].1 < n,
        maps_into(x, y, p),
        x.to_set().len() == y.to_set().len(),
    ensures
        maps_onto(x, y, p),
{
    broadcast use vstd::seq_lib::seq_to_set_is_finite;

    let f = |e: (usize, usize, Option<u8>, isize)| renamed_edge(e, p);
    let img = x.to_set().map(f);
    lemma_renaming_injective(x, p, n);
    lemma_map_size(x.to_set(), img, f);
    lemma_renamed_set(x, p);
    assert forall|e: (usize, usize, Option<u8>, isize)| img.contains(e) implies y.to_set().contains(
        e,
    ) by {
        let k = choose|k: int| 0 <= k < x.map_values(f).len() && x.map_values(f)[k] == e;
        assert(y.contains(renamed_edge(x[k], p)));
    }
    lemma_subset_equality(img, y.to_set());
    assert forall|k: int| 0 <= k < y.len() implies x.map_values(f).contains(#[trigger] y[k]) by {
        assert(y.to_set().contains(y[k]));
        assert(img.contains(y[k]));
    }
}

/// Where a renaming turns the edges of `x` into exactly those of `y`,
/// both have equally many distinct edges.
proof fn lemma_count_by_onto(
    x: Seq<(usize, usize, Option<u8>, isize)>,
    y: Seq<(usize, usize, Option<u8>, isize)>,
    p: Seq<usize>,
    n: int,
)
    requires
        is_permutation(p, n),
        forall|k: int| 0 <= k < x.len() ==> (#[trigger] x[k]).0 < n && x[k].1 < n,
        maps_into(x, y, p),
        maps_onto(x, y, p),
    ensures
        x.to_set().len() == y.to_set().len(),
{
    broadcast use vstd::seq_lib::seq_to_set_is_finite;

    let f = |e: (usize, usize, Option<u8>, isize)| renamed_edge(e, p);
    let img = x.to_set().map(f);
    lemma_renaming_injective(x, p, n);
    lemma_map_size(x.to_set(), img, f);
    lemma_renamed_set(x, p);
    assert forall|e: (usize, usize, Option<u8>, isize)| img.contains(e) <==> y.to_set().contains(
        e,
    ) by {
        if img.contains(e) {
            let k = choose|k: int| 0 <= k < x.map_values(f).len() && x.map_values(f)[k] == e;
            assert(y.contains(renamed_edge(x[k], p)));
        }
        if y.to_set().contains(e) {
            let k = choose|k: int| 0 <= k < y.len() && y[k] == e;
            assert(x.map_values(f).contains(y[k]));
        }
    }
    assert(img =~= y.to_set());
}

/// Every valid automaton has the same shape as itself.
pub proof fn lemma_equivalent_reflexive(a: Shape)
    requires
        a.valid(),
    ensures
        equivalent(a, a),
{
    let id = Seq::new(a.nodes as nat, |i: int| i as usize);
    let f = |e: (usize, usize, Option<u8>, isize)| renamed_edge(e, id);
    assert(is_permutation(id, a.nodes as int));
    assert forall|k: int| 0 <= k < a.edges.len() implies renamed_edge(#[trigger] a.edges[k], id)
        == a.edges[k] by {}
    assert forall|k: int| 0 <= k < a.edges.len() implies a.edges.map_values(f).contains(
        #[trigger] a.edges[k],
    ) by {
        assert(a.edges.map_values(f)[k] == a.edges[k]);
    }
    assert(matches_under(a, a, id));
}

/// Renaming the nodes of a valid automaton by an arrangement of them
/// gives a valid automaton of the same shape.
pub proof fn lemma_renamed_equivalent(a: Shape, p: Seq<usize>)
    requires
        a.valid(),
        is_permutation(p, a.nodes as int),
    ensures
        a.renamed(p).valid(),
        equivalent(a, a.renamed(p)),
{
    let b = a.renamed(p);
    let f = |e: (usize, usize, Option<u8>, isize)| renamed_edge(e, p);
    assert forall|i: int| 0 <= i < a.nodes implies (a.finals.contains(i as usize)
        <==> b.finals.contains(#[trigger] p[i])) by {
        if b.finals.contains(p[i]) {
            let j = choose|j: int| 0 <= j < a.nodes && a.finals.contains(j as usize) && p[j] == p[i];
            assert(j == i);
        }
    }
    assert forall|k: int| 0 <= k < a.edges.len() implies b.edges.contains(
        renamed_edge(#[trigger] a.edges[k], p),
    ) by {
        assert(b.edges[k] == renamed_edge(a.edges[k], p));
    }
    assert forall|k: int| 0 <= k < b.edges.len() implies a.edges.map_values(f).contains(
        #[trigger] b.edges[k],
    ) by {
        assert(a.edges.map_values(f)[k] == b.edges[k]);
    }
    assert forall|k: int| 0 <= k < b.edges.len() implies (#[trigger] b.edges[k]).0 < b.nodes
        && b.edges[k].1 < b.nodes by {
        assert(b.edges[k] == renamed_edge(a.edges[k], p));
    }
    assert(matches_under(a, b, p));
}

/// The arrangement that undoes `p`: it sends `p[i]` back to `i`.
pub open spec fn undone(p: Seq<usize>) -> Seq<usize> {
    Seq::new(p.len(), |j: int| (choose|i: int| 0 <= i < p.len() && p[i] == j) as usize)
}

/// The arrangement that does `p` and then `q`.
pub open spec fn composed(p: Seq<usize>, q: Seq<usize>) -> Seq<usize> {
    Seq::new(p.len(), |i: int| q[p[i] as int])
}

/// An arrangement of `0..n` reaches every number below `n`.
pub proof fn lemma_permutation_onto(p: Seq<usize>, n: int, j: int)
    requires
        is_permutation(p, n),
        0 <= j < n,
    ensures
        exists|i: int| 0 <= i < n && #[trigger] p[i] == j,
{
    broadcast use vstd::seq_lib::seq_to_set_is_finite;

    let values = p.map_values(|v: usize| v as int);
    assert(values.no_duplicates());
    values.unique_seq_to_set();
    let below = vstd::set_lib::set_int_range(0, n);
    vstd::set_lib::lemma_int_range(0, n);
    assert forall|v: int| values.to_set().contains(v) implies below.contains(v) by {
        let i = choose|i: int| 0 <= i < values.len() && values[i] == v;
        assert(p[i] < n);
    }
    lemma_subset_equality(values.to_set(), below);
    assert(below.contains(j));
    assert(values.to_set().contains(j));
    let i = choose|i: int| 0 <= i < values.len() && values[i] == j;
    assert(p[i] == j);
}

/// What undoes an arrangement sends each number below `n` to the one
/// place from which the arrangement reaches it.
pub proof fn lemma_undone_at(p: Seq<usize>, n: int, j: int)
    requires
        is_permutation(p, n),
        n <= usize::MAX,
        0 <= j < n,
    ensures
        0 <= undone(p)[j] < n,
        p[undone(p)[j] as int] == j,
        forall|i: int| 0 <= i < n && #[trigger] p[i] == j ==> undone(p)[j] == i,
{
    lemma_permutation_onto(p, n, j);
    let i0 = choose|i: int| 0 <= i < n && #[trigger] p[i] == j;
    assert(0 <= i0 < p.len() && p[i0] == j);
    let c = choose|i: int| 0 <= i < p.len() && p[i] == j;
    assert(0 <= c < p.len() && p[c] == j);
    assert(undone(p)[j] == c as usize);
}

/// What undoes an arrangement is an arrangement.
pub proof fn lemma_undone(p: Seq<usize>, n: int)
    requires
        is_permutation(p, n),
        n <= usize::MAX,
    ensures
        is_permutation(undone(p), n),
{
    let q = undone(p);
    assert forall|j: int| 0 <= j < n implies #[trigger] q[j] < n by {
        lemma_undone_at(p, n, j);
    }
    assert forall|i: int, j: int| 0 <= i < n && 0 <= j < n && i != j implies q[i] != q[j] by {
        lemma_undone_at(p, n, i);
        lemma_undone_at(p, n, j);
    }
}

/// Where a renaming turns `a` into `b`, the renaming that undoes it
/// sends every edge of `b` to an edge of `a`, and reaches every edge of
/// `a`.
proof fn lemma_undone_edges(a: Shape, b: Shape, p: Seq<usize>)
    requires
        a.valid(),
        a.nodes == b.nodes,
        is_permutation(p, a.nodes as int),
        maps_into(a.edges, b.edges, p),
        maps_onto(a.edges, b.edges, p),
    ensures
        maps_into(b.edges, a.edges, undone(p)),
        maps_onto(b.edges, a.edges, undone(p)),
{
    let n = a.nodes as int;
    let q = undone(p);
    let f = |e: (usize, usize, Option<u8>, isize)| renamed_edge(e, p);
    let g = |e: (usize, usize, Option<u8>, isize)| renamed_edge(e, q);
    assert forall|j: int| 0 <= j < a.edges.len() implies renamed_edge(
        renamed_edge(#[trigger] a.edges[j], p),
        q,
    ) == a.edges[j] by {
        let e = a.edges[j];
        lemma_undone_at(p, n, p[e.0 as int] as int);
        lemma_undone_at(p, n, p[e.1 as int] as int);
    }
    assert forall|k: int| 0 <= k < b.edges.len() implies a.edges.contains(
        renamed_edge(#[trigger] b.edges[k], q),
    ) by {
        assert(a.edges.map_values(f).contains(b.edges[k]));
        let j = choose|j: int| 0 <= j < a.edges.len() && a.edges.map_values(f)[j] == b.edges[k];
        assert(renamed_edge(a.edges[j], p) == b.edges[k]);
    }
    assert forall|k: int| 0 <= k < a.edges.len() implies b.edges.map_values(g).contains(
        #[trigger] a.edges[k],
    ) by {
        assert(b.edges.contains(renamed_edge(a.edges[k], p)));
        let j = choose|j: int| 0 <= j < b.edges.len() && b.edges[j] == renamed_edge(a.edges[k], p);
        assert(b.edges.map_values(g)[j] == a.edges[k]);
    }
}

/// Having the same shape works both ways.
pub proof fn lemma_equivalent_symmetric(a: Shape, b: Shape)
    requires
        a.valid(),
        equivalent(a, b),
    ensures
        equivalent(b, a),
{
    let p = choose|p: Seq<usize>| matches_under(a, b, p);
    let n = a.nodes as int;
    let q = undone(p);
    lemma_undone(p, n);
    lemma_undone_edges(a, b, p);
    assert(q[b.begin as int] == a.begin) by {
        lemma_undone_at(p, n, b.begin as int);
    }
    assert forall|j: int| 0 <= j < b.nodes implies (b.finals.contains(j as usize)
        <==> a.finals.contains(#[trigger] q[j])) by {
        lemma_undone_at(p, n, j);
        let i = q[j] as int;
        assert(a.finals.contains(i as usize) <==> b.finals.contains(p[i]));
    }
    assert(matches_under(b, a, q));
}

/// Having the same shape carries over: where `a` has the shape of `b`
/// and `b` that of `c`, `a` has the shape of `c`.
pub proof fn lemma_equivalent_transitive(a: Shape, b: Shape, c: Shape)
    requires
        a.valid(),
        equivalent(a, b),
        equivalent(b, c),
    ensures
        equivalent(a, c),
{
    let p = choose|p: Seq<usize>| matches_under(a, b, p);
    let q = choose|q: Seq<usize>| matches_under(b, c, q);
    let n = a.nodes as int;
    let r = composed(p, q);
    let fp = |e: (usize, usize, Option<u8>, isize)| renamed_edge(e, p);
    let fq = |e: (usize, usize, Option<u8>, isize)| renamed_edge(e, q);
    let fr = |e: (usize, usize, Option<u8>, isize)| renamed_edge(e, r);
    assert(is_permutation(r, n)) by {
        assert forall|i: int| 0 <= i < n implies #[trigger] r[i] < n by {
            assert(p[i] < n);
        }
        assert forall|i: int, j: int| 0 <= i < n && 0 <= j < n && i != j implies r[i] != r[j] by {
            assert(p[i] < n && p[j] < n && p[i] != p[j]);
        }
    }
    assert forall|i: int| 0 <= i < a.nodes implies (a.finals.contains(i as usize)
        <==> c.finals.contains(#[trigger] r[i])) by {
        assert(a.finals.contains(i as usize) <==> b.finals.contains(p[i]));
        let j = p[i] as int;
        assert(b.finals.contains(j as usize) <==> c.finals.contains(q[j]));
    }
    assert forall|k: int| 0 <= k < a.edges.len() implies c.edges.contains(
        renamed_edge(#[trigger] a.edges[k], r),
    ) by {
        assert(b.edges.contains(renamed_edge(a.edges[k], p)));
        let j = choose|j: int| 0 <= j < b.edges.len() && b.edges[j] == renamed_edge(a.edges[k], p);
        assert(c.edges.contains(renamed_edge(b.edges[j], q)));
        assert(renamed_edge(b.edges[j], q) == renamed_edge(a.edges[k], r));
    }
    assert forall|k: int| 0 <= k < c.edges.len() implies a.edges.map_values(fr).contains(
        #[trigger] c.edges[k],
    ) by {
        assert(b.edges.map_values(fq).contains(c.edges[k]));
        let j = choose|j: int| 0 <= j < b.edges.len() && b.edges.map_values(fq)[j] == c.edges[k];
        assert(a.edges.map_values(fp).contains(b.edges[j]));
        let i = choose|i: int| 0 <= i < a.edges.len() && a.edges.map_values(fp)[i] == b.edges[j];
        assert(renamed_edge(a.edges[i], r) == c.edges[k]);
        assert(a.edges.map_values(fr)[i] == c.edges[k]);
    }
    assert(matches_under(a, c, r));
}

/// Whether two edges are the same.
fn same_edge(a: &(usize, usize, Option<u8>, isize), b: &(usize, usize, Option<u8>, isize)) -> (r:
    bool)
    ensures
        r == (*a == *b),
{
    let same_byte = match (a.2, b.2) {
        (None, None) => true,
        (Some(x), Some(y)) => x == y,
        _ => false,
    };
    a.0 == b.0 && a.1 == b.1 && same_byte && a.3 == b.3
}

/// Whether `e` occurs in `v`.
fn holds_edge(v: &Vec<(usize, usize, Option<u8>, isize)>, e: &(usize, usize, Option<u8>, isize)) -> (r:
    bool)
    ensures
        r == v@.contains(*e),
{
    let mut k: usize = 0;
    while k < v.len()
        invariant
            k <= v.len(),
            forall|j: int| 0 <= j < k ==> v@[j] != *e,
        decreases v.len() - k,
    {
        if same_edge(&v[k], e) {
            return true;
        }
        k += 1;
    }
    false
}

/// The edges of `v`, each kept once, in the order of first occurrence.
fn without_repeats(v: &Vec<(usize, usize, Option<u8>, isize)>) -> (r: Vec<
    (usize, usize, Option<u8>, isize),
>)
    ensures
        r@.no_duplicates(),
        r@.to_set() == v@.to_set(),
{
    let mut r: Vec<(usize, usize, Option<u8>, isize)> = Vec::new();
    let mut k: usize = 0;
    while k < v.len()
        invariant
            k <= v.len(),
            r@.no_duplicates(),
            r@.to_set() == v@.take(k as int).to_set(),
        decreases v.len() - k,
    {
        let e = v[k];
        proof {
            let upto = v@.take(k as int + 1);
            assert(upto =~= v@.take(k as int).push(e));
            assert forall|x: (usize, usize, Option<u8>, isize)|
                upto.to_set().contains(x) <==> (v@.take(k as int).to_set().contains(x) || x
                    == e) by {
                if upto.to_set().contains(x) {
                    let j = choose|j: int| 0 <= j < upto.len() && upto[j] == x;
                    if j < k {
                        assert(v@.take(k as int)[j] == x);
                    }
                }
                if v@.take(k as int).to_set().contains(x) {
                    let j = choose|j: int| 0 <= j < k && v@.take(k as int)[j] == x;
                    assert(upto[j] == x);
                }
                if x == e {
                    assert(upto[k as int] == x);
                }
            }
        }
        if !holds_edge(&r, &e) {
            let ghost before = r@;
            r.push(e);
            proof {
                assert forall|x: (usize, usize, Option<u8>, isize)|
                    r@.to_set().contains(x) <==> (before.to_set().contains(x) || x == e) by {
                    if r@.to_set().contains(x) {
                        let j = choose|j: int| 0 <= j < r@.len() && r@[j] == x;
                        if j < before.len() {
                            assert(before[j] == x);
                        }
                    }
                    if before.to_set().contains(x) {
                        let j = choose|j: int| 0 <= j < before.len() && before[j] == x;
                        assert(r@[j] == x);
                    }
                    if x == e {
                        assert(r@[before.len() as int] == x);
                    }
                }
            }
        }
        assert(r@.to_set() =~= v@.take(k as int + 1).to_set());
        k += 1;
    }
    assert(v@.take(v.len() as int) =~= v@);
    r
}

/// Whether every edge of `x`, renamed by `p`, occurs in `y`.
fn all_map_into(
    x: &Vec<(usize, usize, Option<u8>, isize)>,
    y: &Vec<(usize, usize, Option<u8>, isize)>,
    p: &Vec<usize>,
) -> (r: bool)
    requires
        forall|k: int| 0 <= k < x.len() ==> (#[trigger] x@[k]).0 < p.len() && x@[k].1 < p.len(),
    ensures
        r == maps_into(x@, y@, p@),
{
    let mut k: usize = 0;
    while k < x.len()
        invariant
            k <= x.len(),
            forall|k: int| 0 <= k < x.len() ==> (#[trigger] x@[k]).0 < p.len() && x@[k].1 < p.len(),
            forall|j: int| 0 <= j < k ==> y@.contains(renamed_edge(#[trigger] x@[j], p@)),
        decreases x.len() - k,
    {
        let e = x[k];
        let image = (p[e.0], p[e.1], e.2, e.3);
        if !holds_edge(y, &image) {
            return false;
        }
        k += 1;
    }
    true
}

/// Common trait for all UTnfa, Tnfa, Tdfa
pub trait Automata {
    /// The automaton as mathematical data.
    spec fn shape(&self) -> Shape;

    /// Returns index of initial state
    fn begin(&self) -> (b: usize)
        ensures
            b == self.shape().begin,
    ;

    /// Returns number of nodes
    fn nodes(&self) -> (n: usize)
        ensures
            n == self.shape().nodes,
    ;

    /// Returns `true` if `n` is a final state
    fn is_final(&self, n: usize) -> (f: bool)
        ensures
            f == self.shape().finals.contains(n),
    ;

    /// Returns list of all edges, epsilon edges included
    fn list_edges(&self) -> (edges: Vec<(usize, usize, Option<u8>, isize)>)
        ensures
            edges@ == self.shape().edges,
    ;
}

/// Returns `true` if `x` represents the same automata as `y`: tries every
/// arrangement of the nodes until one turns `x` into `y`.
pub fn eq<A, B>(x: &A, y: &B) -> (r: bool) where A: Automata, B: Automata
    requires
        x.shape().valid(),
        y.shape().valid(),
    ensures
        r == equivalent(x.shape(), y.shape()),
{
    let ghost a = x.shape();
    let ghost b = y.shape();
    let n = x.nodes();
    if n != y.nodes() {
        return false;
    }
    let x_listed = x.list_edges();
    let y_listed = y.list_edges();
    let x_edges = without_repeats(&x_listed);
    let y_edges = without_repeats(&y_listed);
    proof {
        x_edges@.unique_seq_to_set();
        y_edges@.unique_seq_to_set();
    }
    if x_edges.len() != y_edges.len() {
        proof {
            assert forall|p: Seq<usize>| !matches_under(a, b, p) by {
                if matches_under(a, b, p) {
                    lemma_count_by_onto(a.edges, b.edges, p, n as int);
                }
            }
        }
        return false;
    }
    let x_begin = x.begin();
    let y_begin = y.begin();
    let mut candidates = permutations(n);
    loop
        invariant
            a == x.shape(),
            b == y.shape(),
            a.valid(),
            b.valid(),
            n == a.nodes,
            n == b.nodes,
            x_begin == a.begin,
            y_begin == b.begin,
            x_edges@.to_set() == a.edges.to_set(),
            y_edges@.to_set() == b.edges.to_set(),
            a.edges.to_set().len() == b.edges.to_set().len(),
            forall|k: int|
                0 <= k < pending(candidates).len() ==> is_permutation(
                    #[trigger] pending(candidates)[k],
                    n as int,
                ),
            forall|p: Seq<usize>|
                is_permutation(p, n as int) && !pending(candidates).contains(p)
                    ==> !matches_under(a, b, p),
        decreases pending(candidates).len(),
    {
        let ghost before = pending(candidates);
        match next_permutation(&mut candidates) {
            None => {
                assert forall|p: Seq<usize>| !matches_under(a, b, p) by {
                    if is_permutation(p, n as int) {
                        assert(!before.contains(p));
                    }
                }
                return false;
            },
            Some(v) => {
                assert(before[0] == v@);
                assert(is_permutation(v@, n as int));
                assert forall|k: int| 0 <= k < pending(candidates).len() implies is_permutation(
                    #[trigger] pending(candidates)[k],
                    n as int,
                ) by {
                    assert(pending(candidates)[k] == before[k + 1]);
                }
                assert forall|p: Seq<usize>|
                    is_permutation(p, n as int) && !pending(candidates).contains(p) && p
                        != v@ implies !matches_under(a, b, p) by {
                    if before.contains(p) {
                        let k = choose|k: int| 0 <= k < before.len() && before[k] == p;
                        assert(pending(candidates)[k - 1] == p);
                    }
                }
                let mut fits = v[x_begin] == y_begin;
                let mut i: usize = 0;
                while fits && i < n
                    invariant
                        i <= n,
                        a == x.shape(),
                        b == y.shape(),
                        n == a.nodes,
                        is_permutation(v@, n as int),
                        fits ==> v@[a.begin as int] == b.begin,
                        fits ==> forall|j: int|
                            0 <= j < i ==> (a.finals.contains(j as usize) <==> b.finals.contains(
                                #[trigger] v@[j],
                            )),
                        !fits ==> !matches_under(a, b, v@),
                    decreases n - i, fits as int,
                {
                    if x.is_final(i) != y.is_final(v[i]) {
                        fits = false;
                        assert(!(a.finals.contains(i as usize) <==> b.finals.contains(
                            v@[i as int],
                        )));
                    } else {
                        i += 1;
                    }
                }
                if fits {
                    proof {
                        assert forall|e: (usize, usize, Option<u8>, isize)|
                            x_edges@.contains(e) <==> a.edges.contains(e) by {
                            assert(x_edges@.to_set().contains(e) == a.edges.to_set().contains(
                                e,
                            ));
                        }
                        assert forall|e: (usize, usize, Option<u8>, isize)|
                            y_edges@.contains(e) <==> b.edges.contains(e) by {
                            assert(y_edges@.to_set().contains(e)
                                == b.edges.to_set().contains(e));
                        }
                        assert forall|k: int| 0 <= k < x_edges@.len() implies (
                        #[trigger] x_edges@[k]).0 < v.len() && x_edges@[k].1
                            < v.len() by {
                            assert(a.edges.contains(x_edges@[k]));
                        }
                    }
                    if all_map_into(&x_edges, &y_edges, &v) {
                        proof {
                            assert forall|k: int| 0 <= k < a.edges.len() implies b.edges.contains(
                                renamed_edge(#[trigger] a.edges[k], v@),
                            ) by {
                                assert(x_edges@.contains(a.edges[k]));
                                let j = choose|j: int|
                                    0 <= j < x_edges@.len() && x_edges@[j] == a.edges[k];
                                assert(y_edges@.contains(
                                    renamed_edge(x_edges@[j], v@),
                                ));
                            }
                            lemma_onto_by_count(a.edges, b.edges, v@, n as int);
                            assert(matches_under(a, b, v@));
                        }
                        return true;
                    } else {
                        proof {
                            if maps_into(a.edges, b.edges, v@) {
                                assert forall|k: int|
                                    0 <= k < x_edges@.len() implies y_edges@.contains(
                                    renamed_edge(#[trigger] x_edges@[k], v@),
                                ) by {
                                    assert(a.edges.contains(x_edges@[k]));
                                    let j = choose|j: int|
                                        0 <= j < a.edges.len() && a.edges[j] == x_edges@[k];
                                    assert(b.edges.contains(renamed_edge(a.edges[j], v@)));
                                }
                            }
                        }
                    }
                }
                assert(!matches_under(a, b, v@));
            },
        }
    }
}

/// Whether the entry node and every edge endpoint of `x` are nodes of `x`.
pub fn is_valid<A>(x: &A) -> (r: bool) where A: Automata
    ensures
        r == x.shape().valid(),
{
    let n = x.nodes();
    if x.begin() >= n {
        return false;
    }
    let edges = x.list_edges();
    let mut k: usize = 0;
    while k < edges.len()
        invariant
            k <= edges.len(),
            edges@ == x.shape().edges,
            n == x.shape().nodes,
            forall|j: int| 0 <= j < k ==> (#[trigger] edges@[j]).0 < n && edges@[j].1 < n,
        decreases edges.len() - k,
    {
        if edges[k].0 >= n || edges[k].1 >= n {
            return false;
        }
        k += 1;
    }
    true
}

/// Generic implementation of Automata
#[derive(Debug)]
pub struct SimpleAutomata {
    pub begin: usize,
    pub nodes: usize,
    pub finals: HashSet<usize>,
    pub edges: Vec<(usize, usize, Option<u8>, isize)>,
}

impl Automata for SimpleAutomata {
    open spec fn shape(&self) -> Shape {
        Shape { nodes: self.nodes, begin: self.begin, finals: self.finals@, edges: self.edges@ }
    }

    fn begin(&self) -> (b: usize) {
        self.begin
    }

    fn nodes(&self) -> (n: usize) {
        self.nodes
    }

    fn is_final(&self, n: usize) -> (f: bool) {
        self.finals.contains(&n)
    }

    fn list_edges(&self) -> (edges: Vec<(usize, usize, Option<u8>, isize)>) {
        let mut out: Vec<(usize, usize, Option<u8>, isize)> = Vec::new();
        let mut k: usize = 0;
        while k < self.edges.len()
            invariant
                k <= self.edges.len(),
                out@ == self.edges@.take(k as int),
            decreases self.edges.len() - k,
        {
            out.push(self.edges[k]);
            assert(out@ =~= self.edges@.take(k as int + 1));
            k += 1;
        }
        assert(out@ =~= self.edges@);
        out
    }
}

impl<T: Automata> PartialEq<T> for SimpleAutomata {
    /// Whether both automata are valid and have the same shape.
    fn eq(&self, other: &T) -> (r: bool) {
        is_valid(self) && is_valid(other) && crate::automata::eq(self, other)
    }
}

impl<T: Automata> vstd::std_specs::cmp::PartialEqSpecImpl<T> for SimpleAutomata {
    open spec fn obeys_eq_spec() -> bool {
        true
    }

    open spec fn eq_spec(&self, other: &T) -> bool {
        self.shape().valid() && other.shape().valid() && equivalent(self.shape(), other.shape())
    }
}

} // verus!
