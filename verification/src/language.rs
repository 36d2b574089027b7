//! What a fragment accepts, and what each combinator does to it.
//!
//! A fragment reads a byte string along a walk: an epsilon edge reads
//! nothing, a byte edge reads one byte of its set.  It accepts the strings
//! that can be read on a walk from its entry to its exit.  Tags play no
//! part in this.

use crate::utnfa::Nfa;
use vstd::prelude::*;

verus! {

impl Nfa {
    /// There is an epsilon edge from `p` to `q`.
    pub open spec fn has_eps(self, p: int, q: int) -> bool {
        exists|k: int|
            0 <= k < self.eps.len() && (#[trigger] self.eps[k]).0 == p && self.eps[k].1 == q
    }

    /// There is a byte edge from `p` to `q` that reads `b`.
    pub open spec fn has_byte(self, p: int, q: int, b: u8) -> bool {
        exists|k: int|
            0 <= k < self.edges.len() && (#[trigger] self.edges[k]).0 == p && self.edges[k].1 == q
                && self.edges[k].2.contains(b)
    }

    /// `w` can be read on a walk of `n` edges from `p` to `q`.
    pub open spec fn walks(self, p: int, q: int, w: Seq<u8>, n: nat) -> bool
        decreases n,
    {
        if n == 0 {
            p == q && w.len() == 0
        } else {
            ||| exists|r: int| #[trigger] self.has_eps(p, r) && self.walks(r, q, w, (n - 1) as nat)
            ||| w.len() > 0 && exists|r: int| #[trigger]
                self.has_byte(p, r, w[0]) && self.walks(r, q, w.drop_first(), (n - 1) as nat)
        }
    }

    /// `w` can be read on some walk from `p` to `q`.
    pub open spec fn reads(self, p: int, q: int, w: Seq<u8>) -> bool {
        exists|n: nat| self.walks(p, q, w, n)
    }

    /// `w` can be read on some walk from the entry to the exit.
    pub open spec fn accepts(self, w: Seq<u8>) -> bool {
        self.reads(self.begin, self.end, w)
    }

    /// The strings that the fragment accepts.
    pub open spec fn language(self) -> Set<Seq<u8>> {
        Set::new(|w: Seq<u8>| self.accepts(w))
    }

    /// `w` is made of `k` strings, one after the other, that the fragment
    /// accepts.
    pub open spec fn repeats(self, w: Seq<u8>, k: nat) -> bool
        decreases k,
    {
        if k == 0 {
            w.len() == 0
        } else {
            exists|u: Seq<u8>, v: Seq<u8>|
                self.accepts(u) && self.repeats(v, (k - 1) as nat) && w == #[trigger] (u + v)
        }
    }
}

/// A walk can be entered by an epsilon edge.
pub proof fn lemma_walk_eps(g: Nfa, p: int, r: int, q: int, w: Seq<u8>, n: nat)
    requires
        g.has_eps(p, r),
        g.walks(r, q, w, n),
    ensures
        g.walks(p, q, w, n + 1),
{
}

/// A walk can be entered by a byte edge, which reads one byte more.
pub proof fn lemma_walk_byte(g: Nfa, p: int, r: int, q: int, b: u8, w: Seq<u8>, n: nat)
    requires
        g.has_byte(p, r, b),
        g.walks(r, q, w, n),
    ensures
        g.walks(p, q, seq![b] + w, n + 1),
{
    let bw = seq![b] + w;
    assert(bw[0] == b);
    assert(bw.drop_first() =~= w);
}

/// Two walks that meet can be joined.
pub proof fn lemma_walk_join(
    g: Nfa,
    p: int,
    q: int,
    r: int,
    u: Seq<u8>,
    v: Seq<u8>,
    n: nat,
    m: nat,
)
    requires
        g.walks(p, q, u, n),
        g.walks(q, r, v, m),
    ensures
        g.walks(p, r, u + v, n + m),
    decreases n,
{
    if n == 0 {
        assert(u + v =~= v);
    } else {
        let k = (n - 1) as nat;
        if exists|x: int| #[trigger] g.has_eps(p, x) && g.walks(x, q, u, k) {
            let x = choose|x: int| #[trigger] g.has_eps(p, x) && g.walks(x, q, u, k);
            lemma_walk_join(g, x, q, r, u, v, k, m);
            lemma_walk_eps(g, p, x, r, u + v, k + m);
        } else {
            let x = choose|x: int| #[trigger]
                g.has_byte(p, x, u[0]) && g.walks(x, q, u.drop_first(), k);
            lemma_walk_join(g, x, q, r, u.drop_first(), v, k, m);
            lemma_walk_byte(g, p, x, r, u[0], u.drop_first() + v, k + m);
            assert(seq![u[0]] + (u.drop_first() + v) =~= u + v);
        }
    }
}

/// Where every edge of `g`, moved up by `k`, is an edge of `h`, every
/// walk of `g`, moved up by `k`, is a walk of `h`.
pub proof fn lemma_walk_into(g: Nfa, h: Nfa, k: int, p: int, q: int, w: Seq<u8>, n: nat)
    requires
        forall|x: int, y: int| #[trigger] g.has_eps(x, y) ==> h.has_eps(x + k, y + k),
        forall|x: int, y: int, b: u8| #[trigger] g.has_byte(x, y, b) ==> h.has_byte(x + k, y + k, b),
        g.walks(p, q, w, n),
    ensures
        h.walks(p + k, q + k, w, n),
    decreases n,
{
    if n > 0 {
        let m = (n - 1) as nat;
        if exists|x: int| #[trigger] g.has_eps(p, x) && g.walks(x, q, w, m) {
            let x = choose|x: int| #[trigger] g.has_eps(p, x) && g.walks(x, q, w, m);
            lemma_walk_into(g, h, k, x, q, w, m);
            lemma_walk_eps(h, p + k, x + k, q + k, w, m);
        } else {
            let x = choose|x: int| #[trigger]
                g.has_byte(p, x, w[0]) && g.walks(x, q, w.drop_first(), m);
            lemma_walk_into(g, h, k, x, q, w.drop_first(), m);
            lemma_walk_byte(h, p + k, x + k, q + k, w[0], w.drop_first(), m);
            assert(seq![w[0]] + w.drop_first() =~= w);
        }
    }
}

/// The nodes of `g` where they stand in a larger graph, `k` places up.
pub open spec fn inside(g: Nfa, k: int, p: int) -> bool {
    k <= p < k + g.nodes
}

/// Every edge of `h` that leaves the place of `g` is an edge of `g`
/// moved up by `k`, but for the one epsilon edge from `ef` to `et`.
pub open spec fn leaves_by(g: Nfa, h: Nfa, k: int, ef: int, et: int) -> bool {
    &&& forall|x: int, y: int|
        inside(g, k, x) && #[trigger] h.has_eps(x, y) ==> (g.has_eps(x - k, y - k) || (x == ef && y
            == et))
    &&& forall|x: int, y: int, b: u8|
        inside(g, k, x) && #[trigger] h.has_byte(x, y, b) ==> g.has_byte(x - k, y - k, b)
}

/// Every edge of `h` that leaves the place of `g` is an edge of `g`
/// moved up by `k`.
pub open spec fn stays_in(g: Nfa, h: Nfa, k: int) -> bool {
    &&& forall|x: int, y: int|
        inside(g, k, x) && #[trigger] h.has_eps(x, y) ==> g.has_eps(x - k, y - k)
    &&& forall|x: int, y: int, b: u8|
        inside(g, k, x) && #[trigger] h.has_byte(x, y, b) ==> g.has_byte(x - k, y - k, b)
}

/// The targets of the edges of a well-formed fragment are its nodes.
pub proof fn lemma_edge_targets(g: Nfa, p: int, q: int)
    requires
        g.wf(),
    ensures
        g.has_eps(p, q) ==> 0 <= p < g.nodes && 0 <= q < g.nodes,
        forall|b: u8| g.has_byte(p, q, b) ==> 0 <= p < g.nodes && 0 <= q < g.nodes,
{
}

/// A walk of `h` that starts in the place of `g` and ends outside it
/// leaves by the one edge that leads out: it is a walk of `g` to the
/// source of that edge, the edge, and a walk of `h` from its target.
pub proof fn lemma_walk_out(
    g: Nfa,
    h: Nfa,
    k: int,
    ef: int,
    et: int,
    p: int,
    q: int,
    w: Seq<u8>,
    n: nat,
) -> (cut: (Seq<u8>, Seq<u8>, nat, nat))
    requires
        g.wf(),
        leaves_by(g, h, k, ef, et),
        inside(g, k, p),
        !inside(g, k, q),
        h.walks(p, q, w, n),
    ensures
        w == cut.0 + cut.1,
        g.walks(p - k, ef - k, cut.0, cut.2),
        h.walks(et, q, cut.1, cut.3),
        cut.2 + cut.3 + 1 == n,
    decreases n,
{
    let m = (n - 1) as nat;
    if exists|x: int| #[trigger] h.has_eps(p, x) && h.walks(x, q, w, m) {
        let x = choose|x: int| #[trigger] h.has_eps(p, x) && h.walks(x, q, w, m);
        if g.has_eps(p - k, x - k) {
            lemma_edge_targets(g, p - k, x - k);
            let cut = lemma_walk_out(g, h, k, ef, et, x, q, w, m);
            lemma_walk_eps(g, p - k, x - k, ef - k, cut.0, cut.2);
            (cut.0, cut.1, cut.2 + 1, cut.3)
        } else {
            assert(Seq::<u8>::empty() + w =~= w);
            (Seq::empty(), w, 0, m)
        }
    } else {
        let x = choose|x: int| #[trigger]
            h.has_byte(p, x, w[0]) && h.walks(x, q, w.drop_first(), m);
        lemma_edge_targets(g, p - k, x - k);
        let cut = lemma_walk_out(g, h, k, ef, et, x, q, w.drop_first(), m);
        lemma_walk_byte(g, p - k, x - k, ef - k, w[0], cut.0, cut.2);
        assert(w =~= seq![w[0]] + w.drop_first());
        assert((seq![w[0]] + cut.0) + cut.1 =~= seq![w[0]] + (cut.0 + cut.1));
        (seq![w[0]] + cut.0, cut.1, cut.2 + 1, cut.3)
    }
}

/// A walk of `h` that starts in the place of `g`, where no edge leads
/// out of it, is a walk of `g`.
pub proof fn lemma_walk_within(g: Nfa, h: Nfa, k: int, p: int, q: int, w: Seq<u8>, n: nat)
    requires
        g.wf(),
        stays_in(g, h, k),
        inside(g, k, p),
        h.walks(p, q, w, n),
    ensures
        inside(g, k, q),
        g.walks(p - k, q - k, w, n),
    decreases n,
{
    if n > 0 {
        let m = (n - 1) as nat;
        if exists|x: int| #[trigger] h.has_eps(p, x) && h.walks(x, q, w, m) {
            let x = choose|x: int| #[trigger] h.has_eps(p, x) && h.walks(x, q, w, m);
            lemma_edge_targets(g, p - k, x - k);
            lemma_walk_within(g, h, k, x, q, w, m);
            lemma_walk_eps(g, p - k, x - k, q - k, w, m);
        } else {
            let x = choose|x: int| #[trigger]
                h.has_byte(p, x, w[0]) && h.walks(x, q, w.drop_first(), m);
            lemma_edge_targets(g, p - k, x - k);
            lemma_walk_within(g, h, k, x, q, w.drop_first(), m);
            lemma_walk_byte(g, p - k, x - k, q - k, w[0], w.drop_first(), m);
            assert(seq![w[0]] + w.drop_first() =~= w);
        }
    }
}

/// A walk from a node that no edge leaves goes nowhere and reads nothing.
pub proof fn lemma_walk_stuck(h: Nfa, t: int, q: int, w: Seq<u8>, n: nat)
    requires
        forall|y: int| !#[trigger] h.has_eps(t, y),
        forall|y: int, b: u8| !#[trigger] h.has_byte(t, y, b),
        h.walks(t, q, w, n),
    ensures
        n == 0,
        q == t,
        w.len() == 0,
{
}

/// Two graphs with the same edges have the same edges between any two
/// nodes.
pub proof fn lemma_same_edges(g: Nfa, h: Nfa)
    requires
        g.eps == h.eps,
        g.edges == h.edges,
    ensures
        forall|x: int, y: int| #[trigger] g.has_eps(x, y) <==> h.has_eps(x, y),
        forall|x: int, y: int| #[trigger] h.has_eps(x, y) <==> g.has_eps(x, y),
        forall|x: int, y: int, c: u8| #[trigger] g.has_byte(x, y, c) <==> h.has_byte(x, y, c),
        forall|x: int, y: int, c: u8| #[trigger] h.has_byte(x, y, c) <==> g.has_byte(x, y, c),
{
    assert forall|x: int, y: int| g.has_eps(x, y) <==> h.has_eps(x, y) by {
        if g.has_eps(x, y) {
            let k = choose|k: int|
                0 <= k < g.eps.len() && (#[trigger] g.eps[k]).0 == x && g.eps[k].1 == y;
            assert(h.eps[k] == g.eps[k]);
        }
        if h.has_eps(x, y) {
            let k = choose|k: int|
                0 <= k < h.eps.len() && (#[trigger] h.eps[k]).0 == x && h.eps[k].1 == y;
            assert(h.eps[k] == g.eps[k]);
        }
    }
    assert forall|x: int, y: int, c: u8| g.has_byte(x, y, c) <==> h.has_byte(x, y, c) by {
        if g.has_byte(x, y, c) {
            let k = choose|k: int|
                0 <= k < g.edges.len() && (#[trigger] g.edges[k]).0 == x && g.edges[k].1 == y
                    && g.edges[k].2.contains(c);
            assert(h.edges[k] == g.edges[k]);
        }
        if h.has_byte(x, y, c) {
            let k = choose|k: int|
                0 <= k < h.edges.len() && (#[trigger] h.edges[k]).0 == x && h.edges[k].1 == y
                    && h.edges[k].2.contains(c);
            assert(h.edges[k] == g.edges[k]);
        }
    }
}

/// The edges of two graphs side by side are those of the first and those
/// of the second moved up.
pub proof fn lemma_merged_edges(a: Nfa, b: Nfa)
    ensures
        forall|x: int, y: int| #[trigger]
            a.merged(b).has_eps(x, y) <==> (a.has_eps(x, y) || b.has_eps(x - a.nodes, y - a.nodes)),
        forall|x: int, y: int, c: u8| #[trigger]
            a.merged(b).has_byte(x, y, c) <==> (a.has_byte(x, y, c) || b.has_byte(
                x - a.nodes,
                y - a.nodes,
                c,
            )),
{
    let m = a.merged(b);
    let na = a.nodes;
    assert forall|x: int, y: int| #[trigger]
        m.has_eps(x, y) <==> (a.has_eps(x, y) || b.has_eps(x - na, y - na)) by {
        if m.has_eps(x, y) {
            let k = choose|k: int|
                0 <= k < m.eps.len() && (#[trigger] m.eps[k]).0 == x && m.eps[k].1 == y;
            if k < a.eps.len() {
                assert(a.eps[k] == m.eps[k]);
            } else {
                let j = k - a.eps.len();
                assert(b.eps[j].0 == x - na && b.eps[j].1 == y - na);
            }
        }
        if a.has_eps(x, y) {
            let k = choose|k: int|
                0 <= k < a.eps.len() && (#[trigger] a.eps[k]).0 == x && a.eps[k].1 == y;
            assert(m.eps[k] == a.eps[k]);
        }
        if b.has_eps(x - na, y - na) {
            let j = choose|j: int|
                0 <= j < b.eps.len() && (#[trigger] b.eps[j]).0 == x - na && b.eps[j].1 == y - na;
            assert(m.eps[a.eps.len() + j].0 == x && m.eps[a.eps.len() + j].1 == y);
        }
    }
    assert forall|x: int, y: int, c: u8| #[trigger]
        m.has_byte(x, y, c) <==> (a.has_byte(x, y, c) || b.has_byte(x - na, y - na, c)) by {
        if m.has_byte(x, y, c) {
            let k = choose|k: int|
                0 <= k < m.edges.len() && (#[trigger] m.edges[k]).0 == x && m.edges[k].1 == y
                    && m.edges[k].2.contains(c);
            if k < a.edges.len() {
                assert(a.edges[k] == m.edges[k]);
            } else {
                let j = k - a.edges.len();
                assert(b.edges[j].0 == x - na && b.edges[j].1 == y - na && b.edges[j].2.contains(c));
            }
        }
        if a.has_byte(x, y, c) {
            let k = choose|k: int|
                0 <= k < a.edges.len() && (#[trigger] a.edges[k]).0 == x && a.edges[k].1 == y
                    && a.edges[k].2.contains(c);
            assert(m.edges[k] == a.edges[k]);
        }
        if b.has_byte(x - na, y - na, c) {
            let j = choose|j: int|
                0 <= j < b.edges.len() && (#[trigger] b.edges[j]).0 == x - na && b.edges[j].1 == y
                    - na && b.edges[j].2.contains(c);
            let k = a.edges.len() + j;
            assert(m.edges[k].0 == x && m.edges[k].1 == y && m.edges[k].2.contains(c));
        }
    }
}

/// One more epsilon edge: the edges are those there were, and the new one.
pub proof fn lemma_linked_edges(g: Nfa, from: int, to: int)
    ensures
        forall|x: int, y: int| #[trigger]
            g.linked(from, to).has_eps(x, y) <==> (g.has_eps(x, y) || (x == from && y == to)),
        forall|x: int, y: int, c: u8| #[trigger]
            g.linked(from, to).has_byte(x, y, c) <==> g.has_byte(x, y, c),
{
    let l = g.linked(from, to);
    assert forall|x: int, y: int| #[trigger]
        l.has_eps(x, y) <==> (g.has_eps(x, y) || (x == from && y == to)) by {
        if l.has_eps(x, y) {
            let k = choose|k: int|
                0 <= k < l.eps.len() && (#[trigger] l.eps[k]).0 == x && l.eps[k].1 == y;
            if k < g.eps.len() {
                assert(g.eps[k] == l.eps[k]);
            }
        }
        if g.has_eps(x, y) {
            let k = choose|k: int|
                0 <= k < g.eps.len() && (#[trigger] g.eps[k]).0 == x && g.eps[k].1 == y;
            assert(l.eps[k] == g.eps[k]);
        }
        if x == from && y == to {
            assert(l.eps[g.eps.len() as int] == (from, to, -1int));
        }
    }
    assert forall|x: int, y: int, c: u8| #[trigger]
        l.has_byte(x, y, c) <==> g.has_byte(x, y, c) by {
        if l.has_byte(x, y, c) {
            let k = choose|k: int|
                0 <= k < l.edges.len() && (#[trigger] l.edges[k]).0 == x && l.edges[k].1 == y
                    && l.edges[k].2.contains(c);
            assert(g.edges[k] == l.edges[k]);
        }
        if g.has_byte(x, y, c) {
            let k = choose|k: int|
                0 <= k < g.edges.len() && (#[trigger] g.edges[k]).0 == x && g.edges[k].1 == y
                    && g.edges[k].2.contains(c);
            assert(g.edges[k] == l.edges[k]);
        }
    }
}

/// The edges of a concatenation: those of the two parts, and the
/// epsilon edge from the exit of the first to the entry of the second.
pub proof fn lemma_concat_edges(a: Nfa, b: Nfa)
    ensures
        forall|x: int, y: int| #[trigger]
            a.concat(b).has_eps(x, y) <==> (a.has_eps(x, y) || b.has_eps(x - a.nodes, y - a.nodes)
                || (x == a.end && y == b.begin + a.nodes)),
        forall|x: int, y: int, c: u8| #[trigger]
            a.concat(b).has_byte(x, y, c) <==> (a.has_byte(x, y, c) || b.has_byte(
                x - a.nodes,
                y - a.nodes,
                c,
            )),
{
    let m = a.merged(b);
    let l = m.linked(a.end, b.begin + a.nodes);
    let h = a.concat(b);
    lemma_merged_edges(a, b);
    lemma_linked_edges(m, a.end, b.begin + a.nodes);
    lemma_same_edges(h, l);
    assert forall|x: int, y: int, c: u8| #[trigger]
        h.has_byte(x, y, c) <==> (a.has_byte(x, y, c) || b.has_byte(x - a.nodes, y - a.nodes, c)) by {
        assert(h.has_byte(x, y, c) <==> l.has_byte(x, y, c));
        assert(l.has_byte(x, y, c) <==> m.has_byte(x, y, c));
    }
    assert forall|x: int, y: int| #[trigger]
        h.has_eps(x, y) <==> (a.has_eps(x, y) || b.has_eps(x - a.nodes, y - a.nodes) || (x == a.end
            && y == b.begin + a.nodes)) by {
        assert(h.has_eps(x, y) <==> l.has_eps(x, y));
        assert(l.has_eps(x, y) <==> (m.has_eps(x, y) || (x == a.end && y == b.begin + a.nodes)));
    }
}

/// The edges of a union: those of the two parts, an epsilon edge from
/// the new entry to each old entry, and one from each old exit to the
/// new exit.
pub proof fn lemma_union_edges(a: Nfa, b: Nfa)
    ensures
        forall|x: int, y: int| #[trigger]
            a.union(b).has_eps(x, y) <==> (a.has_eps(x, y) || b.has_eps(x - a.nodes, y - a.nodes)
                || (x == a.nodes + b.nodes && y == a.begin) || (x == a.nodes + b.nodes && y
                == b.begin + a.nodes) || (x == a.end && y == a.nodes + b.nodes + 1) || (x == b.end
                + a.nodes && y == a.nodes + b.nodes + 1)),
        forall|x: int, y: int, c: u8| #[trigger]
            a.union(b).has_byte(x, y, c) <==> (a.has_byte(x, y, c) || b.has_byte(
                x - a.nodes,
                y - a.nodes,
                c,
            )),
{
    let m = a.merged(b);
    let s = a.nodes + b.nodes;
    let t = s + 1;
    let l1 = m.linked(s, a.begin);
    let front = m.prepended();
    let l2 = front.linked(s, b.begin + a.nodes);
    let l3 = l2.linked(a.end, t);
    let back = l2.appended();
    let h = a.union(b);
    assert(h == back.linked(b.end + a.nodes, t));
    lemma_merged_edges(a, b);
    lemma_linked_edges(m, s, a.begin);
    lemma_linked_edges(front, s, b.begin + a.nodes);
    lemma_linked_edges(l2, a.end, t);
    lemma_linked_edges(back, b.end + a.nodes, t);
    lemma_same_edges(back, l3);
    lemma_same_edges(front, l1);
    assert forall|x: int, y: int, c: u8| #[trigger]
        h.has_byte(x, y, c) <==> (a.has_byte(x, y, c) || b.has_byte(x - a.nodes, y - a.nodes, c)) by {
        assert(h.has_byte(x, y, c) <==> back.has_byte(x, y, c));
        assert(back.has_byte(x, y, c) <==> l3.has_byte(x, y, c));
        assert(l3.has_byte(x, y, c) <==> l2.has_byte(x, y, c));
        assert(l2.has_byte(x, y, c) <==> front.has_byte(x, y, c));
        assert(front.has_byte(x, y, c) <==> l1.has_byte(x, y, c));
        assert(l1.has_byte(x, y, c) <==> m.has_byte(x, y, c));
    }
    assert forall|x: int, y: int| #[trigger]
        h.has_eps(x, y) <==> (a.has_eps(x, y) || b.has_eps(x - a.nodes, y - a.nodes) || (x == s
            && y == a.begin) || (x == s && y == b.begin + a.nodes) || (x == a.end && y == t) || (x
            == b.end + a.nodes && y == t)) by {
        assert(h.has_eps(x, y) <==> (back.has_eps(x, y) || (x == b.end + a.nodes && y == t)));
        assert(back.has_eps(x, y) <==> l3.has_eps(x, y));
        assert(l3.has_eps(x, y) <==> (l2.has_eps(x, y) || (x == a.end && y == t)));
        assert(l2.has_eps(x, y) <==> (front.has_eps(x, y) || (x == s && y == b.begin + a.nodes)));
        assert(front.has_eps(x, y) <==> l1.has_eps(x, y));
        assert(l1.has_eps(x, y) <==> (m.has_eps(x, y) || (x == s && y == a.begin)));
    }
}

/// The edges of a repetition: those of the fragment, an epsilon edge from
/// the new entry to the old one, one from the old exit to the new one,
/// and one from the new exit back to the new entry.
pub proof fn lemma_kleene_edges(a: Nfa)
    ensures
        forall|x: int, y: int| #[trigger]
            a.kleene().has_eps(x, y) <==> (a.has_eps(x, y) || (x == a.nodes && y == a.begin) || (x
                == a.end && y == a.nodes + 1) || (x == a.nodes + 1 && y == a.nodes)),
        forall|x: int, y: int, c: u8| #[trigger]
            a.kleene().has_byte(x, y, c) <==> a.has_byte(x, y, c),
{
    let s = a.nodes;
    let t = s + 1;
    let l1 = a.linked(s, a.begin);
    let front = a.prepended();
    let l2 = front.linked(a.end, t);
    let around = front.appended();
    let l3 = around.linked(t, s);
    let h = a.kleene();
    lemma_linked_edges(a, s, a.begin);
    lemma_linked_edges(front, a.end, t);
    lemma_linked_edges(around, t, s);
    lemma_same_edges(h, l3);
    lemma_same_edges(around, l2);
    lemma_same_edges(front, l1);
    assert forall|x: int, y: int, c: u8| #[trigger]
        h.has_byte(x, y, c) <==> a.has_byte(x, y, c) by {
        assert(h.has_byte(x, y, c) <==> l3.has_byte(x, y, c));
        assert(l3.has_byte(x, y, c) <==> around.has_byte(x, y, c));
        assert(around.has_byte(x, y, c) <==> l2.has_byte(x, y, c));
        assert(l2.has_byte(x, y, c) <==> front.has_byte(x, y, c));
        assert(front.has_byte(x, y, c) <==> l1.has_byte(x, y, c));
    }
    assert forall|x: int, y: int| #[trigger]
        h.has_eps(x, y) <==> (a.has_eps(x, y) || (x == s && y == a.begin) || (x == a.end && y == t)
            || (x == t && y == s)) by {
        assert(h.has_eps(x, y) <==> l3.has_eps(x, y));
        assert(l3.has_eps(x, y) <==> (around.has_eps(x, y) || (x == t && y == s)));
        assert(around.has_eps(x, y) <==> l2.has_eps(x, y));
        assert(l2.has_eps(x, y) <==> (front.has_eps(x, y) || (x == a.end && y == t)));
        assert(front.has_eps(x, y) <==> l1.has_eps(x, y));
    }
}

/// The empty fragment accepts the empty string and nothing else.
pub proof fn lemma_empty_language(w: Seq<u8>)
    ensures
        Nfa::empty().accepts(w) <==> w.len() == 0,
{
    let g = Nfa::empty();
    if g.accepts(w) {
        let n = choose|n: nat| g.walks(0, 0, w, n);
        lemma_walk_stuck(g, 0, 0, w, n);
    }
    if w.len() == 0 {
        assert(g.walks(0, 0, w, 0));
    }
}

/// A tag fragment accepts the empty string and nothing else.
pub proof fn lemma_tag_language(tag: int, w: Seq<u8>)
    ensures
        Nfa::tag(tag).accepts(w) <==> w.len() == 0,
{
    let g = Nfa::tag(tag);
    assert forall|y: int| !#[trigger] g.has_eps(1, y) by {}
    if g.accepts(w) {
        let n = choose|n: nat| g.walks(0, 1, w, n);
        let m = (n - 1) as nat;
        let x = choose|x: int| #[trigger] g.has_eps(0, x) && g.walks(x, 1, w, m);
        lemma_walk_stuck(g, 1, 1, w, m);
    }
    if w.len() == 0 {
        assert(g.walks(1, 1, w, 0));
        assert(g.eps[0] == (0int, 1int, tag));
        lemma_walk_eps(g, 0, 1, 1, w, 0);
    }
}

/// A charset fragment accepts the strings of one byte out of the set,
/// and nothing else.
pub proof fn lemma_charset_language(c: Set<u8>, w: Seq<u8>)
    ensures
        Nfa::charset(c).accepts(w) <==> (w.len() == 1 && c.contains(w[0])),
{
    let g = Nfa::charset(c);
    assert forall|y: int, b: u8| !#[trigger] g.has_byte(1, y, b) by {}
    if g.accepts(w) {
        let n = choose|n: nat| g.walks(0, 1, w, n);
        let m = (n - 1) as nat;
        let x = choose|x: int| #[trigger]
            g.has_byte(0, x, w[0]) && g.walks(x, 1, w.drop_first(), m);
        lemma_walk_stuck(g, 1, 1, w.drop_first(), m);
    }
    if w.len() == 1 && c.contains(w[0]) {
        assert(g.walks(1, 1, w.drop_first(), 0));
        assert(g.edges[0] == (0int, 1int, c));
        lemma_walk_byte(g, 0, 1, 1, w[0], w.drop_first(), 0);
        assert(seq![w[0]] + w.drop_first() =~= w);
    }
}

/// In a graph that holds `g` at its own place, nothing but the one edge
/// from `ef` to `et` leads out of `g`, provided that every other edge of
/// the graph that starts among the nodes of `g` is an edge of `g`.
proof fn lemma_leaves_by(g: Nfa, h: Nfa, k: int, ef: int, et: int)
    requires
        forall|x: int, y: int|
            inside(g, k, x) && #[trigger] h.has_eps(x, y) ==> (g.has_eps(x - k, y - k) || (x == ef
                && y == et)),
        forall|x: int, y: int, b: u8|
            inside(g, k, x) && #[trigger] h.has_byte(x, y, b) ==> g.has_byte(x - k, y - k, b),
    ensures
        leaves_by(g, h, k, ef, et),
{
}

/// A concatenation accepts exactly the strings made of a string that
/// the first fragment accepts followed by one that the second accepts.
pub proof fn lemma_concat_language(a: Nfa, b: Nfa, w: Seq<u8>)
    requires
        a.wf(),
        b.wf(),
    ensures
        a.concat(b).accepts(w) <==> exists|u: Seq<u8>, v: Seq<u8>| #[trigger]
            a.accepts(u) && #[trigger] b.accepts(v) && w == u + v,
{
    let h = a.concat(b);
    let na = a.nodes;
    lemma_concat_edges(a, b);
    if h.accepts(w) {
        let n = choose|n: nat| h.walks(h.begin, h.end, w, n);
        assert forall|x: int, y: int| inside(a, 0, x) && #[trigger] h.has_eps(x, y) implies (
        a.has_eps(x - 0, y - 0) || (x == a.end && y == b.begin + na)) by {
            lemma_edge_targets(b, x - na, y - na);
        }
        assert forall|x: int, y: int, c: u8| inside(a, 0, x) && #[trigger] h.has_byte(
            x,
            y,
            c,
        ) implies a.has_byte(x - 0, y - 0, c) by {
            lemma_edge_targets(b, x - na, y - na);
        }
        lemma_leaves_by(a, h, 0, a.end, b.begin + na);
        let cut = lemma_walk_out(a, h, 0, a.end, b.begin + na, a.begin, b.end + na, w, n);
        assert forall|x: int, y: int| inside(b, na, x) && #[trigger] h.has_eps(
            x,
            y,
        ) implies b.has_eps(x - na, y - na) by {
            lemma_edge_targets(a, x, y);
        }
        assert forall|x: int, y: int, c: u8| inside(b, na, x) && #[trigger] h.has_byte(
            x,
            y,
            c,
        ) implies b.has_byte(x - na, y - na, c) by {
            lemma_edge_targets(a, x, y);
        }
        lemma_walk_within(b, h, na, b.begin + na, b.end + na, cut.1, cut.3);
        assert(a.walks(a.begin, a.end, cut.0, cut.2));
        assert(b.walks(b.begin, b.end, cut.1, cut.3));
        assert(a.accepts(cut.0) && b.accepts(cut.1) && w == cut.0 + cut.1);
    }
    if exists|u: Seq<u8>, v: Seq<u8>| #[trigger] a.accepts(u) && #[trigger] b.accepts(v) && w == u + v {
        let (u, v) = choose|u: Seq<u8>, v: Seq<u8>| #[trigger]
            a.accepts(u) && #[trigger] b.accepts(v) && w == u + v;
        let n = choose|n: nat| a.walks(a.begin, a.end, u, n);
        let m = choose|m: nat| b.walks(b.begin, b.end, v, m);
        lemma_walk_into(a, h, 0, a.begin, a.end, u, n);
        lemma_walk_into(b, h, na, b.begin, b.end, v, m);
        lemma_walk_eps(h, a.end, b.begin + na, b.end + na, v, m);
        lemma_walk_join(h, a.begin, a.end, b.end + na, u, v, n, m + 1);
    }
}

/// A union accepts exactly the strings that one of the two fragments
/// accepts.
pub proof fn lemma_union_language(a: Nfa, b: Nfa, w: Seq<u8>)
    requires
        a.wf(),
        b.wf(),
    ensures
        a.union(b).accepts(w) <==> (a.accepts(w) || b.accepts(w)),
{
    let h = a.union(b);
    let na = a.nodes;
    let s = a.nodes + b.nodes;
    let t = s + 1;
    lemma_union_edges(a, b);
    assert(h.begin == s && h.end == t);
    assert forall|x: int, y: int| #[trigger] h.has_eps(x, y) implies x != t by {
        lemma_edge_targets(a, x, y);
        lemma_edge_targets(b, x - na, y - na);
    }
    assert forall|x: int, y: int, c: u8| #[trigger] h.has_byte(x, y, c) implies x < s by {
        lemma_edge_targets(a, x, y);
        lemma_edge_targets(b, x - na, y - na);
    }
    if h.accepts(w) {
        let n = choose|n: nat| h.walks(s, t, w, n);
        let m = (n - 1) as nat;
        let x = choose|x: int| #[trigger] h.has_eps(s, x) && h.walks(x, t, w, m);
        lemma_edge_targets(a, s, x);
        lemma_edge_targets(b, s - na, x - na);
        if x == a.begin {
            assert forall|x: int, y: int| inside(a, 0, x) && #[trigger] h.has_eps(x, y) implies (
            a.has_eps(x - 0, y - 0) || (x == a.end && y == t)) by {
                lemma_edge_targets(b, x - na, y - na);
            }
            assert forall|x: int, y: int, c: u8| inside(a, 0, x) && #[trigger] h.has_byte(
                x,
                y,
                c,
            ) implies a.has_byte(x - 0, y - 0, c) by {
                lemma_edge_targets(b, x - na, y - na);
            }
            lemma_leaves_by(a, h, 0, a.end, t);
            let cut = lemma_walk_out(a, h, 0, a.end, t, a.begin, t, w, m);
            lemma_walk_stuck(h, t, t, cut.1, cut.3);
            assert(cut.0 + cut.1 =~= cut.0);
            assert(a.walks(a.begin, a.end, w, cut.2));
        } else {
            assert(x == b.begin + na);
            assert forall|x: int, y: int| inside(b, na, x) && #[trigger] h.has_eps(x, y) implies (
            b.has_eps(x - na, y - na) || (x == b.end + na && y == t)) by {
                lemma_edge_targets(a, x, y);
            }
            assert forall|x: int, y: int, c: u8| inside(b, na, x) && #[trigger] h.has_byte(
                x,
                y,
                c,
            ) implies b.has_byte(x - na, y - na, c) by {
                lemma_edge_targets(a, x, y);
            }
            lemma_leaves_by(b, h, na, b.end + na, t);
            let cut = lemma_walk_out(b, h, na, b.end + na, t, b.begin + na, t, w, m);
            lemma_walk_stuck(h, t, t, cut.1, cut.3);
            assert(cut.0 + cut.1 =~= cut.0);
            assert(b.walks(b.begin, b.end, w, cut.2));
        }
    }
    let none = Seq::<u8>::empty();
    assert(h.walks(t, t, none, 0));
    assert(w + none =~= w);
    if a.accepts(w) {
        let n = choose|n: nat| a.walks(a.begin, a.end, w, n);
        lemma_walk_into(a, h, 0, a.begin, a.end, w, n);
        lemma_walk_eps(h, a.end, t, t, none, 0);
        lemma_walk_join(h, a.begin, a.end, t, w, none, n, 1);
        lemma_walk_eps(h, s, a.begin, t, w, n + 1);
    }
    if b.accepts(w) {
        let n = choose|n: nat| b.walks(b.begin, b.end, w, n);
        lemma_walk_into(b, h, na, b.begin, b.end, w, n);
        lemma_walk_eps(h, b.end + na, t, t, none, 0);
        lemma_walk_join(h, b.begin + na, b.end + na, t, w, none, n, 1);
        lemma_walk_eps(h, s, b.begin + na, t, w, n + 1);
    }
}

/// An optional fragment accepts the empty string and what the fragment
/// accepts, and nothing else.
pub proof fn lemma_optional_language(a: Nfa, w: Seq<u8>)
    requires
        a.wf(),
    ensures
        a.optional().accepts(w) <==> (w.len() == 0 || a.accepts(w)),
{
    lemma_union_language(a, Nfa::empty(), w);
    lemma_empty_language(w);
}

/// A walk of a repetition from its entry back to its entry reads a
/// string made of strings that the fragment accepts.
proof fn lemma_kleene_sound(a: Nfa, w: Seq<u8>, n: nat) -> (k: nat)
    requires
        a.wf(),
        a.kleene().walks(a.nodes, a.nodes, w, n),
    ensures
        a.repeats(w, k),
    decreases n,
{
    let h = a.kleene();
    let s = a.nodes;
    let t = s + 1;
    lemma_kleene_edges(a);
    if n == 0 {
        0
    } else {
        let m = (n - 1) as nat;
        assert forall|y: int, c: u8| !#[trigger] h.has_byte(s, y, c) by {
            lemma_edge_targets(a, s, y);
        }
        assert forall|y: int, c: u8| !#[trigger] h.has_byte(t, y, c) by {
            lemma_edge_targets(a, t, y);
        }
        let x = choose|x: int| #[trigger] h.has_eps(s, x) && h.walks(x, s, w, m);
        lemma_edge_targets(a, s, x);
        assert(x == a.begin);
        assert forall|x: int, y: int| inside(a, 0, x) && #[trigger] h.has_eps(x, y) implies (
        a.has_eps(x - 0, y - 0) || (x == a.end && y == t)) by {}
        assert forall|x: int, y: int, c: u8| inside(a, 0, x) && #[trigger] h.has_byte(
            x,
            y,
            c,
        ) implies a.has_byte(x - 0, y - 0, c) by {}
        lemma_leaves_by(a, h, 0, a.end, t);
        let cut = lemma_walk_out(a, h, 0, a.end, t, a.begin, s, w, m);
        let m2 = (cut.3 - 1) as nat;
        let y = choose|y: int| #[trigger] h.has_eps(t, y) && h.walks(y, s, cut.1, m2);
        lemma_edge_targets(a, t, y);
        assert(y == s);
        let k = lemma_kleene_sound(a, cut.1, m2);
        let more = k + 1;
        assert(a.walks(a.begin, a.end, cut.0, cut.2));
        assert(a.accepts(cut.0) && a.repeats(cut.1, (more - 1) as nat) && w == cut.0 + cut.1);
        more
    }
}

/// A repetition accepts every string made of strings that the fragment
/// accepts.
proof fn lemma_kleene_complete(a: Nfa, w: Seq<u8>, k: nat)
    requires
        a.wf(),
        a.repeats(w, k),
    ensures
        a.kleene().accepts(w),
    decreases k,
{
    let h = a.kleene();
    let s = a.nodes;
    let t = s + 1;
    lemma_kleene_edges(a);
    if k == 0 {
        assert(h.walks(s, s, w, 0));
    } else {
        let (u, v) = choose|u: Seq<u8>, v: Seq<u8>|
            a.accepts(u) && a.repeats(v, (k - 1) as nat) && w == #[trigger] (u + v);
        lemma_kleene_complete(a, v, (k - 1) as nat);
        let n = choose|n: nat| a.walks(a.begin, a.end, u, n);
        let m = choose|m: nat| h.walks(s, s, v, m);
        lemma_walk_into(a, h, 0, a.begin, a.end, u, n);
        lemma_walk_eps(h, t, s, s, v, m);
        lemma_walk_eps(h, a.end, t, s, v, m + 1);
        lemma_walk_join(h, a.begin, a.end, s, u, v, n, m + 2);
        lemma_walk_eps(h, s, a.begin, s, w, n + m + 2);
    }
}

/// A repetition accepts exactly the strings made of any number of
/// strings, none included, that the fragment accepts.
pub proof fn lemma_kleene_language(a: Nfa, w: Seq<u8>)
    requires
        a.wf(),
    ensures
        a.kleene().accepts(w) <==> exists|k: nat| a.repeats(w, k),
{
    let h = a.kleene();
    if h.accepts(w) {
        let n = choose|n: nat| h.walks(a.nodes, a.nodes, w, n);
        let k = lemma_kleene_sound(a, w, n);
    }
    if exists|k: nat| a.repeats(w, k) {
        let k = choose|k: nat| a.repeats(w, k);
        lemma_kleene_complete(a, w, k);
    }
}

/// The strings of one byte out of `c`.
pub open spec fn singles(c: Set<u8>) -> Set<Seq<u8>> {
    Set::new(|w: Seq<u8>| w.len() == 1 && c.contains(w[0]))
}

/// The strings made of a string of `x` followed by a string of `y`.
pub open spec fn joined(x: Set<Seq<u8>>, y: Set<Seq<u8>>) -> Set<Seq<u8>> {
    Set::new(
        |w: Seq<u8>|
            exists|u: Seq<u8>, v: Seq<u8>| #[trigger]
                x.contains(u) && #[trigger] y.contains(v) && w == u + v,
    )
}

/// The language of a charset fragment, as a set.
pub proof fn lemma_charset_set(c: Set<u8>)
    ensures
        Nfa::charset(c).language() == singles(c),
{
    assert forall|w: Seq<u8>| Nfa::charset(c).language().contains(w) <==> singles(c).contains(w) by {
        lemma_charset_language(c, w);
    }
    assert(Nfa::charset(c).language() =~= singles(c));
}

/// The language of a concatenation, as a set.
pub proof fn lemma_concat_set(a: Nfa, b: Nfa)
    requires
        a.wf(),
        b.wf(),
    ensures
        a.concat(b).language() == joined(a.language(), b.language()),
{
    let l = a.concat(b).language();
    let r = joined(a.language(), b.language());
    assert forall|w: Seq<u8>| l.contains(w) <==> r.contains(w) by {
        lemma_concat_language(a, b, w);
        if l.contains(w) {
            let (u, v) = choose|u: Seq<u8>, v: Seq<u8>| #[trigger]
                a.accepts(u) && #[trigger] b.accepts(v) && w == u + v;
            assert(a.language().contains(u) && b.language().contains(v));
        }
        if r.contains(w) {
            let (u, v) = choose|u: Seq<u8>, v: Seq<u8>| #[trigger]
                a.language().contains(u) && #[trigger] b.language().contains(v) && w == u + v;
            assert(a.accepts(u) && b.accepts(v));
        }
    }
    assert(l =~= r);
}

/// The language of a union, as a set.
pub proof fn lemma_union_set(a: Nfa, b: Nfa)
    requires
        a.wf(),
        b.wf(),
    ensures
        a.union(b).language() == a.language().union(b.language()),
{
    assert forall|w: Seq<u8>|
        a.union(b).language().contains(w) <==> a.language().union(b.language()).contains(w) by {
        lemma_union_language(a, b, w);
    }
    assert(a.union(b).language() =~= a.language().union(b.language()));
}

} // verus!
