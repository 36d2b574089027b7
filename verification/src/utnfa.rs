//! Tagged automaton fragments and the combinators that build them.
//!
//! A fragment has one entry node and one exit node.  Its byte edges each
//! read one byte out of a set; its epsilon edges read nothing and carry a
//! tag, where `-1` stands for "no tag".  Every contract here is stated over
//! [`Nfa`], the fragment as plain mathematical data.

use crate::automata::{equivalent, is_valid, Automata, Shape};
use crate::charsets::{listing, Charset};
use vstd::prelude::*;

verus! {

/// A fragment as mathematical data: the view of a [`UTnfa`].
pub struct Nfa {
    /// Number of nodes; the nodes are `0..nodes`.
    pub nodes: int,
    /// The entry node.
    pub begin: int,
    /// The exit node, the only accepting one.
    pub end: int,
    /// Byte edges: source, target, and the bytes that may be read.
    pub edges: Seq<(int, int, Set<u8>)>,
    /// Epsilon edges: source, target, and the tag.
    pub eps: Seq<(int, int, int)>,
}

impl Nfa {
    /// Entry, exit and every edge endpoint are nodes of the fragment.
    pub open spec fn wf(self) -> bool {
        &&& 0 <= self.begin < self.nodes
        &&& 0 <= self.end < self.nodes
        &&& forall|k: int|
            0 <= k < self.edges.len() ==> 0 <= (#[trigger] self.edges[k]).0 < self.nodes && 0
                <= self.edges[k].1 < self.nodes
        &&& forall|k: int|
            0 <= k < self.eps.len() ==> 0 <= (#[trigger] self.eps[k]).0 < self.nodes && 0
                <= self.eps[k].1 < self.nodes
    }

    /// One node that is entry and exit at once, and no edge.
    pub open spec fn empty() -> Nfa {
        Nfa { nodes: 1, begin: 0, end: 0, edges: Seq::empty(), eps: Seq::empty() }
    }

    /// Two nodes joined by one byte edge that reads a byte of `c`.
    pub open spec fn charset(c: Set<u8>) -> Nfa {
        Nfa { nodes: 2, begin: 0, end: 1, edges: seq![(0int, 1int, c)], eps: Seq::empty() }
    }

    /// Two nodes joined by one epsilon edge that carries `tag`.
    pub open spec fn tag(tag: int) -> Nfa {
        Nfa { nodes: 2, begin: 0, end: 1, edges: Seq::empty(), eps: seq![(0int, 1int, tag)] }
    }

    /// Every node index raised by `n`; the node count stays as it is.
    pub open spec fn shifted(self, n: int) -> Nfa {
        Nfa {
            nodes: self.nodes,
            begin: self.begin + n,
            end: self.end + n,
            edges: self.edges.map_values(|e: (int, int, Set<u8>)| (e.0 + n, e.1 + n, e.2)),
            eps: self.eps.map_values(|e: (int, int, int)| (e.0 + n, e.1 + n, e.2)),
        }
    }

    /// The graph of `self` with that of `other` beside it: `other`'s nodes
    /// come after those of `self`, its indices raised by `self.nodes`.
    /// Entry and exit stay those of `self`.
    pub open spec fn merged(self, other: Nfa) -> Nfa {
        Nfa {
            nodes: self.nodes + other.nodes,
            begin: self.begin,
            end: self.end,
            edges: self.edges + other.shifted(self.nodes).edges,
            eps: self.eps + other.shifted(self.nodes).eps,
        }
    }

    /// One more untagged epsilon edge.
    pub open spec fn linked(self, from: int, to: int) -> Nfa {
        Nfa { eps: self.eps.push((from, to, -1int)), ..self }
    }

    /// A new node with an epsilon edge to the old entry; it is the new entry.
    pub open spec fn prepended(self) -> Nfa {
        Nfa { nodes: self.nodes + 1, begin: self.nodes, ..self.linked(self.nodes, self.begin) }
    }

    /// A new node with an epsilon edge from the old exit; it is the new exit.
    pub open spec fn appended(self) -> Nfa {
        Nfa { nodes: self.nodes + 1, end: self.nodes, ..self.linked(self.end, self.nodes) }
    }

    /// `self` followed by `other`: the two graphs side by side, an epsilon
    /// edge from the exit of `self` to the entry of `other`, and the exit
    /// of `other` as the exit.
    pub open spec fn concat(self, other: Nfa) -> Nfa {
        Nfa {
            end: other.end + self.nodes,
            ..self.merged(other).linked(self.end, other.begin + self.nodes)
        }
    }

    /// `self` or `other`: the two graphs side by side, a new entry with an
    /// epsilon edge to each old entry, and a new exit with an epsilon edge
    /// from each old exit.
    pub open spec fn union(self, other: Nfa) -> Nfa {
        let front = self.merged(other).prepended();
        let forked = front.linked(front.begin, other.begin + self.nodes);
        let back = forked.appended();
        back.linked(other.end + self.nodes, back.end)
    }

    /// `self` any number of times: a new entry and a new exit around the
    /// graph, an epsilon edge from the new exit back to the new entry, and
    /// the new entry as the exit.
    pub open spec fn kleene(self) -> Nfa {
        let around = self.prepended().appended();
        Nfa { end: around.begin, ..around.linked(around.end, around.begin) }
    }

    /// `self` or nothing.
    pub open spec fn optional(self) -> Nfa {
        self.union(Nfa::empty())
    }
}

/// Two well-formed fragments side by side are well formed, but for the
/// exit and the entry, which are those of the first.
pub proof fn lemma_merged_wf(a: Nfa, b: Nfa)
    requires
        a.wf(),
        b.wf(),
    ensures
        a.merged(b).wf(),
{
    let m = a.merged(b);
    assert forall|k: int| 0 <= k < m.edges.len() implies 0 <= (#[trigger] m.edges[k]).0 < m.nodes
        && 0 <= m.edges[k].1 < m.nodes by {
        if k < a.edges.len() {
            assert(m.edges[k] == a.edges[k]);
        } else {
            let j = k - a.edges.len();
            assert(m.edges[k] == (b.edges[j].0 + a.nodes, b.edges[j].1 + a.nodes, b.edges[j].2));
        }
    }
    assert forall|k: int| 0 <= k < m.eps.len() implies 0 <= (#[trigger] m.eps[k]).0 < m.nodes && 0
        <= m.eps[k].1 < m.nodes by {
        if k < a.eps.len() {
            assert(m.eps[k] == a.eps[k]);
        } else {
            let j = k - a.eps.len();
            assert(m.eps[k] == (b.eps[j].0 + a.nodes, b.eps[j].1 + a.nodes, b.eps[j].2));
        }
    }
}

/// A graph whose edges run between its nodes stays so when more nodes
/// and one more edge between its nodes are added.
pub proof fn lemma_linked_wf(g: Nfa, h: Nfa, from: int, to: int)
    requires
        g.wf(),
        h.edges == g.edges,
        h.eps == g.eps.push((from, to, -1int)),
        g.nodes <= h.nodes,
        0 <= from < h.nodes,
        0 <= to < h.nodes,
        0 <= h.begin < h.nodes,
        0 <= h.end < h.nodes,
    ensures
        h.wf(),
{
    assert forall|k: int| 0 <= k < h.edges.len() implies 0 <= (#[trigger] h.edges[k]).0 < h.nodes
        && 0 <= h.edges[k].1 < h.nodes by {
        assert(h.edges[k] == g.edges[k]);
    }
    assert forall|k: int| 0 <= k < h.eps.len() implies 0 <= (#[trigger] h.eps[k]).0 < h.nodes && 0
        <= h.eps[k].1 < h.nodes by {
        if k < g.eps.len() {
            assert(h.eps[k] == g.eps[k]);
        }
    }
}

/// The concatenation of two well-formed fragments is well formed and has
/// the nodes of both.
pub proof fn lemma_concat_wf(a: Nfa, b: Nfa)
    requires
        a.wf(),
        b.wf(),
    ensures
        a.concat(b).wf(),
        a.concat(b).nodes == a.nodes + b.nodes,
{
    lemma_merged_wf(a, b);
    lemma_linked_wf(a.merged(b), a.concat(b), a.end, b.begin + a.nodes);
}

/// The union of two well-formed fragments is well formed and has the
/// nodes of both and two more.
pub proof fn lemma_union_wf(a: Nfa, b: Nfa)
    requires
        a.wf(),
        b.wf(),
    ensures
        a.union(b).wf(),
        a.union(b).nodes == a.nodes + b.nodes + 2,
{
    let m = a.merged(b);
    let front = m.prepended();
    let forked = front.linked(front.begin, b.begin + a.nodes);
    let back = forked.appended();
    lemma_merged_wf(a, b);
    lemma_linked_wf(m, front, m.nodes, m.begin);
    lemma_linked_wf(front, forked, front.begin, b.begin + a.nodes);
    lemma_linked_wf(forked, back, forked.end, forked.nodes);
    lemma_linked_wf(back, a.union(b), b.end + a.nodes, back.end);
}

/// The repetition of a well-formed fragment is well formed and has two
/// nodes more.
pub proof fn lemma_kleene_wf(a: Nfa)
    requires
        a.wf(),
    ensures
        a.kleene().wf(),
        a.kleene().nodes == a.nodes + 2,
{
    let front = a.prepended();
    let around = front.appended();
    lemma_linked_wf(a, front, a.nodes, a.begin);
    lemma_linked_wf(front, around, front.end, front.nodes);
    lemma_linked_wf(around, a.kleene(), around.end, around.begin);
}

/// A well-formed fragment made optional is well formed and has three
/// nodes more.
pub proof fn lemma_optional_wf(a: Nfa)
    requires
        a.wf(),
    ensures
        a.optional().wf(),
        a.optional().nodes == a.nodes + 3,
{
    lemma_union_wf(a, Nfa::empty());
}

/// The byte edges of a fragment as an automaton lists them: edge by edge,
/// and within one edge byte by byte in ascending order, each with tag `-1`.
pub open spec fn listed_bytes(edges: Seq<(int, int, Set<u8>)>) -> Seq<(usize, usize, Option<u8>, isize)>
    decreases edges.len(),
{
    if edges.len() == 0 {
        Seq::empty()
    } else {
        listed_bytes(edges.drop_last()) + listing(edges.last().2, 0).map_values(
            |b: u8| (edges.last().0 as usize, edges.last().1 as usize, Some(b), -1isize),
        )
    }
}

/// The epsilon edges of a fragment as an automaton lists them.
pub open spec fn listed_eps(eps: Seq<(int, int, int)>) -> Seq<(usize, usize, Option<u8>, isize)> {
    eps.map_values(|e: (int, int, int)| (e.0 as usize, e.1 as usize, None::<u8>, e.2 as isize))
}

/// Every listed byte edge comes from a byte edge of the fragment.
pub proof fn lemma_listed_bytes(edges: Seq<(int, int, Set<u8>)>, k: int)
    requires
        0 <= k < listed_bytes(edges).len(),
    ensures
        exists|j: int|
            0 <= j < edges.len() && listed_bytes(edges)[k].0 == (#[trigger] edges[j]).0 as usize
                && listed_bytes(edges)[k].1 == edges[j].1 as usize,
    decreases edges.len(),
{
    if edges.len() > 0 {
        let head = listed_bytes(edges.drop_last());
        if k < head.len() {
            lemma_listed_bytes(edges.drop_last(), k);
            let j = choose|j: int|
                0 <= j < edges.drop_last().len() && head[k].0 == (#[trigger] edges.drop_last()[j]).0 as usize
                    && head[k].1 == edges.drop_last()[j].1 as usize;
            assert(edges[j] == edges.drop_last()[j]);
        } else {
            assert(edges[edges.len() - 1] == edges.last());
        }
    }
}

/// Represents uncooked tagged nondetermitistic automata
#[derive(Debug)]
pub struct UTnfa {
    nodes: usize,
    begin: usize,
    end: usize,
    edges: Vec<(usize, usize, Charset)>,
    eps_edges: Vec<(usize, usize, isize)>,
}

/// A byte edge as data.
pub open spec fn edge_view(e: (usize, usize, Charset)) -> (int, int, Set<u8>) {
    (e.0 as int, e.1 as int, e.2@)
}

/// An epsilon edge as data.
pub open spec fn eps_view(e: (usize, usize, isize)) -> (int, int, int) {
    (e.0 as int, e.1 as int, e.2 as int)
}

impl View for UTnfa {
    type V = Nfa;

    closed spec fn view(&self) -> Nfa {
        Nfa {
            nodes: self.nodes as int,
            begin: self.begin as int,
            end: self.end as int,
            edges: self.edges@.map_values(|e: (usize, usize, Charset)| edge_view(e)),
            eps: self.eps_edges@.map_values(|e: (usize, usize, isize)| eps_view(e)),
        }
    }
}

impl Clone for UTnfa {
    fn clone(&self) -> (r: Self)
        ensures
            r@ == self@,
    {
        let mut edges: Vec<(usize, usize, Charset)> = Vec::new();
        let mut i: usize = 0;
        while i < self.edges.len()
            invariant
                i <= self.edges.len(),
                edges@ == self.edges@.take(i as int),
            decreases self.edges.len() - i,
        {
            edges.push(self.edges[i]);
            assert(edges@ =~= self.edges@.take(i as int + 1));
            i += 1;
        }
        assert(edges@ =~= self.edges@);
        let mut eps_edges: Vec<(usize, usize, isize)> = Vec::new();
        let mut j: usize = 0;
        while j < self.eps_edges.len()
            invariant
                j <= self.eps_edges.len(),
                eps_edges@ == self.eps_edges@.take(j as int),
            decreases self.eps_edges.len() - j,
        {
            eps_edges.push(self.eps_edges[j]);
            assert(eps_edges@ =~= self.eps_edges@.take(j as int + 1));
            j += 1;
        }
        assert(eps_edges@ =~= self.eps_edges@);
        UTnfa { nodes: self.nodes, begin: self.begin, end: self.end, edges, eps_edges }
    }
}

impl UTnfa {
    /// Entry, exit and every edge endpoint are nodes of the fragment.
    pub open spec fn wf(&self) -> bool {
        self@.wf()
    }

    /// Creates UTnfa to match empty string
    pub fn empty() -> (r: Self)
        ensures
            r@ == Nfa::empty(),
            r.wf(),
    {
        let r = UTnfa { nodes: 1, begin: 0, end: 0, edges: Vec::new(), eps_edges: Vec::new() };
        assert(r@.edges =~= Seq::empty());
        assert(r@.eps =~= Seq::empty());
        r
    }

    /// Creates UTnfa to match single char from charset `c`
    pub fn charset(c: Charset) -> (r: Self)
        ensures
            r@ == Nfa::charset(c@),
            r.wf(),
    {
        let mut edges: Vec<(usize, usize, Charset)> = Vec::new();
        edges.push((0, 1, c));
        let r = UTnfa { nodes: 2, begin: 0, end: 1, edges, eps_edges: Vec::new() };
        assert(r@.edges =~= seq![(0int, 1int, c@)]);
        assert(r@.eps =~= Seq::empty());
        r
    }

    /// Creates UTnfa to match tag `tag`
    pub fn tag(tag: isize) -> (r: Self)
        ensures
            r@ == Nfa::tag(tag as int),
            r.wf(),
    {
        let mut eps_edges: Vec<(usize, usize, isize)> = Vec::new();
        eps_edges.push((0, 1, tag));
        let r = UTnfa { nodes: 2, begin: 0, end: 1, edges: Vec::new(), eps_edges };
        assert(r@.edges =~= Seq::empty());
        assert(r@.eps =~= seq![(0int, 1int, tag as int)]);
        r
    }

    /// Concatenates `self` with `nfa`
    pub fn concat(&mut self, nfa: &UTnfa)
        requires
            old(self).wf(),
            nfa.wf(),
            old(self)@.nodes + nfa@.nodes <= usize::MAX,
        ensures
            final(self)@ == old(self)@.concat(nfa@),
            final(self).wf(),
    {
        let offset = self.nodes;
        let exit = self.end;
        self.merge(nfa);
        self.link(exit, nfa.begin + offset);
        self.end = nfa.end + offset;
    }

    /// Unions `self` with `nfa`, i.e. applies `|` operator
    pub fn union(&mut self, nfa: &UTnfa)
        requires
            old(self).wf(),
            nfa.wf(),
            old(self)@.nodes + nfa@.nodes + 2 <= usize::MAX,
        ensures
            final(self)@ == old(self)@.union(nfa@),
            final(self).wf(),
    {
        let offset = self.nodes;
        self.merge(nfa);
        self.prepend_node();
        self.link(self.begin, nfa.begin + offset);
        self.append_node();
        self.link(nfa.end + offset, self.end);
    }

    /// Applies kleene start to `self`, i.e. applies `*` operator
    pub fn kleene(&mut self)
        requires
            old(self).wf(),
            old(self)@.nodes + 2 <= usize::MAX,
        ensures
            final(self)@ == old(self)@.kleene(),
            final(self).wf(),
    {
        self.prepend_node();
        self.append_node();
        self.link(self.end, self.begin);
        self.end = self.begin;
    }

    /// Makes `self` optional, i.e. applies `?` operator
    pub fn optional(&mut self)
        requires
            old(self).wf(),
            old(self)@.nodes + 3 <= usize::MAX,
        ensures
            final(self)@ == old(self)@.optional(),
            final(self).wf(),
    {
        self.union(&Self::empty())
    }

    /// Increases all node indices by `n`
    fn shift(&mut self, n: usize)
        requires
            old(self).wf(),
            old(self)@.nodes + n <= usize::MAX,
        ensures
            final(self)@ == old(self)@.shifted(n as int),
    {
        self.begin += n;
        self.end += n;
        let mut i: usize = 0;
        while i < self.edges.len()
            invariant
                i <= self.edges.len(),
                self.edges.len() == old(self).edges.len(),
                self.nodes == old(self).nodes,
                self.nodes + n <= usize::MAX,
                old(self).wf(),
                self.begin == old(self).begin + n,
                self.end == old(self).end + n,
                self.eps_edges == old(self).eps_edges,
                forall|k: int|
                    0 <= k < i ==> edge_view(#[trigger] self.edges[k]) == (
                        old(self).edges[k].0 + n,
                        old(self).edges[k].1 + n,
                        old(self).edges[k].2@,
                    ),
                forall|k: int| i <= k < self.edges.len() ==> self.edges[k] == old(self).edges[k],
            decreases self.edges.len() - i,
        {
            let e = self.edges[i];
            assert(old(self)@.edges[i as int] == edge_view(e));
            self.edges.set(i, (e.0 + n, e.1 + n, e.2));
            i += 1;
        }
        let mut j: usize = 0;
        while j < self.eps_edges.len()
            invariant
                j <= self.eps_edges.len(),
                self.eps_edges.len() == old(self).eps_edges.len(),
                self.nodes == old(self).nodes,
                self.nodes + n <= usize::MAX,
                old(self).wf(),
                self.begin == old(self).begin + n,
                self.end == old(self).end + n,
                self@.edges == old(self)@.shifted(n as int).edges,
                forall|k: int|
                    0 <= k < j ==> eps_view(#[trigger] self.eps_edges[k]) == (
                        old(self).eps_edges[k].0 + n,
                        old(self).eps_edges[k].1 + n,
                        old(self).eps_edges[k].2 as int,
                    ),
                forall|k: int|
                    j <= k < self.eps_edges.len() ==> self.eps_edges[k] == old(self).eps_edges[k],
            decreases self.eps_edges.len() - j,
        {
            let e = self.eps_edges[j];
            assert(old(self)@.eps[j as int] == eps_view(e));
            self.eps_edges.set(j, (e.0 + n, e.1 + n, e.2));
            j += 1;
        }
        assert(self@.eps =~= old(self)@.shifted(n as int).eps);
    }

    /// Merges `nfa` into `self`: the indices of `nfa` are raised by the
    /// node count of `self`, then its edges are appended.
    fn merge(&mut self, nfa: &UTnfa)
        requires
            old(self).wf(),
            nfa.wf(),
            old(self)@.nodes + nfa@.nodes <= usize::MAX,
        ensures
            final(self)@ == old(self)@.merged(nfa@),
            final(self).wf(),
    {
        let mut other = nfa.clone();
        other.shift(self.nodes);
        self.nodes += other.nodes;
        self.edges.append(&mut other.edges);
        self.eps_edges.append(&mut other.eps_edges);
        assert(self@.edges =~= old(self)@.merged(nfa@).edges);
        assert(self@.eps =~= old(self)@.merged(nfa@).eps);
    }

    /// Adds an untagged epsilon edge.
    fn link(&mut self, from: usize, to: usize)
        requires
            old(self).wf(),
            from < old(self)@.nodes,
            to < old(self)@.nodes,
        ensures
            final(self)@ == old(self)@.linked(from as int, to as int),
            final(self).wf(),
    {
        self.eps_edges.push((from, to, -1));
        assert(self@.eps =~= old(self)@.eps.push((from as int, to as int, -1int)));
        assert forall|k: int| 0 <= k < self@.eps.len() implies 0 <= (#[trigger] self@.eps[k]).0
            < self@.nodes && 0 <= self@.eps[k].1 < self@.nodes by {
            if k < old(self)@.eps.len() {
                assert(self@.eps[k] == old(self)@.eps[k]);
            }
        }
        assert(self@.edges == old(self)@.edges);
    }

    /// Creates a new node, that preceedes `self.begin`, and assignes it to `self.begin`
    fn prepend_node(&mut self)
        requires
            old(self).wf(),
            old(self)@.nodes + 1 <= usize::MAX,
        ensures
            final(self)@ == old(self)@.prepended(),
            final(self).wf(),
    {
        self.eps_edges.push((self.nodes, self.begin, -1));
        self.begin = self.nodes;
        self.nodes += 1;
        assert(self@.eps =~= old(self)@.prepended().eps);
    }

    /// Creates a new node, that follows `self.end`, and assignes it to `self.end`
    fn append_node(&mut self)
        requires
            old(self).wf(),
            old(self)@.nodes + 1 <= usize::MAX,
        ensures
            final(self)@ == old(self)@.appended(),
            final(self).wf(),
    {
        self.eps_edges.push((self.end, self.nodes, -1));
        self.end = self.nodes;
        self.nodes += 1;
        assert(self@.eps =~= old(self)@.appended().eps);
    }
}

impl Automata for UTnfa {
    open spec fn shape(&self) -> Shape {
        Shape {
            nodes: self@.nodes as usize,
            begin: self@.begin as usize,
            finals: Set::<usize>::empty().insert(self@.end as usize),
            edges: listed_bytes(self@.edges) + listed_eps(self@.eps),
        }
    }

    fn begin(&self) -> (b: usize) {
        self.begin
    }

    fn nodes(&self) -> (n: usize) {
        self.nodes
    }

    fn is_final(&self, n: usize) -> (f: bool) {
        n == self.end
    }

    fn list_edges(&self) -> (edges: Vec<(usize, usize, Option<u8>, isize)>) {
        let mut out: Vec<(usize, usize, Option<u8>, isize)> = Vec::new();
        let mut i: usize = 0;
        while i < self.edges.len()
            invariant
                i <= self.edges.len(),
                out@ == listed_bytes(self@.edges.take(i as int)),
            decreases self.edges.len() - i,
        {
            let (from, to, c) = self.edges[i];
            let bytes = c.iter().collect();
            let ghost head = out@;
            let ghost upto = self@.edges.take(i as int + 1);
            proof {
                assert(upto.drop_last() =~= self@.edges.take(i as int));
                assert(upto.last() == (from as int, to as int, c@));
            }
            let mut k: usize = 0;
            while k < bytes.len()
                invariant
                    k <= bytes.len(),
                    out@ == head + bytes@.take(k as int).map_values(
                        |b: u8| (from, to, Some(b), -1isize),
                    ),
                decreases bytes.len() - k,
            {
                out.push((from, to, Some(bytes[k]), -1));
                assert(out@ =~= head + bytes@.take(k as int + 1).map_values(
                    |b: u8| (from, to, Some(b), -1isize),
                ));
                k += 1;
            }
            assert(bytes@.take(bytes.len() as int) =~= bytes@);
            assert(out@ =~= listed_bytes(upto));
            i += 1;
        }
        assert(self@.edges.take(self.edges.len() as int) =~= self@.edges);
        let ghost head = out@;
        let mut j: usize = 0;
        while j < self.eps_edges.len()
            invariant
                j <= self.eps_edges.len(),
                out@ == head + listed_eps(self@.eps.take(j as int)),
            decreases self.eps_edges.len() - j,
        {
            let (from, to, tag) = self.eps_edges[j];
            out.push((from, to, None, tag));
            assert(out@ =~= head + listed_eps(self@.eps.take(j as int + 1)));
            j += 1;
        }
        assert(self@.eps.take(self.eps_edges.len() as int) =~= self@.eps);
        out
    }
}

impl<T: Automata> PartialEq<T> for UTnfa {
    /// Whether both automata are valid and have the same shape.
    fn eq(&self, other: &T) -> (r: bool) {
        is_valid(self) && is_valid(other) && crate::automata::eq(self, other)
    }
}

impl<T: Automata> vstd::std_specs::cmp::PartialEqSpecImpl<T> for UTnfa {
    open spec fn obeys_eq_spec() -> bool {
        true
    }

    open spec fn eq_spec(&self, other: &T) -> bool {
        self.shape().valid() && other.shape().valid() && equivalent(self.shape(), other.shape())
    }
}

/// A well-formed fragment is a valid automaton.
pub proof fn lemma_wf_valid(f: UTnfa)
    requires
        f.wf(),
    ensures
        f.shape().valid(),
{
    let s = f.shape();
    let bytes = listed_bytes(f@.edges);
    assert forall|k: int| 0 <= k < s.edges.len() implies (#[trigger] s.edges[k]).0 < s.nodes
        && s.edges[k].1 < s.nodes by {
        if k < bytes.len() {
            lemma_listed_bytes(f@.edges, k);
        } else {
            assert(s.edges[k] == listed_eps(f@.eps)[k - bytes.len()]);
        }
    }
}

} // verus!
