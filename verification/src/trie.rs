//! The substring index: a character-keyed trie over every suffix of every
//! interned string. Each node carries the span of buffer text named by the
//! path from the root to that node; a span, once written, is never
//! overwritten (first writer wins), so spans handed out earlier stay valid.
//!
//! The trie is stored as an arena: a vector of nodes and a vector of labelled
//! edges. Its mathematical model is the partial function `follow`, which walks
//! a character sequence from a node and yields the node it reaches.

use vstd::prelude::*;

verus! {

/// A half-open `[start, end)` offset range into the backing buffer.
#[derive(Clone, Copy, Debug, Hash, PartialEq, Eq, Structural)]
pub struct Span {
    pub start: usize,
    pub end: usize,
}

/// Builds the span that starts at `start` and covers `length` characters.
pub fn span(start: usize, length: usize) -> (r: Span)
    requires
        start + length <= usize::MAX,
    ensures
        r.start == start,
        r.end == start + length,
{
    Span { start, end: start + length }
}

/// `p` occurs in `key` beginning at offset `i`.
pub open spec fn occurs_at(key: Seq<char>, p: Seq<char>, i: int) -> bool {
    0 <= i && i + p.len() <= key.len() && key.subrange(i, i + p.len() as int) == p
}

/// `p` is a contiguous substring of `key` (the empty sequence always is).
pub open spec fn is_substring(key: Seq<char>, p: Seq<char>) -> bool {
    exists|i: int| occurs_at(key, p, i)
}

/// One trie node: the span of buffer text that the path from the root to
/// this node names, and (ghost) that path itself.
pub struct TrieNode {
    pub span: Span,
    pub path: Ghost<Seq<char>>,
}

/// A labelled edge of the trie: `parent` steps to `child` on character `ch`.
#[derive(Clone, Copy)]
pub struct Edge {
    pub parent: usize,
    pub ch: char,
    pub child: usize,
}

/// The suffix trie. Node 0 is the root; nodes and edges are only ever
/// appended, never removed or rewritten.
pub struct Trie {
    pub nodes: Vec<TrieNode>,
    pub edges: Vec<Edge>,
}

impl Trie {
    /// The node's span is well-formed and as long as its path.
    pub open spec fn node_ok(self, i: int) -> bool {
        let n = self.nodes@[i];
        &&& n.span.start <= n.span.end
        &&& n.span.end - n.span.start == n.path@.len()
    }

    /// The edge's endpoints exist and the child's path extends the parent's.
    pub open spec fn edge_ok(self, k: int) -> bool {
        let e = self.edges@[k];
        &&& (e.parent as int) < self.nodes@.len()
        &&& (e.child as int) < self.nodes@.len()
        &&& self.nodes@[e.child as int].path@ == self.nodes@[e.parent as int].path@.push(e.ch)
    }

    /// Edge `k` leaves node `i` on character `c`.
    pub open spec fn matching_edge(self, k: int, i: int, c: char) -> bool {
        0 <= k < self.edges@.len() && (self.edges@[k].parent as int) == i && self.edges@[k].ch == c
    }

    /// Well-formedness: the root exists with the empty path and the zero
    /// span, every node and edge is locally consistent, and no node has two
    /// outgoing edges with the same character.
    pub open spec fn wf(self) -> bool {
        &&& 1 <= self.nodes@.len()
        &&& self.nodes@[0].path@ == Seq::<char>::empty()
        &&& self.nodes@[0].span == (Span { start: 0, end: 0 })
        &&& forall|i: int| 0 <= i < self.nodes@.len() ==> self.node_ok(i)
        &&& forall|k: int| 0 <= k < self.edges@.len() ==> self.edge_ok(k)
        &&& forall|k1: int, k2: int|
            0 <= k1 < k2 < self.edges@.len() ==> !(self.edges@[k1].parent == self.edges@[k2].parent
                && self.edges@[k1].ch == self.edges@[k2].ch)
    }

    /// The node reached from node `i` by one step on `c`, if any.
    pub open spec fn child_idx(self, i: int, c: char) -> Option<int> {
        if exists|k: int| self.matching_edge(k, i, c) {
            Some(self.edges@[choose|k: int| self.matching_edge(k, i, c)].child as int)
        } else {
            None
        }
    }

    /// The node reached from node `i` by walking `key`, if the whole walk
    /// exists. This is the trie's mathematical model.
    pub open spec fn follow(self, i: int, key: Seq<char>) -> Option<int>
        decreases key.len(),
    {
        if key.len() == 0 {
            Some(i)
        } else {
            match self.child_idx(i, key[0]) {
                Some(j) => self.follow(j, key.subrange(1, key.len() as int)),
                None => None,
            }
        }
    }

    /// `key` names a node of the trie.
    pub open spec fn has_path(self, key: Seq<char>) -> bool {
        self.follow(0, key) is Some
    }

    /// The span stored at the node that `key` names.
    pub open spec fn path_span(self, key: Seq<char>) -> Span {
        self.nodes@[self.follow(0, key).unwrap()].span
    }

    /// Constructs the empty trie: just the root, which names the empty
    /// string with the zero span.
    pub fn new() -> (r: Trie)
        ensures
            r.wf(),
            forall|p: Seq<char>| r.has_path(p) <==> p.len() == 0,
            r.path_span(Seq::<char>::empty()) == (Span { start: 0, end: 0 }),
    {
        let root = TrieNode { span: Span { start: 0, end: 0 }, path: Ghost(Seq::empty()) };
        let mut nodes: Vec<TrieNode> = Vec::new();
        nodes.push(root);
        let r = Trie { nodes, edges: Vec::new() };
        proof {
            assert forall|p: Seq<char>| r.has_path(p) <==> p.len() == 0 by {
                if p.len() != 0 {
                    assert(!(exists|k: int| r.matching_edge(k, 0, p[0])));
                }
            }
        }
        r
    }

    /// Looks `key` up without mutating anything: the stored span on an exact
    /// match, nothing otherwise.
    pub fn get(&self, key: &Vec<char>) -> (r: Option<Span>)
        requires
            self.wf(),
        ensures
            r == (if self.has_path(key@) {
                Some(self.path_span(key@))
            } else {
                None::<Span>
            }),
    {
        let n = key.len();
        let mut cur: usize = 0;
        let mut d: usize = 0;
        while d < n
            invariant
                self.wf(),
                n == key@.len(),
                d <= n,
                (cur as int) < self.nodes@.len(),
                self.follow(0, key@.subrange(0, d as int)) == Some(cur as int),
            decreases n - d,
        {
            let c = key[d];
            match self.find_child(cur, c) {
                Some(j) => {
                    proof {
                        lemma_step_extends(*self, cur as int, key@, d as int, j as int);
                    }
                    cur = j;
                    d = d + 1;
                }
                None => {
                    proof {
                        lemma_step_dead_end(*self, cur as int, key@, d as int);
                    }
                    return None;
                }
            }
        }
        proof {
            assert(key@.subrange(0, n as int) =~= key@);
        }
        Some(self.nodes[cur].span)
    }

    /// Linear scan of the edge list for the edge leaving `i` on `c`.
    fn find_child(&self, i: usize, c: char) -> (r: Option<usize>)
        requires
            self.wf(),
            (i as int) < self.nodes@.len(),
        ensures
            match r {
                Some(j) => {
                    &&& self.child_idx(i as int, c) == Some(j as int)
                    &&& (j as int) < self.nodes@.len()
                    &&& self.nodes@[j as int].path@ == self.nodes@[i as int].path@.push(c)
                },
                None => self.child_idx(i as int, c) is None,
            },
    {
        let n = self.edges.len();
        let mut k: usize = 0;
        while k < n
            invariant
                self.wf(),
                (i as int) < self.nodes@.len(),
                n == self.edges@.len(),
                k <= n,
                forall|k2: int|
                    0 <= k2 < k ==> !(self.edges@[k2].parent == i && self.edges@[k2].ch == c),
            decreases n - k,
        {
            let e = self.edges[k];
            if e.parent == i && e.ch == c {
                proof {
                    assert(self.matching_edge(k as int, i as int, c));
                    let k2 = choose|k2: int| self.matching_edge(k2, i as int, c);
                    lemma_matching_edge_unique(*self, i as int, c, k as int, k2);
                    assert(self.edge_ok(k as int));
                }
                return Some(e.child);
            }
            k = k + 1;
        }
        proof {
            if exists|k2: int| self.matching_edge(k2, i as int, c) {
                let k2 = choose|k2: int| self.matching_edge(k2, i as int, c);
                assert(!(self.edges@[k2].parent == i && self.edges@[k2].ch == c));
            }
        }
        None
    }

    /// Registers `key` as starting at buffer offset `start`, walking the
    /// existing path and appending fresh nodes only where it ends (first
    /// writer wins). Afterwards every prefix of `key` names a node; a path
    /// that was new receives the span `[start, start + its length)`, and
    /// every previously present path keeps its span. Returns the span stored
    /// for the full `key`.
    pub fn insert_one(&mut self, key: &Vec<char>, start: usize) -> (r: Span)
        requires
            old(self).wf(),
            start + key@.len() <= usize::MAX,
        ensures
            final(self).wf(),
            forall|p: Seq<char>| #[trigger]
                old(self).has_path(p) ==> final(self).has_path(p) && final(self).path_span(p)
                    == old(self).path_span(p),
            forall|e: int|
                0 <= e <= key@.len() ==> final(self).has_path(#[trigger] key@.subrange(0, e)),
            forall|p: Seq<char>| #[trigger]
                final(self).has_path(p) && !old(self).has_path(p) ==> p.len() <= key@.len() && p
                    == key@.subrange(0, p.len() as int) && final(self).path_span(p).start == start
                    && final(self).path_span(p).end == start + p.len(),
            final(self).has_path(key@),
            r == final(self).path_span(key@),
    {
        let n = key.len();
        let mut cur: usize = 0;
        let mut d: usize = 0;
        proof {
            assert(key@.subrange(0, 0) =~= Seq::<char>::empty());
        }
        while d < n
            invariant
                self.wf(),
                old(self).wf(),
                n == key@.len(),
                d <= n,
                start + n <= usize::MAX,
                (cur as int) < self.nodes@.len(),
                self.nodes@[cur as int].path@ == key@.subrange(0, d as int),
                self.follow(0, key@.subrange(0, d as int)) == Some(cur as int),
                forall|p: Seq<char>| #[trigger]
                    old(self).has_path(p) ==> self.has_path(p) && self.path_span(p) == old(
                        self,
                    ).path_span(p),
                forall|e: int| 0 <= e <= d ==> self.has_path(#[trigger] key@.subrange(0, e)),
                forall|p: Seq<char>| #[trigger]
                    self.has_path(p) && !old(self).has_path(p) ==> p.len() <= d && p
                        == key@.subrange(0, p.len() as int) && self.path_span(p).start == start
                        && self.path_span(p).end == start + p.len(),
            decreases n - d,
        {
            let c = key[d];
            match self.find_child(cur, c) {
                Some(j) => {
                    proof {
                        lemma_step_extends(*self, cur as int, key@, d as int, j as int);
                        assert(key@.subrange(0, d as int).push(key@[d as int]) =~= key@.subrange(
                            0,
                            d as int + 1,
                        ));
                    }
                    cur = j;
                    d = d + 1;
                }
                None => {
                    let l = self.nodes.len();
                    let ghost t1 = *self;
                    let end = start + d + 1;
                    self.nodes.push(
                        TrieNode {
                            span: Span { start, end },
                            path: Ghost(key@.subrange(0, d as int + 1)),
                        },
                    );
                    let ghost t2 = *self;
                    let e = Edge { parent: cur, ch: c, child: l };
                    self.edges.push(e);
                    proof {
                        lemma_insert_step(t1, t2, *self, e, key@, d as int, start as int, old(self));
                    }
                    cur = l;
                    d = d + 1;
                }
            }
        }
        proof {
            assert(key@.subrange(0, n as int) =~= key@);
        }
        self.nodes[cur].span
    }

    /// Registers `key` and every one of its suffixes, each at its own
    /// offset, so that afterwards every substring of `key` names a node.
    /// A path that was new receives the span of the first place it occurs
    /// in `key`, shifted by `start`; every previously present path keeps
    /// its span. Returns the span stored for the full `key`.
    pub fn insert(&mut self, key: &Vec<char>, start: usize) -> (r: Span)
        requires
            old(self).wf(),
            start + key@.len() <= usize::MAX,
        ensures
            final(self).wf(),
            forall|p: Seq<char>| #[trigger]
                old(self).has_path(p) ==> final(self).has_path(p) && final(self).path_span(p)
                    == old(self).path_span(p),
            forall|a: int, b: int|
                0 <= a <= b <= key@.len() ==> final(self).has_path(#[trigger] key@.subrange(a, b)),
            forall|p: Seq<char>| #[trigger]
                final(self).has_path(p) && !old(self).has_path(p) ==> (exists|a: int| #[trigger]
                    occurs_at(key@, p, a) && (forall|a2: int|
                        0 <= a2 < a ==> !occurs_at(key@, p, a2)) && final(self).path_span(p).start
                        == start + a && final(self).path_span(p).end == start + a + p.len()),
            final(self).has_path(key@),
            r == final(self).path_span(key@),
    {
        let n = key.len();
        let r = self.insert_one(key, start);
        proof {
            lemma_after_first_suffix(*old(self), *self, key@, start as int);
        }
        if n == 0 {
            proof {
                assert forall|a: int, b: int| 0 <= a <= b <= key@.len() implies self.has_path(
                    #[trigger] key@.subrange(a, b),
                ) by {
                    assert(key@.subrange(a, b) =~= key@.subrange(0, b));
                }
            }
            return r;
        }
        let mut i: usize = 1;
        while i < n
            invariant
                self.wf(),
                old(self).wf(),
                n == key@.len(),
                1 <= i <= n,
                start + n <= usize::MAX,
                forall|p: Seq<char>| #[trigger]
                    old(self).has_path(p) ==> self.has_path(p) && self.path_span(p) == old(
                        self,
                    ).path_span(p),
                self.has_path(key@),
                r == self.path_span(key@),
                forall|a: int, b: int|
                    0 <= a < i && a <= b <= n ==> self.has_path(#[trigger] key@.subrange(a, b)),
                forall|p: Seq<char>| #[trigger]
                    self.has_path(p) && !old(self).has_path(p) ==> (exists|a: int|
                        0 <= a < i && #[trigger] occurs_at(key@, p, a) && (forall|a2: int|
                            0 <= a2 < a ==> !occurs_at(key@, p, a2)) && self.path_span(p).start
                            == start + a && self.path_span(p).end == start + a + p.len()),
            decreases n - i,
        {
            let mut suf: Vec<char> = Vec::new();
            let mut t: usize = i;
            while t < n
                invariant
                    i <= t <= n,
                    n == key@.len(),
                    suf@ == key@.subrange(i as int, t as int),
                decreases n - t,
            {
                let ch = key[t];
                suf.push(ch);
                proof {
                    assert(key@.subrange(i as int, t as int).push(key@[t as int])
                        =~= key@.subrange(i as int, t as int + 1));
                }
                t = t + 1;
            }
            let ghost pre = *self;
            let _ = self.insert_one(&suf, start + i);
            proof {
                lemma_after_later_suffix(*old(self), pre, *self, key@, start as int, i as int);
            }
            i = i + 1;
        }
        proof {
            assert forall|a: int, b: int| 0 <= a <= b <= key@.len() implies self.has_path(
                #[trigger] key@.subrange(a, b),
            ) by {
                if a == key@.len() {
                    assert(key@.subrange(a, b) =~= key@.subrange(0, 0));
                }
            }
        }
        r
    }
}

/// Two edges leaving the same node on the same character are the same edge.
proof fn lemma_matching_edge_unique(t: Trie, i: int, c: char, k1: int, k2: int)
    requires
        t.wf(),
        t.matching_edge(k1, i, c),
        t.matching_edge(k2, i, c),
    ensures
        k1 == k2,
{
    if k1 < k2 {
        assert(!(t.edges@[k1].parent == t.edges@[k2].parent && t.edges@[k1].ch == t.edges@[k2].ch));
    } else if k2 < k1 {
        assert(!(t.edges@[k2].parent == t.edges@[k1].parent && t.edges@[k2].ch == t.edges@[k1].ch));
    }
}

/// Walking a concatenation is walking the first part, then the second.
proof fn lemma_follow_concat(t: Trie, i: int, a: Seq<char>, b: Seq<char>)
    ensures
        t.follow(i, a + b) == (match t.follow(i, a) {
            Some(j) => t.follow(j, b),
            None => None::<int>,
        }),
    decreases a.len(),
{
    if a.len() == 0 {
        assert(a + b =~= b);
    } else {
        assert((a + b)[0] == a[0]);
        assert((a + b).subrange(1, (a + b).len() as int) =~= a.subrange(1, a.len() as int) + b);
        match t.child_idx(i, a[0]) {
            Some(j) => {
                lemma_follow_concat(t, j, a.subrange(1, a.len() as int), b);
            }
            None => {}
        }
    }
}

/// A successful walk ends at a node whose path extends the start node's
/// path by exactly the walked characters.
proof fn lemma_follow_path(t: Trie, i: int, key: Seq<char>, j: int)
    requires
        t.wf(),
        0 <= i < t.nodes@.len(),
        t.follow(i, key) == Some(j),
    ensures
        0 <= j < t.nodes@.len(),
        t.nodes@[j].path@ == t.nodes@[i].path@ + key,
    decreases key.len(),
{
    if key.len() == 0 {
        assert(t.nodes@[i].path@ + key =~= t.nodes@[i].path@);
    } else {
        let c = key[0];
        let k = choose|k: int| t.matching_edge(k, i, c);
        assert(t.matching_edge(k, i, c));
        assert(t.edge_ok(k));
        let j1 = t.edges@[k].child as int;
        lemma_follow_path(t, j1, key.subrange(1, key.len() as int), j);
        assert(t.nodes@[j].path@ =~= t.nodes@[i].path@ + key) by {
            assert(t.nodes@[j1].path@ == t.nodes@[i].path@.push(c));
            assert(t.nodes@[i].path@.push(c) + key.subrange(1, key.len() as int) =~= t.nodes@[i].path@
                + key);
        }
    }
}

/// A found child extends a partial walk of `key` by one character.
proof fn lemma_step_extends(t: Trie, cur: int, key: Seq<char>, d: int, j: int)
    requires
        t.wf(),
        0 <= d < key.len(),
        t.follow(0, key.subrange(0, d)) == Some(cur),
        t.child_idx(cur, key[d]) == Some(j),
    ensures
        t.follow(0, key.subrange(0, d + 1)) == Some(j),
{
    let a = key.subrange(0, d);
    let b = seq![key[d]];
    lemma_follow_concat(t, 0, a, b);
    assert(a + b =~= key.subrange(0, d + 1));
    assert(b.subrange(1, 1) =~= Seq::<char>::empty());
    assert(t.follow(j, b.subrange(1, 1)) == Some(j));
}

/// A missing child kills the walk of the whole key.
proof fn lemma_step_dead_end(t: Trie, cur: int, key: Seq<char>, d: int)
    requires
        t.wf(),
        0 <= d < key.len(),
        t.follow(0, key.subrange(0, d)) == Some(cur),
        t.child_idx(cur, key[d]) is None,
    ensures
        t.follow(0, key) is None,
{
    let a = key.subrange(0, d);
    let b = key.subrange(d, key.len() as int);
    lemma_follow_concat(t, 0, a, b);
    assert(a + b =~= key);
    assert(b[0] == key[d]);
}

/// Any two tries with the same edge list agree on every single step.
proof fn lemma_child_idx_eq(t1: Trie, t2: Trie, i: int, c: char)
    requires
        t1.wf(),
        t2.edges@ == t1.edges@,
    ensures
        t2.child_idx(i, c) == t1.child_idx(i, c),
{
    if exists|k: int| t1.matching_edge(k, i, c) {
        let k1 = choose|k: int| t1.matching_edge(k, i, c);
        assert(t2.matching_edge(k1, i, c));
        let k2 = choose|k: int| t2.matching_edge(k, i, c);
        assert(t1.matching_edge(k2, i, c));
        lemma_matching_edge_unique(t1, i, c, k1, k2);
    } else {
        if exists|k: int| t2.matching_edge(k, i, c) {
            let k2 = choose|k: int| t2.matching_edge(k, i, c);
            assert(t1.matching_edge(k2, i, c));
        }
    }
}

/// Appending nodes without touching the edges changes no walk that starts
/// at a node that already existed.
proof fn lemma_follow_grow_nodes(t1: Trie, t2: Trie, i: int, key: Seq<char>)
    requires
        t1.wf(),
        t2.edges@ == t1.edges@,
        t1.nodes@.len() <= t2.nodes@.len(),
        forall|m: int| 0 <= m < t1.nodes@.len() ==> t2.nodes@[m] == t1.nodes@[m],
        0 <= i < t1.nodes@.len(),
    ensures
        t2.follow(i, key) == t1.follow(i, key),
    decreases key.len(),
{
    if key.len() > 0 {
        let c = key[0];
        lemma_child_idx_eq(t1, t2, i, c);
        match t1.child_idx(i, c) {
            Some(j) => {
                let k = choose|k: int| t1.matching_edge(k, i, c);
                assert(t1.matching_edge(k, i, c));
                assert(t1.edge_ok(k));
                lemma_follow_grow_nodes(t1, t2, j, key.subrange(1, key.len() as int));
            }
            None => {}
        }
    }
}

/// After appending one edge to a fresh, childless node, every walk either
/// goes as it went before or newly ends at that node.
proof fn lemma_follow_push_edge(t2: Trie, t3: Trie, e: Edge, i: int, key: Seq<char>)
    requires
        t2.wf(),
        t3.nodes@ == t2.nodes@,
        t3.edges@ == t2.edges@.push(e),
        t2.child_idx(e.parent as int, e.ch) is None,
        (e.parent as int) < t2.nodes@.len(),
        (e.child as int) < t2.nodes@.len(),
        forall|k: int| 0 <= k < t2.edges@.len() ==> (t2.edges@[k].parent as int) != (e.child as int),
        e.parent != e.child,
        0 <= i < t2.nodes@.len(),
    ensures
        t3.follow(i, key) == t2.follow(i, key) || (t2.follow(i, key) is None && t3.follow(i, key)
            == Some(e.child as int)),
    decreases key.len(),
{
    if key.len() > 0 {
        let c = key[0];
        let rest = key.subrange(1, key.len() as int);
        if i == e.parent as int && c == e.ch {
            assert(t3.matching_edge(t2.edges@.len() as int, i, c));
            let k3 = choose|k: int| t3.matching_edge(k, i, c);
            if k3 < t2.edges@.len() {
                assert(t2.matching_edge(k3, i, c));
            }
            assert(t3.child_idx(i, c) == Some(e.child as int));
            assert forall|c2: char| t3.child_idx(e.child as int, c2) is None by {
                if exists|k: int| t3.matching_edge(k, e.child as int, c2) {
                    let k = choose|k: int| t3.matching_edge(k, e.child as int, c2);
                    if k < t2.edges@.len() {
                        assert((t2.edges@[k].parent as int) != (e.child as int));
                    }
                }
            }
            if rest.len() > 0 {
                assert(t3.follow(e.child as int, rest) is None);
            }
        } else {
            assert forall|k: int| t3.matching_edge(k, i, c) implies t2.matching_edge(k, i, c) by {
                if k == t2.edges@.len() {
                    assert(t3.edges@[k] == e);
                }
            }
            assert forall|k: int| t2.matching_edge(k, i, c) implies t3.matching_edge(k, i, c) by {}
            if exists|k: int| t2.matching_edge(k, i, c) {
                let k2 = choose|k: int| t2.matching_edge(k, i, c);
                let k3 = choose|k: int| t3.matching_edge(k, i, c);
                assert(t3.matching_edge(k2, i, c));
                assert(t2.matching_edge(k3, i, c));
                lemma_matching_edge_unique(t2, i, c, k2, k3);
                let j = t2.edges@[k2].child as int;
                assert(t3.child_idx(i, c) == Some(j));
                assert(t2.edge_ok(k2));
                lemma_follow_push_edge(t2, t3, e, j, rest);
            } else {
                assert(!(exists|k: int| t3.matching_edge(k, i, c)));
            }
        }
    }
}

/// The combined effect, on the whole trie model, of appending one fresh
/// node and the edge that reaches it, as `insert_one` does at depth `d`:
/// walks from the root are preserved, the one new path is `key[..d+1]`,
/// and it carries the span `[start, start + d + 1)`.
proof fn lemma_insert_step(
    t1: Trie,
    t2: Trie,
    t3: Trie,
    e: Edge,
    key: Seq<char>,
    d: int,
    start: int,
    orig: &Trie,
)
    requires
        t1.wf(),
        0 <= d < key.len(),
        0 <= start,
        start + key.len() <= usize::MAX,
        (e.parent as int) < t1.nodes@.len(),
        e.child == t1.nodes@.len(),
        e.ch == key[d],
        t1.nodes@[e.parent as int].path@ == key.subrange(0, d),
        t1.follow(0, key.subrange(0, d)) == Some(e.parent as int),
        t1.child_idx(e.parent as int, key[d]) is None,
        t2.nodes@ == t1.nodes@.push(
            TrieNode {
                span: Span { start: start as usize, end: (start + d + 1) as usize },
                path: Ghost(key.subrange(0, d + 1)),
            },
        ),
        t2.edges@ == t1.edges@,
        t3.nodes@ == t2.nodes@,
        t3.edges@ == t2.edges@.push(e),
        // the invariants of the enclosing loop, relative to the trie as the
        // enclosing call found it:
        orig.wf(),
        forall|p: Seq<char>| #[trigger]
            orig.has_path(p) ==> t1.has_path(p) && t1.path_span(p) == orig.path_span(p),
        forall|ee: int| 0 <= ee <= d ==> t1.has_path(#[trigger] key.subrange(0, ee)),
        forall|p: Seq<char>| #[trigger]
            t1.has_path(p) && !orig.has_path(p) ==> p.len() <= d && p == key.subrange(
                0,
                p.len() as int,
            ) && t1.path_span(p).start == start && t1.path_span(p).end == start + p.len(),
    ensures
        t3.wf(),
        t3.nodes@[e.child as int].path@ == key.subrange(0, d + 1),
        t3.follow(0, key.subrange(0, d + 1)) == Some(e.child as int),
        forall|p: Seq<char>| #[trigger]
            orig.has_path(p) ==> t3.has_path(p) && t3.path_span(p) == orig.path_span(p),
        forall|ee: int| 0 <= ee <= d + 1 ==> t3.has_path(#[trigger] key.subrange(0, ee)),
        forall|p: Seq<char>| #[trigger]
            t3.has_path(p) && !orig.has_path(p) ==> p.len() <= d + 1 && p == key.subrange(
                0,
                p.len() as int,
            ) && t3.path_span(p).start == start && t3.path_span(p).end == start + p.len(),
{
    let l = e.child as int;
    // t2 is well-formed: the new node is consistent and unreachable.
    assert(t2.nodes@[0] == t1.nodes@[0]);
    assert forall|i: int| 0 <= i < t2.nodes@.len() implies t2.node_ok(i) by {
        if i < t1.nodes@.len() {
            assert(t1.node_ok(i));
        } else {
            assert(t2.nodes@[i].path@ == key.subrange(0, d + 1));
        }
    }
    assert forall|k: int| 0 <= k < t2.edges@.len() implies t2.edge_ok(k) by {
        assert(t1.edge_ok(k));
    }
    assert(t2.wf());
    lemma_child_idx_eq(t1, t2, e.parent as int, e.ch);
    // t3 is well-formed: the new edge is consistent and its character is
    // fresh among the parent's edges.
    assert forall|k: int| 0 <= k < t3.edges@.len() implies t3.edge_ok(k) by {
        if k < t2.edges@.len() {
            assert(t2.edge_ok(k));
        } else {
            assert(t3.edges@[k] == e);
            assert(t3.nodes@[l].path@ =~= t3.nodes@[e.parent as int].path@.push(e.ch)) by {
                assert(key.subrange(0, d).push(key[d]) =~= key.subrange(0, d + 1));
            }
        }
    }
    assert forall|k1: int, k2: int| 0 <= k1 < k2 < t3.edges@.len() implies !(t3.edges@[k1].parent
        == t3.edges@[k2].parent && t3.edges@[k1].ch == t3.edges@[k2].ch) by {
        if k2 < t2.edges@.len() {
            assert(t1.wf());
        } else {
            if t3.edges@[k1].parent == e.parent && t3.edges@[k1].ch == e.ch {
                assert(t2.matching_edge(k1, e.parent as int, e.ch));
            }
        }
    }
    assert forall|i: int| 0 <= i < t3.nodes@.len() implies t3.node_ok(i) by {
        assert(t2.node_ok(i));
    }
    assert(t3.nodes@[0] == t2.nodes@[0]);
    assert(t3.wf());
    // Every old edge leaves an old node, so the fresh node is childless.
    assert forall|k: int| 0 <= k < t2.edges@.len() implies (t2.edges@[k].parent as int) != l by {
        assert(t1.edge_ok(k));
    }
    // Walks from the root: preserved, or newly ending at the fresh node.
    assert forall|p: Seq<char>| #[trigger] t3.follow(0, p) == t2.follow(0, p) || (t2.follow(0, p)
        is None && t3.follow(0, p) == Some(l)) by {
        lemma_follow_push_edge(t2, t3, e, 0, p);
    }
    assert forall|p: Seq<char>| #[trigger] t2.follow(0, p) == t1.follow(0, p) by {
        lemma_follow_grow_nodes(t1, t2, 0, p);
    }
    // The new path is reachable: extend the walk that ends at the parent.
    assert(t2.follow(0, key.subrange(0, d)) == Some(e.parent as int));
    assert(t3.follow(0, key.subrange(0, d)) == Some(e.parent as int));
    assert(t3.child_idx(e.parent as int, e.ch) == Some(l)) by {
        assert(t3.matching_edge(t2.edges@.len() as int, e.parent as int, e.ch));
        let k3 = choose|k: int| t3.matching_edge(k, e.parent as int, e.ch);
        if k3 < t2.edges@.len() {
            assert(t2.matching_edge(k3, e.parent as int, e.ch));
        }
    }
    assert(key.subrange(0, d + 1).subrange(0, d) =~= key.subrange(0, d));
    assert(key.subrange(0, d + 1)[d] == key[d]);
    lemma_step_extends(t3, e.parent as int, key.subrange(0, d + 1), d, l);
    assert(key.subrange(0, d + 1).subrange(0, d + 1) =~= key.subrange(0, d + 1));
    // Preservation of everything the enclosing call's caller had.
    assert forall|p: Seq<char>| #[trigger] orig.has_path(p) implies t3.has_path(p)
        && t3.path_span(p) == orig.path_span(p) by {
        let j = t1.follow(0, p).unwrap();
        lemma_follow_path(t1, 0, p, j);
        assert(t3.nodes@[j] == t1.nodes@[j]);
    }
    // Every prefix up to d + 1 is now present.
    assert forall|ee: int| 0 <= ee <= d + 1 implies t3.has_path(#[trigger] key.subrange(0, ee)) by {
        if ee <= d {
            assert(t1.has_path(key.subrange(0, ee)));
        }
    }
    // Characterization of the new paths.
    assert forall|p: Seq<char>| #[trigger] t3.has_path(p) && !orig.has_path(p) implies p.len() <= d
        + 1 && p == key.subrange(0, p.len() as int) && t3.path_span(p).start == start
        && t3.path_span(p).end == start + p.len() by {
        if t2.follow(0, p) is Some {
            let j = t1.follow(0, p).unwrap();
            lemma_follow_path(t1, 0, p, j);
            assert(t1.has_path(p));
            assert(t3.nodes@[j] == t1.nodes@[j]);
            assert(p.len() <= d);
        } else {
            assert(t3.follow(0, p) == Some(l));
            lemma_follow_path(t3, 0, p, l);
            assert(t3.nodes@[l].path@ =~= p) by {
                assert(t3.nodes@[0].path@ + p =~= p);
            }
            assert(p == key.subrange(0, d + 1));
        }
    }
}

/// After `insert_one` of the whole key, the `insert` loop invariant holds
/// with one suffix (offset 0) processed.
proof fn lemma_after_first_suffix(orig: Trie, t: Trie, key: Seq<char>, start: int)
    requires
        orig.wf(),
        t.wf(),
        start + key.len() <= usize::MAX,
        forall|p: Seq<char>| #[trigger]
            orig.has_path(p) ==> t.has_path(p) && t.path_span(p) == orig.path_span(p),
        forall|e: int| 0 <= e <= key.len() ==> t.has_path(#[trigger] key.subrange(0, e)),
        forall|p: Seq<char>| #[trigger]
            t.has_path(p) && !orig.has_path(p) ==> p.len() <= key.len() && p == key.subrange(
                0,
                p.len() as int,
            ) && t.path_span(p).start == start && t.path_span(p).end == start + p.len(),
    ensures
        forall|a: int, b: int|
            0 <= a < 1 && a <= b <= key.len() ==> t.has_path(#[trigger] key.subrange(a, b)),
        forall|p: Seq<char>| #[trigger]
            t.has_path(p) && !orig.has_path(p) ==> (exists|a: int| 0 <= a < 1 && #[trigger]
                occurs_at(key, p, a) && (forall|a2: int| 0 <= a2 < a ==> !occurs_at(key, p, a2))
                && t.path_span(p).start == start + a && t.path_span(p).end == start + a + p.len()),
{
    assert forall|p: Seq<char>| #[trigger] t.has_path(p) && !orig.has_path(p) implies (exists|
        a: int,
    |
        0 <= a < 1 && #[trigger] occurs_at(key, p, a) && (forall|a2: int|
            0 <= a2 < a ==> !occurs_at(key, p, a2)) && t.path_span(p).start == start + a
            && t.path_span(p).end == start + a + p.len()) by {
        assert(occurs_at(key, p, 0)) by {
            assert(key.subrange(0, p.len() as int) == p);
        }
        assert(0 <= 0 < 1 && occurs_at(key, p, 0) && (forall|a2: int|
            0 <= a2 < 0 ==> !occurs_at(key, p, a2)) && t.path_span(p).start == start + 0
            && t.path_span(p).end == start + 0 + p.len());
    }
}

/// Processing suffix `i` keeps the `insert` loop invariant: paths already
/// present keep their spans, the prefixes of suffix `i` join in, and every
/// new path's span points at its first occurrence in `key`.
proof fn lemma_after_later_suffix(
    orig: Trie,
    pre: Trie,
    t: Trie,
    key: Seq<char>,
    start: int,
    i: int,
)
    requires
        orig.wf(),
        pre.wf(),
        t.wf(),
        1 <= i < key.len(),
        start + key.len() <= usize::MAX,
        // the loop invariant for pre at i:
        forall|p: Seq<char>| #[trigger]
            orig.has_path(p) ==> pre.has_path(p) && pre.path_span(p) == orig.path_span(p),
        forall|a: int, b: int|
            0 <= a < i && a <= b <= key.len() ==> pre.has_path(#[trigger] key.subrange(a, b)),
        forall|p: Seq<char>| #[trigger]
            pre.has_path(p) && !orig.has_path(p) ==> (exists|a: int|
                0 <= a < i && #[trigger] occurs_at(key, p, a) && (forall|a2: int|
                    0 <= a2 < a ==> !occurs_at(key, p, a2)) && pre.path_span(p).start == start + a
                    && pre.path_span(p).end == start + a + p.len()),
        // the postcondition of insert_one(key[i..], start + i):
        forall|p: Seq<char>| #[trigger]
            pre.has_path(p) ==> t.has_path(p) && t.path_span(p) == pre.path_span(p),
        forall|e: int|
            0 <= e <= key.len() - i ==> t.has_path(
                #[trigger] key.subrange(i, key.len() as int).subrange(0, e),
            ),
        forall|p: Seq<char>| #[trigger]
            t.has_path(p) && !pre.has_path(p) ==> p.len() <= key.len() - i && p == key.subrange(
                i,
                key.len() as int,
            ).subrange(0, p.len() as int) && t.path_span(p).start == start + i && t.path_span(
                p,
            ).end == start + i + p.len(),
    ensures
        forall|p: Seq<char>| #[trigger]
            orig.has_path(p) ==> t.has_path(p) && t.path_span(p) == orig.path_span(p),
        forall|a: int, b: int|
            0 <= a < i + 1 && a <= b <= key.len() ==> t.has_path(#[trigger] key.subrange(a, b)),
        forall|p: Seq<char>| #[trigger]
            t.has_path(p) && !orig.has_path(p) ==> (exists|a: int|
                0 <= a < i + 1 && #[trigger] occurs_at(key, p, a) && (forall|a2: int|
                    0 <= a2 < a ==> !occurs_at(key, p, a2)) && t.path_span(p).start == start + a
                    && t.path_span(p).end == start + a + p.len()),
{
    let suf = key.subrange(i, key.len() as int);
    assert forall|a: int, b: int| 0 <= a < i + 1 && a <= b <= key.len() implies t.has_path(
        #[trigger] key.subrange(a, b),
    ) by {
        if a < i {
            assert(pre.has_path(key.subrange(a, b)));
        } else {
            assert(suf.subrange(0, b - i) =~= key.subrange(a, b));
            assert(t.has_path(suf.subrange(0, b - i)));
        }
    }
    assert forall|p: Seq<char>| #[trigger] t.has_path(p) && !orig.has_path(p) implies (exists|
        a: int,
    |
        0 <= a < i + 1 && #[trigger] occurs_at(key, p, a) && (forall|a2: int|
            0 <= a2 < a ==> !occurs_at(key, p, a2)) && t.path_span(p).start == start + a
            && t.path_span(p).end == start + a + p.len()) by {
        if pre.has_path(p) {
            let a = choose|a: int|
                0 <= a < i && #[trigger] occurs_at(key, p, a) && (forall|a2: int|
                    0 <= a2 < a ==> !occurs_at(key, p, a2)) && pre.path_span(p).start == start + a
                    && pre.path_span(p).end == start + a + p.len();
            assert(0 <= a < i + 1 && occurs_at(key, p, a) && (forall|a2: int|
                0 <= a2 < a ==> !occurs_at(key, p, a2)) && t.path_span(p).start == start + a
                && t.path_span(p).end == start + a + p.len());
        } else {
            // p was added by suffix i, so it occurs there, and it cannot
            // occur earlier: every earlier occurrence would be a prefix of
            // an already processed suffix, hence already present.
            assert(p.len() <= key.len() - i && p == suf.subrange(0, p.len() as int));
            assert(occurs_at(key, p, i)) by {
                assert(suf.subrange(0, p.len() as int) =~= key.subrange(i, i + p.len() as int));
            }
            assert forall|a2: int| 0 <= a2 < i implies !occurs_at(key, p, a2) by {
                if occurs_at(key, p, a2) {
                    assert(pre.has_path(key.subrange(a2, a2 + p.len() as int)));
                    assert(key.subrange(a2, a2 + p.len() as int) == p);
                }
            }
            assert(0 <= i < i + 1 && occurs_at(key, p, i) && (forall|a2: int|
                0 <= a2 < i ==> !occurs_at(key, p, a2)) && t.path_span(p).start == start + i
                && t.path_span(p).end == start + i + p.len());
        }
    }
}

} // verus!
