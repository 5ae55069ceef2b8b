//! The interner core shared by both operating modes: the append-only
//! backing buffer together with the substring index, and the uncontested
//! interning step that both modes perform once exclusive access is settled.

use vstd::prelude::*;

use crate::trie::{is_substring, occurs_at, Span, Trie};

verus! {

/// The state that interning mutates: the backing buffer and the index.
/// Exclusion bookkeeping lives with each operating mode.
pub struct InternerInternal {
    pub index: Trie,
    pub store: Vec<char>,
}

impl InternerInternal {
    /// The index is well-formed and every path it knows names exactly the
    /// stored text in its span.
    pub open spec fn wf(self) -> bool {
        &&& self.index.wf()
        &&& forall|p: Seq<char>| #[trigger]
            self.index.has_path(p) ==> {
                let sp = self.index.path_span(p);
                &&& sp.start <= sp.end
                &&& sp.end <= self.store@.len()
                &&& self.store@.subrange(sp.start as int, sp.end as int) == p
            }
    }

    /// A fresh, empty core: nothing stored, only the empty string indexed.
    pub fn new() -> (r: InternerInternal)
        ensures
            r.wf(),
            r.store@.len() == 0,
            forall|p: Seq<char>| r.index.has_path(p) <==> p.len() == 0,
    {
        let r = InternerInternal { index: Trie::new(), store: Vec::new() };
        proof {
            assert forall|p: Seq<char>| #[trigger]
                r.index.has_path(p) implies {
                let sp = r.index.path_span(p);
                &&& sp.start <= sp.end
                &&& sp.end <= r.store@.len()
                &&& r.store@.subrange(sp.start as int, sp.end as int) == p
            } by {
                assert(p.len() == 0);
                assert(p =~= Seq::<char>::empty());
                assert(r.store@.subrange(0, 0) =~= Seq::<char>::empty());
            }
        }
        r
    }

    /// Interns `s` assuming the caller has already established exclusive
    /// access: an index hit returns the canonical span and changes nothing;
    /// a miss appends `s` to the buffer and registers all its substrings.
    pub fn intern_uncontested(&mut self, s: &Vec<char>) -> (r: Span)
        requires
            old(self).wf(),
            old(self).store@.len() + s@.len() <= usize::MAX,
        ensures
            final(self).wf(),
            intern_post(*old(self), s@, *final(self), r),
    {
        match self.index.get(s) {
            Some(sp) => sp,
            None => {
                let start = self.store.len();
                let mut t: usize = 0;
                let n = s.len();
                while t < n
                    invariant
                        t <= n,
                        n == s@.len(),
                        self.index == old(self).index,
                        self.store@ == old(self).store@ + s@.subrange(0, t as int),
                    decreases n - t,
                {
                    let ch = s[t];
                    self.store.push(ch);
                    proof {
                        assert(s@.subrange(0, t as int).push(s@[t as int]) =~= s@.subrange(
                            0,
                            t as int + 1,
                        ));
                        assert((old(self).store@ + s@.subrange(0, t as int)).push(s@[t as int])
                            =~= old(self).store@ + s@.subrange(0, t as int + 1));
                    }
                    t = t + 1;
                }
                proof {
                    assert(s@.subrange(0, n as int) =~= s@);
                    assert(self.store@ == old(self).store@ + s@);
                }
                let sp = self.index.insert(s, start);
                proof {
                    lemma_miss_preserves_wf(*old(self), *self, s@, start as int);
                }
                sp
            }
        }
    }
}

/// Copies `store[sp.start..sp.end]` out of the buffer.
pub(crate) fn copy_range(store: &Vec<char>, sp: Span) -> (r: Vec<char>)
    requires
        sp.start <= sp.end,
        sp.end <= store@.len(),
    ensures
        r@ == store@.subrange(sp.start as int, sp.end as int),
{
    let mut r: Vec<char> = Vec::new();
    let mut t: usize = sp.start;
    while t < sp.end
        invariant
            sp.start <= t <= sp.end,
            sp.end <= store@.len(),
            r@ == store@.subrange(sp.start as int, t as int),
        decreases sp.end - t,
    {
        let ch = store[t];
        r.push(ch);
        proof {
            assert(store@.subrange(sp.start as int, t as int).push(store@[t as int])
                =~= store@.subrange(sp.start as int, t as int + 1));
        }
        t = t + 1;
    }
    r
}

/// Copies a whole character vector.
pub(crate) fn copy_all(v: &Vec<char>) -> (r: Vec<char>)
    ensures
        r@ == v@,
{
    let mut r: Vec<char> = Vec::new();
    let mut t: usize = 0;
    let n = v.len();
    while t < n
        invariant
            t <= n,
            n == v@.len(),
            r@ == v@.subrange(0, t as int),
        decreases n - t,
    {
        let ch = v[t];
        r.push(ch);
        proof {
            assert(v@.subrange(0, t as int).push(v@[t as int]) =~= v@.subrange(0, t as int + 1));
        }
        t = t + 1;
    }
    proof {
        assert(v@.subrange(0, n as int) =~= v@);
    }
    r
}

/// What one interning step does to the core: a hit returns the canonical
/// span and leaves everything unchanged; a miss appends `s` at the end of
/// the buffer, returns its new span, keeps every existing path and its
/// span, registers every substring of `s`, adds nothing else, and gives
/// each newly added path the span of its first occurrence inside `s`.
pub open spec fn intern_post(
    pre: InternerInternal,
    s: Seq<char>,
    post: InternerInternal,
    r: Span,
) -> bool {
    &&& post.index.has_path(s)
    &&& r == post.index.path_span(s)
    &&& if pre.index.has_path(s) {
        post == pre
    } else {
        &&& post.store@ == pre.store@ + s
        &&& r.start == pre.store@.len() && r.end == pre.store@.len() + s.len()
        &&& forall|p: Seq<char>| #[trigger]
            pre.index.has_path(p) ==> post.index.has_path(p) && post.index.path_span(p)
                == pre.index.path_span(p)
        &&& forall|a: int, b: int|
            0 <= a <= b <= s.len() ==> post.index.has_path(#[trigger] s.subrange(a, b))
        &&& forall|p: Seq<char>| #[trigger]
            post.index.has_path(p) && !pre.index.has_path(p) ==> (exists|a: int| #[trigger]
                occurs_at(s, p, a) && (forall|a2: int| 0 <= a2 < a ==> !occurs_at(s, p, a2))
                    && post.index.path_span(p).start == pre.store@.len() + a
                    && post.index.path_span(p).end == pre.store@.len() + a + p.len())
    }
}

/// After a miss appends `s` and registers its suffixes, the store/index
/// agreement still holds: old paths point at unchanged text, and each new
/// path's span points at an occurrence of that path inside the appended
/// text.
proof fn lemma_miss_preserves_wf(pre: InternerInternal, post: InternerInternal, s: Seq<char>, start: int)
    requires
        pre.wf(),
        !pre.index.has_path(s),
        start == pre.store@.len(),
        pre.store@.len() + s.len() <= usize::MAX,
        post.store@ == pre.store@ + s,
        post.index.wf(),
        forall|p: Seq<char>| #[trigger]
            pre.index.has_path(p) ==> post.index.has_path(p) && post.index.path_span(p)
                == pre.index.path_span(p),
        forall|p: Seq<char>| #[trigger]
            post.index.has_path(p) && !pre.index.has_path(p) ==> (exists|a: int| #[trigger]
                occurs_at(s, p, a) && (forall|a2: int| 0 <= a2 < a ==> !occurs_at(s, p, a2))
                    && post.index.path_span(p).start == start + a && post.index.path_span(p).end
                    == start + a + p.len()),
    ensures
        post.wf(),
{
    assert forall|p: Seq<char>| #[trigger] post.index.has_path(p) implies {
        let sp = post.index.path_span(p);
        &&& sp.start <= sp.end
        &&& sp.end <= post.store@.len()
        &&& post.store@.subrange(sp.start as int, sp.end as int) == p
    } by {
        let sp = post.index.path_span(p);
        if pre.index.has_path(p) {
            assert(sp == pre.index.path_span(p));
            assert(post.store@.subrange(sp.start as int, sp.end as int) =~= pre.store@.subrange(
                sp.start as int,
                sp.end as int,
            ));
        } else {
            let a = choose|a: int| #[trigger]
                occurs_at(s, p, a) && (forall|a2: int| 0 <= a2 < a ==> !occurs_at(s, p, a2))
                    && post.index.path_span(p).start == start + a && post.index.path_span(p).end
                    == start + a + p.len();
            assert(occurs_at(s, p, a));
            assert(post.store@.subrange(start + a, start + a + p.len() as int) =~= s.subrange(
                a,
                a + p.len() as int,
            ));
        }
    }
}

/// Round trip: the span interning returns always lies inside the store,
/// and the stored text in that span is exactly the interned sequence — so
/// the text any later view exposes through it is the string itself.
pub proof fn lemma_intern_roundtrip(
    pre: InternerInternal,
    s: Seq<char>,
    post: InternerInternal,
    r: Span,
)
    requires
        post.wf(),
        intern_post(pre, s, post, r),
    ensures
        r.start <= r.end,
        r.end <= post.store@.len(),
        post.store@.subrange(r.start as int, r.end as int) == s,
{
}

/// Interning the same character sequence twice yields the same span both
/// times, and the second call leaves the interner entirely unchanged.
pub proof fn lemma_intern_dedup(
    pre: InternerInternal,
    s: Seq<char>,
    mid: InternerInternal,
    r1: Span,
    post: InternerInternal,
    r2: Span,
)
    requires
        intern_post(pre, s, mid, r1),
        intern_post(mid, s, post, r2),
    ensures
        r2 == r1,
        post == mid,
{
}

/// A store that begins empty indexes nothing but the empty string, so a
/// first intern of a nonempty `s` always misses.
proof fn lemma_fresh_miss(pre: InternerInternal, s: Seq<char>)
    requires
        pre.wf(),
        pre.store@.len() == 0,
        s.len() > 0,
    ensures
        !pre.index.has_path(s),
{
    if pre.index.has_path(s) {
        let sp = pre.index.path_span(s);
        assert(pre.store@.subrange(sp.start as int, sp.end as int) == s);
        assert(pre.store@.subrange(sp.start as int, sp.end as int).len() == 0);
    }
}

/// Substring reuse: interning `s` into an empty store and then interning
/// any substring `t` of `s` leaves the store unchanged, and `t`'s span
/// lies inside the span that `s` received.
pub proof fn lemma_substring_reuse(
    pre: InternerInternal,
    s: Seq<char>,
    mid: InternerInternal,
    r1: Span,
    t: Seq<char>,
    post: InternerInternal,
    r2: Span,
)
    requires
        pre.wf(),
        mid.wf(),
        pre.store@.len() == 0,
        s.len() > 0,
        intern_post(pre, s, mid, r1),
        is_substring(s, t),
        intern_post(mid, t, post, r2),
    ensures
        post == mid,
        r1.start == 0 && r1.end == s.len(),
        r1.start <= r2.start && r2.start <= r2.end && r2.end <= r1.end,
{
    lemma_fresh_miss(pre, s);
    let a = choose|a: int| occurs_at(s, t, a);
    assert(mid.index.has_path(s.subrange(a, a + t.len() as int)));
    assert(mid.index.has_path(t));
    let sp = mid.index.path_span(t);
    assert(mid.store@.subrange(sp.start as int, sp.end as int) == t);
    assert(mid.store@.len() == s.len());
}

/// Interning something that is not a substring of the single string a
/// fresh store holds must grow the store by its full length.
pub proof fn lemma_nonsubstring_grows(
    pre: InternerInternal,
    s: Seq<char>,
    mid: InternerInternal,
    r1: Span,
    u: Seq<char>,
    post: InternerInternal,
    r2: Span,
)
    requires
        pre.wf(),
        mid.wf(),
        pre.store@.len() == 0,
        s.len() > 0,
        intern_post(pre, s, mid, r1),
        !is_substring(s, u),
        intern_post(mid, u, post, r2),
    ensures
        u.len() > 0,
        post.store@.len() == mid.store@.len() + u.len(),
        r2.start == s.len() && r2.end == s.len() + u.len(),
{
    lemma_fresh_miss(pre, s);
    assert(occurs_at(s, Seq::<char>::empty(), 0)) by {
        assert(s.subrange(0, 0) =~= Seq::<char>::empty());
    }
    if u.len() == 0 {
        assert(u =~= Seq::<char>::empty());
    }
    if mid.index.has_path(u) {
        if pre.index.has_path(u) {
            let sp = pre.index.path_span(u);
            assert(pre.store@.subrange(sp.start as int, sp.end as int) == u);
            assert(u.len() == 0);
        }
    }
    assert(mid.store@ =~= s);
}

/// Non-overlap: two distinct strings interned fresh, the second not a
/// substring of the first, receive disjoint span ranges and unequal spans.
pub proof fn lemma_non_overlap(
    pre: InternerInternal,
    s1: Seq<char>,
    mid: InternerInternal,
    r1: Span,
    s2: Seq<char>,
    post: InternerInternal,
    r2: Span,
)
    requires
        pre.wf(),
        mid.wf(),
        pre.store@.len() == 0,
        s1.len() > 0,
        intern_post(pre, s1, mid, r1),
        !is_substring(s1, s2),
        intern_post(mid, s2, post, r2),
    ensures
        r1.end <= r2.start,
        r1 != r2,
{
    lemma_nonsubstring_grows(pre, s1, mid, r1, s2, post, r2);
    lemma_fresh_miss(pre, s1);
}

} // verus!
