//! The multi-participant interner state and its exclusion protocol.
//!
//! Everything here is the state that lives under one lock: the core
//! (buffer and index), the list of outstanding views — one entry per view,
//! labelled with the participant that holds it — and the tag of the most
//! recent view acquisition. The one thing verified code cannot do is
//! block, so the protocol is exposed as `intern_step`: the wrapper that
//! owns the lock and the condition variable calls it in a loop, waits
//! whenever it answers `MustWait`, and wakes the waiters whenever
//! `release` answers that the last view is gone.

use vstd::prelude::*;

use crate::interning::{copy_all, copy_range, intern_post};
use crate::sync::error::InternError;
use crate::trie::Span;

pub use crate::interning::InternerInternal;

verus! {

/// How many of the outstanding-view entries belong to `pid`.
pub open spec fn count_of(s: Seq<u64>, pid: u64) -> int
    decreases s.len(),
{
    if s.len() == 0 {
        0
    } else {
        (if s[0] == pid {
            1int
        } else {
            0int
        }) + count_of(s.subrange(1, s.len() as int), pid)
    }
}

/// A participant's count is never negative.
pub proof fn lemma_count_nonneg(s: Seq<u64>, pid: u64)
    ensures
        0 <= count_of(s, pid),
    decreases s.len(),
{
    if s.len() > 0 {
        lemma_count_nonneg(s.subrange(1, s.len() as int), pid);
    }
}

/// A participant's count never exceeds the total number of entries.
pub proof fn lemma_count_le_len(s: Seq<u64>, pid: u64)
    ensures
        count_of(s, pid) <= s.len(),
    decreases s.len(),
{
    if s.len() > 0 {
        lemma_count_le_len(s.subrange(1, s.len() as int), pid);
    }
}

/// Appending one entry raises exactly its own participant's count.
proof fn lemma_count_push(s: Seq<u64>, x: u64, pid: u64)
    ensures
        count_of(s.push(x), pid) == count_of(s, pid) + (if x == pid {
            1int
        } else {
            0int
        }),
    decreases s.len(),
{
    if s.len() == 0 {
        assert(s.push(x)[0] == x);
        assert(s.push(x).subrange(1, 1) =~= Seq::<u64>::empty());
        assert(count_of(s.push(x).subrange(1, 1), pid) == 0);
    } else {
        assert(s.push(x)[0] == s[0]);
        assert(s.push(x).subrange(1, s.len() as int + 1) =~= s.subrange(1, s.len() as int).push(
            x,
        ));
        lemma_count_push(s.subrange(1, s.len() as int), x, pid);
        assert(count_of(s.push(x), pid) == (if s[0] == pid {
            1int
        } else {
            0int
        }) + count_of(s.push(x).subrange(1, s.len() as int + 1), pid));
    }
}

/// Removing one entry lowers exactly its own participant's count.
proof fn lemma_count_remove(s: Seq<u64>, k: int, pid: u64)
    requires
        0 <= k < s.len(),
    ensures
        count_of(s.remove(k), pid) == count_of(s, pid) - (if s[k] == pid {
            1int
        } else {
            0int
        }),
    decreases s.len(),
{
    if k == 0 {
        assert(s.remove(0) =~= s.subrange(1, s.len() as int));
    } else {
        assert(s.remove(k).subrange(1, s.len() - 1) =~= s.subrange(1, s.len() as int).remove(
            k - 1,
        ));
        lemma_count_remove(s.subrange(1, s.len() as int), k - 1, pid);
    }
}

/// A participant's count is positive exactly when one of the entries is
/// its own.
proof fn lemma_count_pos(s: Seq<u64>, pid: u64)
    ensures
        count_of(s, pid) > 0 <==> (exists|k: int| 0 <= k < s.len() && s[k] == pid),
    decreases s.len(),
{
    if s.len() > 0 {
        let tail = s.subrange(1, s.len() as int);
        lemma_count_pos(tail, pid);
        lemma_count_nonneg(tail, pid);
        if s[0] == pid {
            assert(0 <= 0 < s.len() && s[0] == pid);
        } else {
            if exists|k: int| 0 <= k < s.len() && s[k] == pid {
                let k = choose|k: int| 0 <= k < s.len() && s[k] == pid;
                assert(tail[k - 1] == pid);
            }
            if exists|k: int| 0 <= k < tail.len() && tail[k] == pid {
                let k = choose|k: int| 0 <= k < tail.len() && tail[k] == pid;
                assert(s[k + 1] == pid);
            }
        }
    }
}

/// The shared interner state: the core, one outstanding-view entry per
/// live view (labelled with its holder), the total count, and the tag of
/// the most recent view acquisition.
pub struct Interner {
    pub internal: InternerInternal,
    pub refs: usize,
    pub local_refs: Vec<u64>,
    pub last_ref: Option<u64>,
}

/// A single interned string: a span into the store of the interner that
/// produced it. Cheap to copy; equal exactly when the spans are equal,
/// which identifies the text because each distinct string has one
/// canonical span per interner.
#[derive(Clone, Copy, Debug, Hash, PartialEq, Eq, Structural)]
pub struct Intern {
    pub span: Span,
}

/// A view of an interned string's text. Not copyable: each view is
/// accounted for in the interner's outstanding-view list until it is
/// released.
pub struct InternRef {
    pub span: Span,
    pub text: Vec<char>,
}

/// What one decision of the interning protocol can answer: the string was
/// interned; the calling participant holds a view itself, which no amount
/// of waiting can resolve; or other participants hold views, so the caller
/// should wait until it is woken and ask again.
#[derive(Clone, Copy, Debug, PartialEq, Eq, Structural)]
pub enum InternStep {
    Interned(Intern),
    SelfContended(u64),
    MustWait,
}

/// What releasing a view does to the shared state: only the holder's own
/// count drops, by one, everything but the counters stays, and `notify`
/// says whether the last view is now gone (so waiters must be woken).
pub open spec fn release_post(pre: Interner, pid: u64, post: Interner, notify: bool) -> bool {
    &&& post.internal == pre.internal
    &&& post.last_ref == pre.last_ref
    &&& pre.refs > 0
    &&& post.refs == pre.refs - 1
    &&& count_of(post.local_refs@, pid) == count_of(pre.local_refs@, pid) - 1
    &&& forall|q: u64| q != pid ==> count_of(post.local_refs@, q) == count_of(pre.local_refs@, q)
    &&& notify == (post.refs == 0)
}

impl Intern {
    /// The handle's span lies inside the interner's store.
    pub open spec fn valid_for(self, i: Interner) -> bool {
        self.span.start <= self.span.end && self.span.end <= i.internal.store@.len()
    }

    /// Acquires a view of this handle's text for participant `pid`:
    /// records `tag` as the latest acquisition site, adds one
    /// outstanding-view entry for `pid`, and hands out the text the span
    /// names.
    pub fn get_ref(&self, interner: &mut Interner, pid: u64, tag: u64) -> (r: InternRef)
        requires
            old(interner).wf(),
            self.valid_for(*old(interner)),
            old(interner).refs < usize::MAX,
        ensures
            final(interner).wf(),
            final(interner).internal == old(interner).internal,
            final(interner).refs == old(interner).refs + 1,
            final(interner).local_refs@ == old(interner).local_refs@.push(pid),
            final(interner).local_count(pid) == old(interner).local_count(pid) + 1,
            forall|q: u64|
                q != pid ==> final(interner).local_count(q) == old(interner).local_count(q),
            final(interner).last_ref == Some(tag),
            r.span == self.span,
            r.text@ == old(interner).internal.store@.subrange(
                self.span.start as int,
                self.span.end as int,
            ),
    {
        interner.last_ref = Some(tag);
        interner.refs = interner.refs + 1;
        interner.local_refs.push(pid);
        proof {
            assert forall|q: u64| true implies count_of(interner.local_refs@, q) == count_of(
                old(interner).local_refs@,
                q,
            ) + (if pid == q {
                1int
            } else {
                0int
            }) by {
                lemma_count_push(old(interner).local_refs@, pid, q);
            }
        }
        let text = copy_range(&interner.internal.store, self.span);
        InternRef { span: self.span, text }
    }
}

impl InternRef {
    /// The text the view exposes, as an owned copy.
    pub fn to_text(&self) -> (r: Vec<char>)
        ensures
            r@ == self.text@,
    {
        copy_all(&self.text)
    }

    /// The length of the viewed text.
    pub fn len(&self) -> (r: usize)
        ensures
            r == self.text@.len(),
    {
        self.text.len()
    }

    /// One character of the viewed text.
    pub fn char_at(&self, i: usize) -> (r: char)
        requires
            i < self.text@.len(),
        ensures
            r == self.text@[i as int],
    {
        self.text[i]
    }
}

impl Interner {
    /// The count of views that participant `pid` holds.
    pub open spec fn local_count(self, pid: u64) -> int {
        count_of(self.local_refs@, pid)
    }

    /// The core is consistent, the global count equals the number of
    /// outstanding-view entries, and whenever any view is outstanding the
    /// tag of its acquisition site is on record.
    pub open spec fn wf(self) -> bool {
        &&& self.internal.wf()
        &&& self.refs == self.local_refs@.len()
        &&& (self.refs > 0 ==> self.last_ref is Some)
    }

    /// Constructs an empty interner with no outstanding views.
    pub fn new() -> (r: Interner)
        ensures
            r.wf(),
            r.refs == 0,
            r.last_ref is None,
            r.local_refs@.len() == 0,
            r.internal.store@.len() == 0,
            forall|p: Seq<char>| r.internal.index.has_path(p) <==> p.len() == 0,
    {
        Interner {
            internal: InternerInternal::new(),
            refs: 0,
            local_refs: Vec::new(),
            last_ref: None,
        }
    }

    /// Whether participant `pid` currently holds any view.
    pub fn holds_view(&self, pid: u64) -> (r: bool)
        ensures
            r == (self.local_count(pid) > 0),
    {
        let n = self.local_refs.len();
        let mut k: usize = 0;
        while k < n
            invariant
                n == self.local_refs@.len(),
                k <= n,
                forall|k2: int| 0 <= k2 < k ==> self.local_refs@[k2] != pid,
            decreases n - k,
        {
            if self.local_refs[k] == pid {
                proof {
                    lemma_count_pos(self.local_refs@, pid);
                }
                return true;
            }
            k = k + 1;
        }
        proof {
            lemma_count_pos(self.local_refs@, pid);
        }
        false
    }

    /// One decision of the interning protocol, taken under the lock. If
    /// the caller itself holds a view, that is unresolvable
    /// self-contention; if anyone else does, the caller must wait and ask
    /// again; otherwise the string is interned. Waiting itself is the
    /// wrapper's business: this function never blocks.
    pub fn intern_step(&mut self, pid: u64, s: &Vec<char>) -> (r: InternStep)
        requires
            old(self).wf(),
            old(self).internal.store@.len() + s@.len() <= usize::MAX,
        ensures
            final(self).wf(),
            final(self).refs == old(self).refs,
            final(self).local_refs@ == old(self).local_refs@,
            final(self).last_ref == old(self).last_ref,
            match r {
                InternStep::Interned(h) => {
                    &&& old(self).refs == 0
                    &&& intern_post(old(self).internal, s@, final(self).internal, h.span)
                    &&& h.valid_for(*final(self))
                },
                InternStep::SelfContended(t) => {
                    &&& old(self).local_count(pid) > 0
                    &&& *final(self) == *old(self)
                    &&& Some(t) == old(self).last_ref
                },
                InternStep::MustWait => {
                    &&& old(self).local_count(pid) == 0
                    &&& old(self).refs > 0
                    &&& *final(self) == *old(self)
                },
            },
            old(self).refs == 0 ==> r is Interned,
    {
        proof {
            lemma_count_nonneg(self.local_refs@, pid);
            lemma_count_le_len(self.local_refs@, pid);
        }
        if self.holds_view(pid) {
            let tag = match self.last_ref {
                Some(t) => t,
                None => {
                    proof {
                        assert(false);
                    }
                    0
                },
            };
            return InternStep::SelfContended(tag);
        }
        if self.refs > 0 {
            return InternStep::MustWait;
        }
        let span = self.internal.intern_uncontested(s);
        InternStep::Interned(Intern { span })
    }

    /// Interns `s` for participant `pid`, failing with the recorded
    /// acquisition tag if `pid` itself holds a view. The caller must
    /// first have waited out every other participant's views — under the
    /// lock, a wait loop around `intern_step` does exactly that.
    pub fn try_intern(&mut self, pid: u64, s: &Vec<char>) -> (r: Result<Intern, InternError>)
        requires
            old(self).wf(),
            old(self).internal.store@.len() + s@.len() <= usize::MAX,
            old(self).refs == old(self).local_count(pid),
        ensures
            final(self).wf(),
            final(self).refs == old(self).refs,
            final(self).local_refs@ == old(self).local_refs@,
            final(self).last_ref == old(self).last_ref,
            match r {
                Ok(h) => {
                    &&& old(self).local_count(pid) == 0
                    &&& intern_post(old(self).internal, s@, final(self).internal, h.span)
                    &&& h.valid_for(*final(self))
                },
                Err(e) => {
                    &&& old(self).local_count(pid) > 0
                    &&& *final(self) == *old(self)
                    &&& e == InternError::OutstandingLocalRef(old(self).last_ref.unwrap())
                },
            },
    {
        proof {
            lemma_count_nonneg(self.local_refs@, pid);
        }
        match self.intern_step(pid, s) {
            InternStep::Interned(h) => Ok(h),
            InternStep::SelfContended(t) => Err(InternError::OutstandingLocalRef(t)),
            InternStep::MustWait => {
                proof {
                    assert(false);
                }
                Err(InternError::OutstandingLocalRef(0))
            },
        }
    }

    /// Interns `s` for participant `pid`; no view may be outstanding
    /// anywhere. The recoverable variant is `try_intern`; an unverified
    /// caller that cannot rule self-contention out checks its error
    /// instead of calling this.
    pub fn intern(&mut self, pid: u64, s: &Vec<char>) -> (r: Intern)
        requires
            old(self).wf(),
            old(self).internal.store@.len() + s@.len() <= usize::MAX,
            old(self).refs == 0,
        ensures
            final(self).wf(),
            final(self).refs == 0,
            final(self).local_refs@ == old(self).local_refs@,
            final(self).last_ref == old(self).last_ref,
            intern_post(old(self).internal, s@, final(self).internal, r.span),
            r.valid_for(*final(self)),
    {
        proof {
            lemma_count_nonneg(self.local_refs@, pid);
            lemma_count_le_len(self.local_refs@, pid);
        }
        match self.try_intern(pid, s) {
            Ok(h) => h,
            Err(_) => {
                proof {
                    assert(false);
                }
                Intern { span: Span { start: 0, end: 0 } }
            },
        }
    }

    /// Releases a view that participant `pid` holds, surrendering it: one
    /// of `pid`'s outstanding-view entries goes away. Returns whether the
    /// last view anywhere is now gone, in which case every waiting
    /// participant must be woken. Releasing a view the participant does
    /// not hold would be a counting bug and is excluded by contract.
    pub fn release(&mut self, pid: u64, _view: InternRef) -> (notify: bool)
        requires
            old(self).wf(),
            old(self).local_count(pid) > 0,
        ensures
            final(self).wf(),
            release_post(*old(self), pid, *final(self), notify),
    {
        proof {
            lemma_count_le_len(self.local_refs@, pid);
        }
        let k = find_pid(&self.local_refs, pid);
        self.local_refs.remove(k);
        proof {
            assert forall|q: u64| true implies count_of(self.local_refs@, q) == count_of(
                old(self).local_refs@,
                q,
            ) - (if old(self).local_refs@[k as int] == q {
                1int
            } else {
                0int
            }) by {
                lemma_count_remove(old(self).local_refs@, k as int, q);
            }
        }
        self.refs = self.refs - 1;
        self.refs == 0
    }
}

/// Finds an outstanding-view entry belonging to `pid`.
fn find_pid(v: &Vec<u64>, pid: u64) -> (k: usize)
    requires
        count_of(v@, pid) > 0,
    ensures
        (k as int) < v@.len(),
        v@[k as int] == pid,
{
    let n = v.len();
    let mut k: usize = 0;
    while k < n
        invariant
            n == v@.len(),
            k <= n,
            count_of(v@, pid) > 0,
            forall|k2: int| 0 <= k2 < k ==> v@[k2] != pid,
        decreases n - k,
    {
        if v[k] == pid {
            return k;
        }
        k = k + 1;
    }
    proof {
        lemma_count_pos(v@, pid);
        assert(false);
    }
    0
}

/// Counter integrity: the global outstanding count is the number of live
/// views (never negative, by type), and no participant's own count can
/// exceed it. Together with the exact counter arithmetic in the contracts
/// of `get_ref` and `release`, any interleaving of acquires and releases
/// keeps the global count equal to the number of unreleased views.
pub proof fn lemma_counter_integrity(s: Interner, pid: u64)
    requires
        s.wf(),
    ensures
        s.refs == s.local_refs@.len(),
        0 <= s.local_count(pid),
        s.local_count(pid) <= s.refs,
{
    lemma_count_nonneg(s.local_refs@, pid);
    lemma_count_le_len(s.local_refs@, pid);
}

/// Cross-participant unblocking: when `q` releases the only outstanding
/// view, the release reports that waiters must be woken, and a woken
/// participant `p` then finds no views at all outstanding — so its next
/// `intern_step` can only answer `Interned`.
pub proof fn lemma_release_unblocks(pre: Interner, q: u64, post: Interner, notify: bool, p: u64)
    requires
        pre.wf(),
        post.wf(),
        release_post(pre, q, post, notify),
        pre.refs == 1,
    ensures
        notify,
        post.refs == 0,
        post.local_count(p) == 0,
{
    lemma_count_nonneg(post.local_refs@, p);
    lemma_count_le_len(post.local_refs@, p);
}

} // verus!
