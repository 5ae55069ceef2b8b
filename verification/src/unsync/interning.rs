//! The cooperative interner: an owned store, an outstanding-view counter,
//! and the tag of the most recent view acquisition. Views are released
//! explicitly; while any view is outstanding, interning fails rather than
//! invalidate it.

use vstd::prelude::*;

use crate::interning::{copy_all, copy_range, intern_post, InternerInternal};
use crate::trie::Span;
use crate::unsync::error::InternError;

verus! {

/// The single-owner interner.
pub struct Interner {
    pub internal: InternerInternal,
    pub refs: usize,
    pub last_ref: Option<u64>,
}

/// A single interned string: a span into the store of the interner that
/// produced it. Cheap to copy; equal exactly when the spans are equal,
/// which identifies the text because each distinct string has one
/// canonical span per interner.
#[derive(Clone, Copy, Debug, Hash, PartialEq, Eq, Structural)]
pub struct Intern {
    pub span: Span,
}

/// A view of an interned string's text. Not copyable: each view is
/// accounted for by the interner's counter until it is released.
pub struct InternRef {
    pub span: Span,
    pub text: Vec<char>,
}

impl Intern {
    /// The handle's span lies inside the interner's store.
    pub open spec fn valid_for(self, i: Interner) -> bool {
        self.span.start <= self.span.end && self.span.end <= i.internal.store@.len()
    }

    /// Acquires a view of this handle's text: records `tag` as the latest
    /// acquisition site, counts the view as outstanding, and hands out the
    /// text the span names.
    pub fn get_ref(&self, interner: &mut Interner, tag: u64) -> (r: InternRef)
        requires
            old(interner).wf(),
            self.valid_for(*old(interner)),
            old(interner).refs < usize::MAX,
        ensures
            final(interner).wf(),
            final(interner).internal == old(interner).internal,
            final(interner).refs == old(interner).refs + 1,
            final(interner).last_ref == Some(tag),
            r.span == self.span,
            r.text@ == old(interner).internal.store@.subrange(
                self.span.start as int,
                self.span.end as int,
            ),
    {
        interner.last_ref = Some(tag);
        interner.refs = interner.refs + 1;
        let text = copy_range(&interner.internal.store, self.span);
        InternRef { span: self.span, text }
    }
}

impl InternRef {
    /// The text the view exposes, as an owned copy.
    pub fn to_text(&self) -> (r: Vec<char>)
        ensures
            r@ == self.text@,
    {
        copy_all(&self.text)
    }

    /// The length of the viewed text.
    pub fn len(&self) -> (r: usize)
        ensures
            r == self.text@.len(),
    {
        self.text.len()
    }

    /// One character of the viewed text.
    pub fn char_at(&self, i: usize) -> (r: char)
        requires
            i < self.text@.len(),
        ensures
            r == self.text@[i as int],
    {
        self.text[i]
    }
}

impl Interner {
    /// The core is consistent, and whenever a view is outstanding the tag
    /// of its acquisition site is on record.
    pub open spec fn wf(self) -> bool {
        &&& self.internal.wf()
        &&& (self.refs > 0 ==> self.last_ref is Some)
    }

    /// Constructs an empty interner with no outstanding views.
    pub fn new() -> (r: Interner)
        ensures
            r.wf(),
            r.refs == 0,
            r.last_ref is None,
            r.internal.store@.len() == 0,
            forall|p: Seq<char>| r.internal.index.has_path(p) <==> p.len() == 0,
    {
        Interner { internal: InternerInternal::new(), refs: 0, last_ref: None }
    }

    /// Consumes the interner and hands back the raw store. Sound by
    /// construction: taking the interner by value means no handle-derived
    /// view of it can be live in verified code paths that still use it.
    pub fn extract_store(self) -> (r: Vec<char>)
        ensures
            r@ == self.internal.store@,
    {
        self.internal.store
    }

    /// Interns `s`, failing with the recorded acquisition tag if the owner
    /// still holds any view (there is no one to wait for), and otherwise
    /// performing the uncontested interning step.
    pub fn try_intern(&mut self, s: &Vec<char>) -> (r: Result<Intern, InternError>)
        requires
            old(self).wf(),
            old(self).internal.store@.len() + s@.len() <= usize::MAX,
        ensures
            final(self).wf(),
            final(self).refs == old(self).refs,
            final(self).last_ref == old(self).last_ref,
            match r {
                Ok(h) => {
                    &&& old(self).refs == 0
                    &&& intern_post(old(self).internal, s@, final(self).internal, h.span)
                    &&& h.valid_for(*final(self))
                },
                Err(e) => {
                    &&& old(self).refs > 0
                    &&& *final(self) == *old(self)
                    &&& e == InternError::OutstandingRef(old(self).last_ref.unwrap())
                },
            },
    {
        if self.refs > 0 {
            let tag = match self.last_ref {
                Some(t) => t,
                None => {
                    proof {
                        assert(false);
                    }
                    0
                },
            };
            return Err(InternError::OutstandingRef(tag));
        }
        let span = self.internal.intern_uncontested(s);
        Ok(Intern { span })
    }

    /// Interns `s`; the caller must hold no view. The recoverable variant
    /// is `try_intern`; an unverified caller that cannot rule the conflict
    /// out checks its error instead.
    pub fn intern(&mut self, s: &Vec<char>) -> (r: Intern)
        requires
            old(self).wf(),
            old(self).refs == 0,
            old(self).internal.store@.len() + s@.len() <= usize::MAX,
        ensures
            final(self).wf(),
            final(self).refs == 0,
            final(self).last_ref == old(self).last_ref,
            intern_post(old(self).internal, s@, final(self).internal, r.span),
            r.valid_for(*final(self)),
    {
        let span = self.internal.intern_uncontested(s);
        Intern { span }
    }

    /// Releases a view, surrendering it: the outstanding count drops by
    /// one. Releasing with no view outstanding would be a counting bug and
    /// is excluded by contract.
    pub fn release(&mut self, r: InternRef) -> (released: Span)
        requires
            old(self).wf(),
            old(self).refs > 0,
        ensures
            final(self).wf(),
            final(self).internal == old(self).internal,
            final(self).last_ref == old(self).last_ref,
            final(self).refs == old(self).refs - 1,
            released == r.span,
    {
        self.refs = self.refs - 1;
        r.span
    }
}

} // verus!
