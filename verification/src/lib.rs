//! A string-interning library: each distinct fragment of text is stored once
//! in a single append-only buffer, and callers receive small handles that
//! compare in constant time. A suffix trie over the stored text lets any
//! substring of previously interned text reuse the existing storage.
//!
//! Two operating modes share the data model: `sync` holds the state that a
//! lock-and-condvar wrapper drives from several participants, and `unsync`
//! is the single-owner cooperative variant.

pub mod interning;
pub mod sync;
pub mod trie;
pub mod unsync;
