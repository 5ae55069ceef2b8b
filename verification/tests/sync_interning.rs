use str_interning::sync::{InternError, InternStep, Interner};
use str_interning::trie::span;

fn chars(s: &str) -> Vec<char> {
    s.chars().collect()
}

#[test]
fn interning_interner() {
    let mut interner = Interner::new();
    let hello1 = interner.intern(1, &chars("hello"));
    let goodbye = interner.intern(1, &chars("goodbye"));
    let hello2 = interner.intern(1, &chars("hello"));

    let r1 = hello1.get_ref(&mut interner, 1, 10);
    assert_eq!(r1.to_text(), chars("hello"));
    interner.release(1, r1);

    let r2 = hello2.get_ref(&mut interner, 1, 11);
    assert_eq!(r2.to_text(), chars("hello"));
    interner.release(1, r2);

    let rg = goodbye.get_ref(&mut interner, 1, 12);
    assert_eq!(rg.to_text(), chars("goodbye"));
    interner.release(1, rg);

    // identical content: equal handles with identical storage ranges
    assert_eq!(hello1, hello2);
    // distinct content: unequal handles with disjoint storage ranges
    assert_ne!(hello1, goodbye);
    assert!(hello1.span.end <= goodbye.span.start);
}

#[test]
fn self_contention_is_detected() {
    let mut interner = Interner::new();
    let hello = interner.intern(1, &chars("hello"));
    let r = hello.get_ref(&mut interner, 1, 42);
    let e = interner.try_intern(1, &chars("hello"));
    assert_eq!(e, Err(InternError::OutstandingLocalRef(42)));
    let notify = interner.release(1, r);
    assert!(notify);
    // the failed call corrupted nothing: a properly scoped call succeeds
    let h2 = interner.try_intern(1, &chars("hello")).unwrap();
    assert_eq!(hello, h2);
}

#[test]
fn cross_participant_blocking_protocol() {
    let mut interner = Interner::new();
    let hello = interner.intern(1, &chars("hello"));
    let r = hello.get_ref(&mut interner, 1, 5);
    // participant 2 is told to wait while participant 1 holds a view
    match interner.intern_step(2, &chars("world")) {
        InternStep::MustWait => {}
        _ => panic!("expected the protocol to make participant 2 wait"),
    }
    // releasing the only outstanding view reports that waiters must wake
    let notify = interner.release(1, r);
    assert!(notify);
    // the woken participant proceeds without error
    match interner.intern_step(2, &chars("world")) {
        InternStep::Interned(h) => assert_eq!(h.span, span(5, 5)),
        _ => panic!("expected participant 2 to proceed after the release"),
    }
}

#[test]
fn counters_track_outstanding_views() {
    let mut interner = Interner::new();
    let a = interner.intern(1, &chars("aa"));
    let b = interner.intern(2, &chars("bb"));
    let r1 = a.get_ref(&mut interner, 1, 1);
    let r2 = b.get_ref(&mut interner, 2, 2);
    let r3 = a.get_ref(&mut interner, 1, 3);
    assert_eq!(interner.refs, 3);
    assert!(interner.holds_view(1));
    assert!(interner.holds_view(2));
    assert!(!interner.holds_view(3));
    // the count only reaches zero when the last view goes
    assert!(!interner.release(1, r1));
    assert!(!interner.release(2, r2));
    assert!(interner.release(1, r3));
    assert_eq!(interner.refs, 0);
}

#[test]
fn second_participant_interns_after_wait() {
    let mut interner = Interner::new();
    let a = interner.intern(1, &chars("abc"));
    let r = a.get_ref(&mut interner, 1, 9);
    // participant 2 would not deadlock, merely wait: no error surfaces
    match interner.intern_step(2, &chars("abc")) {
        InternStep::MustWait => {}
        _ => panic!("expected a wait, not an error"),
    }
    interner.release(1, r);
    let h2 = interner.intern(2, &chars("abc"));
    assert_eq!(a, h2);
}
