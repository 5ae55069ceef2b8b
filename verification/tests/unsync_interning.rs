use str_interning::trie::span;
use str_interning::unsync::{InternError, Interner};

fn chars(s: &str) -> Vec<char> {
    s.chars().collect()
}

#[test]
fn interner() {
    let mut interner = Interner::new();
    let hello1 = interner.intern(&chars("hello"));
    let goodbye = interner.intern(&chars("goodbye"));
    let hello2 = interner.intern(&chars("hello"));

    let r1 = hello1.get_ref(&mut interner, 1);
    assert_eq!(r1.to_text(), chars("hello"));
    let range1 = interner.release(r1);

    let r2 = hello2.get_ref(&mut interner, 2);
    assert_eq!(r2.to_text(), chars("hello"));
    let range2 = interner.release(r2);

    let rg = goodbye.get_ref(&mut interner, 3);
    assert_eq!(rg.to_text(), chars("goodbye"));
    let range_g = interner.release(rg);

    // identical content: equal handles, identical storage ranges
    assert_eq!(hello1, hello2);
    assert_eq!(range1, range2);
    // distinct content: unequal handles, disjoint storage ranges
    assert_ne!(hello1, goodbye);
    assert!(range1.end <= range_g.start || range_g.end <= range1.start);
}

#[test]
fn try_intern_errors_while_holding_ref() {
    let mut interner = Interner::new();
    let hello = interner.intern(&chars("hello"));
    let r = hello.get_ref(&mut interner, 7);
    let e = interner.try_intern(&chars("hello"));
    assert_eq!(e, Err(InternError::OutstandingRef(7)));
    interner.release(r);
    // the failed call corrupted nothing: a properly scoped call succeeds
    let h2 = interner.try_intern(&chars("hello")).unwrap();
    assert_eq!(hello, h2);
}

#[test]
fn substring_reuse_does_not_grow_store() {
    let mut interner = Interner::new();
    let hello = interner.intern(&chars("hello"));
    let hell = interner.intern(&chars("hell"));
    let ll = interner.intern(&chars("ll"));
    let ell = interner.intern(&chars("ell"));
    let o = interner.intern(&chars("o"));
    assert_eq!(hello.span, span(0, 5));
    assert_eq!(hell.span, span(0, 4));
    assert_eq!(ll.span, span(2, 2));
    assert_eq!(ell.span, span(1, 3));
    assert_eq!(o.span, span(4, 1));
    // every substring lies inside "hello"'s range and nothing was appended
    let store = interner.extract_store();
    assert_eq!(store, chars("hello"));
}

#[test]
fn nonsubstring_grows_store() {
    let mut interner = Interner::new();
    interner.intern(&chars("hello"));
    let hohoho = interner.intern(&chars("hohoho"));
    assert_eq!(hohoho.span, span(5, 6));
    let store = interner.extract_store();
    assert_eq!(store, chars("hellohohoho"));
}

#[test]
fn lookup_reuses_text_inside_a_later_string() {
    let mut interner = Interner::new();
    let h1 = interner.intern(&chars("hello"));
    let h2 = interner.intern(&chars("hoho"));
    assert_eq!(h1.span, span(0, 5));
    assert_eq!(h2.span, span(5, 4));
    // "ho" resolves to the span covering the "ho" inside "hoho",
    // not to a fresh allocation
    let ho = interner.intern(&chars("ho"));
    assert_eq!(ho.span, span(5, 2));
    let store = interner.extract_store();
    assert_eq!(store, chars("hellohoho"));
}

#[test]
fn empty_string_interns_to_the_root_span() {
    let mut interner = Interner::new();
    let empty = interner.intern(&chars(""));
    assert_eq!(empty.span, span(0, 0));
    let still_empty = interner.try_intern(&chars("")).unwrap();
    assert_eq!(empty, still_empty);
    assert_eq!(interner.extract_store(), chars(""));
}
