use str_interning::trie::{span, Trie};

fn chars(s: &str) -> Vec<char> {
    s.chars().collect()
}

#[test]
fn trie() {
    let mut trie = Trie::new();

    let hello_span = trie.insert(&chars("hello"), 0);

    assert_eq!(span(0, 5), hello_span);
    assert_eq!(Some(span(0, 4)), trie.get(&chars("hell")));
    assert_eq!(Some(span(2, 2)), trie.get(&chars("ll")));
    assert_eq!(None, trie.get(&chars("hohoho")));

    let hoho_span = trie.insert(&chars("hoho"), 3);

    assert_eq!(span(3, 4), hoho_span);
    assert_eq!(Some(span(0, 1)), trie.get(&chars("h")));
    assert_eq!(Some(span(3, 2)), trie.get(&chars("ho")));
    assert_eq!(Some(span(4, 2)), trie.get(&chars("oh")));
    assert_eq!(Some(span(0, 2)), trie.get(&chars("he")));
    assert_eq!(None, trie.get(&chars("hi")));
}

#[test]
fn insert_one_registers_prefixes_only() {
    let mut trie = Trie::new();
    let sp = trie.insert_one(&chars("abc"), 0);
    assert_eq!(sp, span(0, 3));
    assert_eq!(Some(span(0, 1)), trie.get(&chars("a")));
    assert_eq!(Some(span(0, 2)), trie.get(&chars("ab")));
    assert_eq!(None, trie.get(&chars("b")));
    assert_eq!(None, trie.get(&chars("bc")));
}

#[test]
fn first_writer_wins() {
    let mut trie = Trie::new();
    let first = trie.insert(&chars("ab"), 0);
    let again = trie.insert(&chars("ab"), 9);
    assert_eq!(first, span(0, 2));
    assert_eq!(again, span(0, 2));
    assert_eq!(Some(span(0, 2)), trie.get(&chars("ab")));
    assert_eq!(Some(span(1, 1)), trie.get(&chars("b")));
}

#[test]
fn partial_match_is_not_a_hit() {
    let mut trie = Trie::new();
    trie.insert(&chars("hello"), 0);
    assert_eq!(None, trie.get(&chars("hellos")));
    assert_eq!(None, trie.get(&chars("x")));
    assert_eq!(Some(span(0, 0)), trie.get(&chars("")));
}
