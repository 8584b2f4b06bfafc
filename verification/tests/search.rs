use mahana::search::Trie;
use std::collections::HashMap;

#[test]
fn test_new() {
    assert_eq!(
        Trie::new(),
        Trie {
            children: HashMap::new()
        }
    );
}

#[test]
fn insert_leaves_the_trie_as_it_is() {
    let mut trie = Trie::new();
    trie.insert("hello");
    assert_eq!(trie, Trie::new());
    trie.insert("");
    assert_eq!(trie, Trie::new());

    let mut inner = Trie::new();
    inner.children.insert('e', Trie::new());
    let mut outer = Trie::new();
    outer.children.insert('h', inner);
    outer.insert("hello");
    outer.insert("h");
    outer.insert("x");
    assert_eq!(outer.children.len(), 1);
    assert_eq!(outer.children[&'h'].children.len(), 1);
    assert_eq!(outer.children[&'h'].children[&'e'], Trie::new());
}
