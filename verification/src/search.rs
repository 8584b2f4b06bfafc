//! A trie over characters.
use crate::util::Cursor;
use std::collections::HashMap;
use vstd::prelude::*;

verus! {

/// A node of the trie: its children, by the character that leads to each.
#[derive(Eq, PartialEq, Debug)]
pub struct Trie {
    pub children: HashMap<char, Trie>,
}

impl Trie {
    /// A trie without children.
    pub fn new() -> (t: Trie)
        ensures
            t.children@ == Map::<char, Trie>::empty(),
    {
        Trie { children: HashMap::new() }
    }

    /// Walks down the trie along the characters of `data`, as far as nodes for
    /// them exist. No node is added: the trie stays as it is.
    pub fn insert(&mut self, data: &str)
        ensures
            *final(self) == *old(self),
    {
        let mut cs: Cursor = Cursor::new(data);
        let first: char = match cs.next() {
            Some(c) => c,
            None => {
                return ;
            },
        };
        if let Some(start) = self.children.get(&first) {
            let mut node: &Trie = start;
            loop
                decreases cs@.len(),
            {
                match cs.next() {
                    Some(c) => {
                        match node.children.get(&c) {
                            Some(v) => {
                                node = v;
                            },
                            None => {
                                break ;
                            },
                        }
                    },
                    None => {
                        break ;
                    },
                }
            }
        }
    }
}

} // verus!
