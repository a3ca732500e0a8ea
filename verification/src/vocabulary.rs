//! The vocabulary: the set of known words, which never changes while shards
//! are counted.

use vstd::prelude::*;
use crate::chars::to_chars;
use crate::order::Token;
use crate::table::Table;

verus! {

/// A set of words, kept in ascending order.
pub struct Vocabulary {
    words: Table<Token>,
}

impl View for Vocabulary {
    type V = Set<Seq<char>>;

    closed spec fn view(&self) -> Set<Seq<char>> {
        self.words.map().dom()
    }
}

impl Vocabulary {
    /// The words are in order, none twice.
    pub closed spec fn wf(&self) -> bool {
        self.words.wf()
    }

    /// The vocabulary without words.
    pub fn new() -> (vocabulary: Self)
        ensures
            vocabulary.wf(),
            vocabulary@ == Set::<Seq<char>>::empty(),
    {
        let vocabulary = Vocabulary { words: Table::new() };
        proof {
            assert(vocabulary@ =~= Set::<Seq<char>>::empty());
        }
        vocabulary
    }

    /// The vocabulary of the keys of a table.
    pub fn from_table(words: Table<Token>) -> (vocabulary: Self)
        requires
            words.wf(),
        ensures
            vocabulary.wf(),
            vocabulary@ == words.map().dom(),
    {
        Vocabulary { words }
    }

    /// Whether the vocabulary has a word.
    pub fn contains(&self, word: &Vec<char>) -> (found: bool)
        requires
            self.wf(),
        ensures
            found == self@.contains(word@),
    {
        self.words.get(word).is_some()
    }

    /// Puts a word into the vocabulary.
    pub fn insert(&mut self, word: Vec<char>)
        requires
            old(self).wf(),
        ensures
            final(self).wf(),
            final(self)@ == old(self)@.insert(word@),
    {
        let ghost before = self.words.map();
        let ghost model = word@;
        proof {
            self.words.lemma_counts_fit();
        }
        let added = self.words.add(word, 0);
        proof {
            assert(added);
            assert(self.words.map().dom() =~= before.dom().insert(model));
        }
    }

    /// Whether the vocabulary has a word, given as a string.
    pub fn contains_str(&self, word: &str) -> (found: bool)
        requires
            self.wf(),
        ensures
            found == self@.contains(word@),
    {
        let chars = to_chars(word);
        self.contains(&chars)
    }

    /// Puts a word, given as a string, into the vocabulary.
    pub fn insert_str(&mut self, word: &str)
        requires
            old(self).wf(),
        ensures
            final(self).wf(),
            final(self)@ == old(self)@.insert(word@),
    {
        self.insert(to_chars(word));
    }
}

} // verus!
