//! The mathematical model of a single-rooted trie: the root's label and the
//! set of stored words, with the operations on them and the laws they obey.

use vstd::prelude::*;

verus! {

/// What a trie stands for. `root` is the label of the root, absent while the
/// trie is empty; `words` is the set of stored words.
pub struct WordSet {
    pub root: Option<u8>,
    pub words: Set<Seq<u8>>,
}

/// `base` after the words of `batch` were inserted one after the other.
pub open spec fn insert_all(base: WordSet, batch: Seq<Seq<u8>>) -> WordSet
    decreases batch.len(),
{
    if batch.len() == 0 {
        base
    } else {
        insert_all(base, batch.drop_last()).insert(batch.last())
    }
}

impl WordSet {
    /// The model of a trie without a root.
    pub open spec fn empty() -> WordSet {
        WordSet { root: None, words: Set::empty() }
    }

    /// Whether an insertion of `word` takes effect: the word is not empty,
    /// and it starts with the root's label once there is a root.
    pub open spec fn admits(self, word: Seq<u8>) -> bool {
        word.len() > 0 && (self.root is None || self.root == Some(word[0]))
    }

    /// The model after an insertion of `word`. A word that is not admitted
    /// changes nothing; the first admitted word sets the root's label.
    pub open spec fn insert(self, word: Seq<u8>) -> WordSet {
        if self.admits(word) {
            WordSet { root: Some(word[0]), words: self.words.insert(word) }
        } else {
            self
        }
    }

    /// Whether `word` is stored.
    pub open spec fn contains(self, word: Seq<u8>) -> bool {
        self.words.contains(word)
    }

    /// The answer to a query for `prefix`: the prefix itself where it is a
    /// stored word, the empty sequence otherwise.
    pub open spec fn find(self, prefix: Seq<u8>) -> Seq<u8> {
        if self.words.contains(prefix) {
            prefix
        } else {
            Seq::empty()
        }
    }

    /// The non-empty prefixes of the stored words. A trie holds one node for
    /// each of them.
    pub open spec fn prefixes(self) -> Set<Seq<u8>> {
        Set::new(
            |p: Seq<u8>|
                p.len() > 0 && exists|w: Seq<u8>| #[trigger]
                    self.words.contains(w) && p.is_prefix_of(w),
        )
    }

    /// The number of nodes of a trie that stores these words.
    pub open spec fn node_count(self) -> nat {
        self.prefixes().len()
    }

    /// What holds of the model of every trie: the stored words are finitely
    /// many, none is empty, all start with the root's label, and there is a
    /// root exactly when there is a stored word.
    pub open spec fn wf(self) -> bool {
        &&& self.words.finite()
        &&& self.root is None <==> self.words.is_empty()
        &&& forall|w: Seq<u8>| #[trigger]
            self.words.contains(w) ==> w.len() > 0 && self.root == Some(w[0])
    }

    /// The empty model is well formed, and insertion keeps a model so.
    pub proof fn lemma_insert_keeps_wf(self, word: Seq<u8>)
        requires
            self.wf(),
        ensures
            WordSet::empty().wf(),
            self.insert(word).wf(),
    {
    }

    /// The first word that is not empty gives an empty trie its root; once
    /// there is a root it stays, and so does its label.
    pub proof fn lemma_rooted_for_good(self, word: Seq<u8>)
        ensures
            self.root is None && word.len() > 0 ==> self.insert(word).root == Some(word[0]),
            self.root is Some ==> self.insert(word).root == self.root,
    {
    }

    /// A word that is admitted is stored once it was inserted.
    pub proof fn lemma_inserted_word_is_stored(self, word: Seq<u8>)
        requires
            self.admits(word),
        ensures
            self.insert(word).contains(word),
    {
    }

    /// A stored word stays stored, whatever is inserted.
    pub proof fn lemma_stored_words_stay(self, word: Seq<u8>, stored: Seq<u8>)
        requires
            self.contains(stored),
        ensures
            self.insert(word).contains(stored),
    {
    }

    /// While a trie has no root, every word inserted so far was empty.
    pub proof fn lemma_rootless_took_nothing(self, batch: Seq<Seq<u8>>, i: int)
        requires
            insert_all(self, batch).root is None,
            0 <= i < batch.len(),
        ensures
            self.root is None,
            batch[i].len() == 0,
        decreases batch.len(),
    {
        if i < batch.len() - 1 {
            self.lemma_rootless_took_nothing(batch.drop_last(), i);
        } else if batch.len() > 1 {
            self.lemma_rootless_took_nothing(batch.drop_last(), 0);
        }
    }

    /// After any number of insertions, every inserted word that is not empty
    /// and starts with the label of the root is stored.
    pub proof fn lemma_inserted_words_are_stored(self, batch: Seq<Seq<u8>>, i: int)
        requires
            0 <= i < batch.len(),
            batch[i].len() > 0,
            insert_all(self, batch).root == Some(batch[i][0]),
        ensures
            insert_all(self, batch).contains(batch[i]),
        decreases batch.len(),
    {
        let earlier = insert_all(self, batch.drop_last());
        if i < batch.len() - 1 {
            if earlier.root is None {
                self.lemma_rootless_took_nothing(batch.drop_last(), i);
            }
            self.lemma_inserted_words_are_stored(batch.drop_last(), i);
        }
    }

    /// An insertion changes the membership of no word but the inserted one.
    pub proof fn lemma_insert_touches_one_word(self, word: Seq<u8>, other: Seq<u8>)
        requires
            other != word,
        ensures
            self.insert(word).contains(other) == self.contains(other),
    {
    }

    /// A word that was neither stored at the start nor among the words
    /// inserted since is not stored.
    pub proof fn lemma_never_inserted_is_absent(self, batch: Seq<Seq<u8>>, word: Seq<u8>)
        requires
            !self.contains(word),
            !batch.contains(word),
        ensures
            !insert_all(self, batch).contains(word),
        decreases batch.len(),
    {
        if batch.len() > 0 {
            self.lemma_never_inserted_is_absent(batch.drop_last(), word);
        }
    }

    /// Inserting a word a second time changes nothing: the root's label,
    /// the set of stored words and with them every answer stay as they were
    /// after the first insertion.
    pub proof fn lemma_insert_idempotent(self, word: Seq<u8>)
        ensures
            self.insert(word).insert(word) == self.insert(word),
            self.insert(word).insert(word).node_count() == self.insert(word).node_count(),
            forall|w: Seq<u8>|
                self.insert(word).insert(word).contains(w) == self.insert(word).contains(w),
            forall|p: Seq<u8>| self.insert(word).insert(word).find(p) == self.insert(word).find(p),
    {
        if self.admits(word) {
            assert(self.insert(word).insert(word).words =~= self.insert(word).words);
        }
    }

    /// A query for a stored word returns that word, whatever longer words
    /// are stored beside it.
    pub proof fn lemma_find_stored_prefix(self, prefix: Seq<u8>, rest: Seq<u8>)
        requires
            self.contains(prefix + rest),
            self.contains(prefix),
        ensures
            self.find(prefix) == prefix,
    {
    }

    /// The empty model stores no word and answers every query with the
    /// empty sequence.
    pub proof fn lemma_empty_holds_nothing(word: Seq<u8>)
        ensures
            !WordSet::empty().contains(word),
            WordSet::empty().find(word) == Seq::<u8>::empty(),
    {
    }
}

} // verus!
