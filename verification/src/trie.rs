//! A set of byte sequences stored as a single-rooted trie.
//!
//! The nodes live in one arena and name each other by index: a node knows
//! its parent and, by label, its children. The root is the node at index 0.
//! Its label is the first octet of the first word stored, and of every word
//! stored after it: a word that starts otherwise is not taken.
//!
//! A trie stands for a [`WordSet`], the root's label and the set of stored
//! words. The contracts of the operations are stated over that model.

use crate::arena::{
    all_live, descend, grown_from, hangs, lemma_child_added, lemma_descend_finds,
    lemma_descend_sound, lemma_descend_stays_lost, lemma_growth_goes_on,
    lemma_marking_keeps_links, lemma_model_wf, lemma_nodes_spell_prefixes, lemma_path_same_links,
    lemma_prefix_by_walk, lemma_stored_after_mark, lemma_stored_by_walk, linked, live, model,
    path_of,
};
use crate::words::WordSet;
use std::collections::HashMap;
use vstd::prelude::*;

verus! {

/// One node of a trie. It carries the octet that labels it, whether a stored
/// word ends at it, the arena index of its parent, and the arena indices of
/// its children by their labels.
pub struct TrieNode {
    pub(crate) key: u8,
    pub(crate) terminal: bool,
    pub(crate) parent: Option<usize>,
    pub(crate) children: HashMap<u8, usize>,
}

/// A trie over octets.
pub struct Trie {
    nodes: Vec<TrieNode>,
}

/// The path of the node that `above` names; nothing where it names none.
spec fn path_above(nodes: Seq<TrieNode>, above: Option<usize>) -> Seq<u8> {
    match above {
        Some(p) => path_of(nodes, p as int),
        None => Seq::empty(),
    }
}

/// The number of nodes from the one that `above` names up to the root, at
/// most.
spec fn height(above: Option<usize>) -> int {
    match above {
        Some(p) => p + 1,
        None => 0,
    }
}

/// The octets of `labels`, last first.
fn reversed(labels: &Vec<u8>) -> (word: Vec<u8>)
    ensures
        word@ == labels@.reverse(),
{
    let mut word: Vec<u8> = Vec::new();
    let mut left: usize = labels.len();
    while left > 0
        invariant
            left <= labels.len(),
            word@.len() == labels.len() - left,
            forall|k: int| 0 <= k < word@.len() ==> word@[k] == labels@[labels.len() - 1 - k],
        decreases left,
    {
        left -= 1;
        word.push(labels[left]);
    }
    word
}

impl View for Trie {
    type V = WordSet;

    /// The root's label and the set of stored words.
    closed spec fn view(&self) -> WordSet {
        model(self.nodes@)
    }
}

impl TrieNode {
    /// Whether a stored word ends at this node.
    pub closed spec fn ends_word(&self) -> bool {
        self.terminal
    }

    /// Whether a stored word ends at this node.
    pub fn is_terminal(&self) -> (terminal: bool)
        ensures
            terminal == self.ends_word(),
    {
        self.terminal
    }

    /// The word spelled on the way from the root of `trie` to this node. It
    /// is put together from the labels met on the way up to the root, and
    /// starts with the root's own.
    pub fn get_word(&self, trie: &Trie) -> (word: Vec<u8>)
        requires
            trie.has_node(*self),
        ensures
            word@ == trie.spelling(*self),
    {
        proof {
            use_type_invariant(trie);
            let i = choose|i: int| 0 <= i < trie.nodes@.len() && #[trigger] trie.nodes@[i] == *self;
            if i > 0 {
                assert(hangs(trie.nodes@, i));
            }
        }
        let mut labels: Vec<u8> = Vec::new();
        labels.push(self.key);
        let mut above: Option<usize> = self.parent;
        while above.is_some()
            invariant
                linked(trie.nodes@),
                above matches Some(p) ==> p < trie.nodes@.len(),
                trie.spelling(*self) == path_above(trie.nodes@, above) + labels@.reverse(),
            decreases height(above),
        {
            let at: usize = above.unwrap();
            let node = &trie.nodes[at];
            proof {
                if at > 0 {
                    assert(hangs(trie.nodes@, at as int));
                }
            }
            labels.push(node.key);
            above = node.parent;
        }
        reversed(&labels)
    }
}

impl Trie {
    /// What holds of every trie: its nodes form a tree under the root, with
    /// no two children of a node under one label, and no node is a dead
    /// branch, that is, without a word that ends at it and without a child.
    #[verifier::type_invariant]
    pub closed spec fn wf(&self) -> bool {
        linked(self.nodes@) && all_live(self.nodes@)
    }

    /// Whether `node` is one of the nodes of this trie.
    pub closed spec fn has_node(&self, node: TrieNode) -> bool {
        exists|i: int| 0 <= i < self.nodes@.len() && #[trigger] self.nodes@[i] == node
    }

    /// The word spelled on the way from the root to `node`.
    pub closed spec fn spelling(&self, node: TrieNode) -> Seq<u8> {
        match node.parent {
            Some(p) => path_of(self.nodes@, p as int).push(node.key),
            None => seq![node.key],
        }
    }

    /// The model of every trie is well formed, and so finite.
    pub proof fn lemma_view_wf(&self)
        requires
            self.wf(),
        ensures
            self@.wf(),
            self@.prefixes().finite(),
    {
        lemma_model_wf(self.nodes@);
    }

    /// A node of the trie spells a non-empty prefix of a stored word, and a
    /// word ends at it exactly when what it spells is stored.
    pub proof fn lemma_node_spells_prefix(&self, node: TrieNode)
        requires
            self.wf(),
            self.has_node(node),
        ensures
            self@.prefixes().contains(self.spelling(node)),
            node.ends_word() == self@.contains(self.spelling(node)),
    {
        let i = choose|i: int| 0 <= i < self.nodes@.len() && #[trigger] self.nodes@[i] == node;
        lemma_nodes_spell_prefixes(self.nodes@);
        lemma_descend_finds(self.nodes@, i);
        lemma_stored_by_walk(self.nodes@, path_of(self.nodes@, i));
    }

    /// An empty trie: no root, no stored word.
    pub fn new() -> (trie: Trie)
        ensures
            trie@ == WordSet::empty(),
    {
        let trie = Trie { nodes: Vec::new() };
        assert(trie@.words =~= Set::<Seq<u8>>::empty());
        trie
    }

    /// Gives an empty arena its root: a node without parent or children,
    /// labelled with the first octet of `word`, at which a word ends if
    /// `word` has no second octet.
    fn insert_root(nodes: &mut Vec<TrieNode>, word: &Vec<u8>)
        requires
            old(nodes)@.len() == 0,
            word@.len() > 0,
        ensures
            final(nodes)@.len() == 1,
            final(nodes)@[0].key == word@[0],
            final(nodes)@[0].terminal == (word@.len() == 1),
            final(nodes)@[0].parent is None,
            final(nodes)@[0].children@ == Map::<u8, usize>::empty(),
    {
        let root = TrieNode {
            key: word[0],
            terminal: word.len() == 1,
            parent: None,
            children: HashMap::new(),
        };
        nodes.push(root);
    }

    /// Stores `word`. An empty word changes nothing, nor does a word whose
    /// first octet is not the root's label. The first word stored gives the
    /// trie its root. On the way along the word each octet after the first
    /// leads to the child under that label, which is made where there is
    /// none; the node at the end is marked as the end of a word.
    pub fn insert(&mut self, word: Vec<u8>)
        ensures
            final(self)@ == old(self)@.insert(word@),
    {
        proof {
            use_type_invariant(&*self);
        }
        if word.len() == 0 {
            return ;
        }
        if self.nodes.len() > 0 && self.nodes[0].key != word[0] {
            return ;
        }
        let ghost before = self.nodes@;
        let mut nodes: Vec<TrieNode> = Vec::new();
        std::mem::swap(&mut nodes, &mut self.nodes);
        if nodes.len() == 0 {
            Self::insert_root(&mut nodes, &word);
            assert(word@.len() == 1 ==> word@.take(1) =~= word@);
        }
        assert(path_of(nodes@, 0) =~= word@.take(1));
        let mut at: usize = 0;
        let mut n: usize = 1;
        while n < word.len()
            invariant
                1 <= n <= word.len(),
                at < nodes.len(),
                linked(nodes@),
                nodes@[0].key == word@[0],
                path_of(nodes@, at as int) == word@.take(n as int),
                grown_from(before, nodes@, word@),
                forall|i: int| 0 <= i < nodes@.len() && i != at ==> #[trigger] live(nodes@, i),
            decreases word.len() - n,
        {
            let label: u8 = word[n];
            let listed: Option<usize> = match nodes[at].children.get(&label) {
                Some(child) => Some(*child),
                None => None,
            };
            let ghost walked = nodes@;
            let next: usize = match listed {
                Some(child) => child,
                None => {
                    let fresh: usize = nodes.len();
                    nodes.push(
                        TrieNode {
                            key: label,
                            terminal: false,
                            parent: Some(at),
                            children: HashMap::new(),
                        },
                    );
                    nodes[at].children.insert(label, fresh);
                    proof {
                        lemma_child_added(walked, nodes@, at, label);
                        lemma_growth_goes_on(before, walked, nodes@, word@);
                        assert(nodes@[at as int].children@.contains_key(label));
                        assert forall|i: int|
                            0 <= i < nodes@.len() && i != fresh implies #[trigger] live(
                            nodes@,
                            i,
                        ) by {
                            if i != at {
                                assert(live(walked, i));
                            }
                        }
                    }
                    fresh
                },
            };
            proof {
                lemma_path_same_links(walked, nodes@, at as int);
            }
            at = next;
            n += 1;
        }
        let ghost grown = nodes@;
        nodes[at].terminal = true;
        proof {
            assert(word@.take(n as int) =~= word@);
            lemma_stored_after_mark(before, grown, nodes@, word@, at as int);
            lemma_marking_keeps_links(grown, nodes@, at as int);
            assert forall|i: int| 0 <= i < nodes@.len() implies #[trigger] live(nodes@, i) by {
                if i != at {
                    assert(live(grown, i));
                }
            }
        }
        self.nodes = nodes;
    }

    /// The index of the node at which the walk along all of `word` ends.
    fn walk(&self, word: &Vec<u8>) -> (end: Option<usize>)
        ensures
            match end {
                Some(i) => descend(self.nodes@, word@, word@.len() as int) == Some(i as int) && i
                    < self.nodes@.len(),
                None => descend(self.nodes@, word@, word@.len() as int) is None,
            },
    {
        proof {
            use_type_invariant(self);
        }
        if self.nodes.len() == 0 || word.len() == 0 {
            return None;
        }
        if self.nodes[0].key != word[0] {
            proof {
                lemma_descend_stays_lost(self.nodes@, word@, 1, word@.len() as int);
            }
            return None;
        }
        let mut at: usize = 0;
        let mut n: usize = 1;
        while n < word.len()
            invariant
                linked(self.nodes@),
                1 <= n <= word.len(),
                at < self.nodes.len(),
                descend(self.nodes@, word@, n as int) == Some(at as int),
            decreases word.len() - n,
        {
            match self.nodes[at].children.get(&word[n]) {
                Some(child) => {
                    at = *child;
                },
                None => {
                    proof {
                        lemma_descend_stays_lost(self.nodes@, word@, n + 1, word@.len() as int);
                    }
                    return None;
                },
            }
            n += 1;
        }
        Some(at)
    }

    /// The node at the end of `path`: there is one exactly when `path` is a
    /// non-empty prefix of a stored word. It spells `path`, and a word ends
    /// at it exactly when `path` is itself stored.
    pub fn lookup(&self, path: &Vec<u8>) -> (node: Option<&TrieNode>)
        ensures
            node is Some <==> self@.prefixes().contains(path@),
            node matches Some(n) ==> self.has_node(*n) && self.spelling(*n) == path@
                && n.ends_word() == self@.contains(path@),
    {
        proof {
            use_type_invariant(self);
            lemma_prefix_by_walk(self.nodes@, path@);
            lemma_stored_by_walk(self.nodes@, path@);
        }
        match self.walk(path) {
            Some(end) => {
                proof {
                    lemma_descend_sound(self.nodes@, path@, path@.len() as int);
                }
                Some(&self.nodes[end])
            },
            None => None,
        }
    }

    /// Whether `word` is a stored word: whether the walk along it from the
    /// root finds a child at every step and ends at a node at which a word
    /// ends.
    pub fn contains(&self, word: Vec<u8>) -> (found: bool)
        ensures
            found == self@.contains(word@),
    {
        proof {
            use_type_invariant(self);
            lemma_stored_by_walk(self.nodes@, word@);
        }
        match self.walk(&word) {
            Some(end) => self.nodes[end].terminal,
            None => false,
        }
    }

    /// The answer to a query for `prefix`. Where the walk along `prefix`
    /// ends at a node at which a word ends, it is the word which that node
    /// spells, and that is `prefix`; where the walk breaks off, or no word
    /// ends at its end, it is the empty sequence.
    pub fn find(&self, prefix: Vec<u8>) -> (word: Vec<u8>)
        ensures
            word@ == self@.find(prefix@),
    {
        match self.lookup(&prefix) {
            Some(node) => {
                if node.terminal {
                    node.get_word(self)
                } else {
                    Vec::new()
                }
            },
            None => Vec::new(),
        }
    }

    /// The number of nodes, which is the number of distinct non-empty
    /// prefixes of the stored words.
    pub fn node_count(&self) -> (count: usize)
        ensures
            count == self@.node_count(),
    {
        proof {
            use_type_invariant(self);
            lemma_model_wf(self.nodes@);
        }
        self.nodes.len()
    }
}

} // verus!
