//! The arena of a trie as a mathematical object: what its nodes spell, when
//! it is a tree, and what the operations on a trie do to it.

use crate::trie::TrieNode;
use crate::words::WordSet;
use vstd::prelude::*;
use vstd::set_lib::{lemma_int_range, lemma_len_subset, lemma_map_size, set_int_range};

verus! {

/// The octets on the way from the root to node `i`, the root's own first.
pub(crate) open spec fn path_of(nodes: Seq<TrieNode>, i: int) -> Seq<u8>
    decreases i,
{
    if 0 <= i < nodes.len() {
        match nodes[i].parent {
            Some(p) if p < i => path_of(nodes, p as int).push(nodes[i].key),
            _ => seq![nodes[i].key],
        }
    } else {
        Seq::empty()
    }
}

/// The node reached from the root by the first `n` octets of `word`: the
/// first octet must be the root's label, each later one the label of a child
/// of the node reached before it.
pub(crate) open spec fn descend(nodes: Seq<TrieNode>, word: Seq<u8>, n: int) -> Option<int>
    decreases n,
{
    if n <= 0 || n > word.len() || nodes.len() == 0 {
        None
    } else if n == 1 {
        if nodes[0].key == word[0] {
            Some(0)
        } else {
            None
        }
    } else {
        match descend(nodes, word, n - 1) {
            Some(i) => if 0 <= i < nodes.len() && nodes[i].children@.contains_key(word[n - 1]) {
                Some(nodes[i].children@[word[n - 1]] as int)
            } else {
                None
            },
            None => None,
        }
    }
}

/// Node `i` hangs under a node before it, which lists it under its label.
pub(crate) open spec fn hangs(nodes: Seq<TrieNode>, i: int) -> bool {
    match nodes[i].parent {
        Some(p) => p < i && nodes[p as int].children@.contains_key(nodes[i].key)
            && nodes[p as int].children@[nodes[i].key] == i,
        None => false,
    }
}

/// The child that node `i` lists under `k` is a later node that carries the
/// label `k` and names `i` as its parent.
pub(crate) open spec fn leads(nodes: Seq<TrieNode>, i: int, k: u8) -> bool {
    let c = nodes[i].children@[k];
    &&& i < c < nodes.len()
    &&& nodes[c as int].parent == Some(i as usize)
    &&& nodes[c as int].key == k
}

/// The arena is a tree: the root has no parent, every other node has one,
/// and parents and children agree on every edge.
pub(crate) open spec fn linked(nodes: Seq<TrieNode>) -> bool {
    &&& nodes.len() > 0 ==> nodes[0].parent is None
    &&& forall|i: int| 0 < i < nodes.len() ==> #[trigger] hangs(nodes, i)
    &&& forall|i: int, k: u8|
        0 <= i < nodes.len() && #[trigger] nodes[i].children@.contains_key(k) ==> leads(
            nodes,
            i,
            k,
        )
}

/// Node `i` is no dead branch: a word ends at it, or it has a child.
pub(crate) open spec fn live(nodes: Seq<TrieNode>, i: int) -> bool {
    nodes[i].terminal || exists|k: u8| #[trigger] nodes[i].children@.contains_key(k)
}

/// No node of the arena is a dead branch.
pub(crate) open spec fn all_live(nodes: Seq<TrieNode>) -> bool {
    forall|i: int| 0 <= i < nodes.len() ==> #[trigger] live(nodes, i)
}

/// The stored words: the paths of the nodes at which a word ends.
pub(crate) open spec fn stored(nodes: Seq<TrieNode>) -> Set<Seq<u8>> {
    Set::new(
        |w: Seq<u8>|
            exists|i: int|
                0 <= i < nodes.len() && nodes[i].terminal && #[trigger] path_of(nodes, i) == w,
    )
}

/// The paths of all nodes.
pub(crate) open spec fn spelled(nodes: Seq<TrieNode>) -> Set<Seq<u8>> {
    Set::new(|p: Seq<u8>| exists|i: int| 0 <= i < nodes.len() && #[trigger] path_of(nodes, i) == p)
}

/// What an arena stands for: the root's label and the stored words.
pub(crate) open spec fn model(nodes: Seq<TrieNode>) -> WordSet {
    WordSet {
        root: if nodes.len() == 0 {
            None
        } else {
            Some(nodes[0].key)
        },
        words: stored(nodes),
    }
}

/// Every path starts with the root's label.
pub(crate) proof fn lemma_path_starts_at_root(nodes: Seq<TrieNode>, i: int)
    requires
        linked(nodes),
        0 <= i < nodes.len(),
    ensures
        path_of(nodes, i).len() >= 1,
        path_of(nodes, i)[0] == nodes[0].key,
    decreases i,
{
    if i > 0 {
        assert(hangs(nodes, i));
        lemma_path_starts_at_root(nodes, nodes[i].parent->0 as int);
    }
}

/// A node's path depends only on the labels and parents of the nodes up to
/// it.
pub(crate) proof fn lemma_path_same_links(before: Seq<TrieNode>, now: Seq<TrieNode>, i: int)
    requires
        0 <= i < before.len() <= now.len(),
        forall|j: int|
            0 <= j <= i ==> (#[trigger] now[j]).key == before[j].key && now[j].parent
                == before[j].parent,
    ensures
        path_of(now, i) == path_of(before, i),
    decreases i,
{
    match before[i].parent {
        Some(p) if p < i => {
            lemma_path_same_links(before, now, p as int);
        },
        _ => {},
    }
}

/// A walk that arrives at a node has spelled that node's path.
pub(crate) proof fn lemma_descend_sound(nodes: Seq<TrieNode>, word: Seq<u8>, n: int)
    requires
        linked(nodes),
        descend(nodes, word, n) is Some,
    ensures
        1 <= n <= word.len(),
        0 <= descend(nodes, word, n)->0 < nodes.len(),
        path_of(nodes, descend(nodes, word, n)->0) == word.take(n),
    decreases n,
{
    if n > 1 {
        lemma_descend_sound(nodes, word, n - 1);
    }
}

/// A walk looks only at the octets it has passed.
pub(crate) proof fn lemma_descend_reads_prefix(
    nodes: Seq<TrieNode>,
    a: Seq<u8>,
    b: Seq<u8>,
    n: int,
)
    requires
        0 <= n <= a.len(),
        n <= b.len(),
        a.take(n) == b.take(n),
    ensures
        descend(nodes, a, n) == descend(nodes, b, n),
    decreases n,
{
    if n >= 1 {
        assert(a[n - 1] == a.take(n)[n - 1] && b[n - 1] == b.take(n)[n - 1]);
        if n > 1 {
            assert(a.take(n - 1) =~= a.take(n).take(n - 1));
            assert(b.take(n - 1) =~= b.take(n).take(n - 1));
            lemma_descend_reads_prefix(nodes, a, b, n - 1);
        }
    }
}

/// A walk along a node's path arrives at that node, so no two nodes have
/// the same path.
pub(crate) proof fn lemma_descend_finds(nodes: Seq<TrieNode>, i: int)
    requires
        linked(nodes),
        0 <= i < nodes.len(),
    ensures
        descend(nodes, path_of(nodes, i), path_of(nodes, i).len() as int) == Some(i),
    decreases i,
{
    if i > 0 {
        assert(hangs(nodes, i));
        let p = nodes[i].parent->0 as int;
        let up = path_of(nodes, p);
        let whole = path_of(nodes, i);
        lemma_descend_finds(nodes, p);
        assert(whole.take(up.len() as int) =~= up);
        assert(up.take(up.len() as int) =~= up);
        lemma_descend_reads_prefix(nodes, whole, up, up.len() as int);
    }
}

/// A walk that has failed stays failed.
pub(crate) proof fn lemma_descend_stays_lost(
    nodes: Seq<TrieNode>,
    word: Seq<u8>,
    m: int,
    n: int,
)
    requires
        1 <= m <= n,
        descend(nodes, word, m) is None,
    ensures
        descend(nodes, word, n) is None,
    decreases n,
{
    if m < n {
        lemma_descend_stays_lost(nodes, word, m, n - 1);
    }
}

/// A word is stored exactly when the walk along all of it ends at a node at
/// which a word ends.
pub(crate) proof fn lemma_stored_by_walk(nodes: Seq<TrieNode>, word: Seq<u8>)
    requires
        linked(nodes),
    ensures
        stored(nodes).contains(word) <==> (descend(nodes, word, word.len() as int) matches Some(i)
            && nodes[i].terminal),
{
    if descend(nodes, word, word.len() as int) is Some {
        lemma_descend_sound(nodes, word, word.len() as int);
        assert(word.take(word.len() as int) =~= word);
    }
    if stored(nodes).contains(word) {
        let i = choose|i: int|
            0 <= i < nodes.len() && nodes[i].terminal && #[trigger] path_of(nodes, i) == word;
        lemma_descend_finds(nodes, i);
    }
}

/// Where no node is a dead branch, every node lies on the way to a node at
/// which a word ends.
pub(crate) proof fn lemma_node_reaches_word(nodes: Seq<TrieNode>, i: int) -> (end: int)
    requires
        linked(nodes),
        all_live(nodes),
        0 <= i < nodes.len(),
    ensures
        0 <= end < nodes.len(),
        nodes[end].terminal,
        path_of(nodes, i).is_prefix_of(path_of(nodes, end)),
    decreases nodes.len() - i,
{
    if nodes[i].terminal {
        i
    } else {
        assert(live(nodes, i));
        let k = choose|k: u8| #[trigger] nodes[i].children@.contains_key(k);
        lemma_node_reaches_word(nodes, nodes[i].children@[k] as int)
    }
}

/// Each non-empty prefix of a node's path is the path of a node.
pub(crate) proof fn lemma_prefix_has_node(nodes: Seq<TrieNode>, i: int, n: int) -> (at: int)
    requires
        linked(nodes),
        0 <= i < nodes.len(),
        1 <= n <= path_of(nodes, i).len(),
    ensures
        0 <= at < nodes.len(),
        path_of(nodes, at) == path_of(nodes, i).take(n),
{
    let whole = path_of(nodes, i);
    lemma_descend_finds(nodes, i);
    if descend(nodes, whole, n) is None {
        lemma_descend_stays_lost(nodes, whole, n, whole.len() as int);
    }
    lemma_descend_sound(nodes, whole, n);
    descend(nodes, whole, n)->0
}

/// The paths of the nodes are the non-empty prefixes of the stored words.
pub(crate) proof fn lemma_nodes_spell_prefixes(nodes: Seq<TrieNode>)
    requires
        linked(nodes),
        all_live(nodes),
    ensures
        spelled(nodes) =~= model(nodes).prefixes(),
{
    let words = model(nodes).words;
    assert forall|p: Seq<u8>| spelled(nodes).contains(p) implies model(nodes).prefixes().contains(
        p,
    ) by {
        let i = choose|i: int| 0 <= i < nodes.len() && #[trigger] path_of(nodes, i) == p;
        let end = lemma_node_reaches_word(nodes, i);
        assert(words.contains(path_of(nodes, end)));
    }
    assert forall|p: Seq<u8>| model(nodes).prefixes().contains(p) implies spelled(nodes).contains(
        p,
    ) by {
        let w = choose|w: Seq<u8>| #[trigger] words.contains(w) && p.is_prefix_of(w);
        let i = choose|i: int|
            0 <= i < nodes.len() && nodes[i].terminal && #[trigger] path_of(nodes, i) == w;
        lemma_prefix_has_node(nodes, i, p.len() as int);
    }
}

/// A walk along all of `word` arrives exactly when `word` is a non-empty
/// prefix of a stored word.
pub(crate) proof fn lemma_prefix_by_walk(nodes: Seq<TrieNode>, word: Seq<u8>)
    requires
        linked(nodes),
        all_live(nodes),
    ensures
        model(nodes).prefixes().contains(word) <==> descend(nodes, word, word.len() as int) is Some,
{
    lemma_nodes_spell_prefixes(nodes);
    if descend(nodes, word, word.len() as int) is Some {
        lemma_descend_sound(nodes, word, word.len() as int);
        assert(word.take(word.len() as int) =~= word);
    }
    if spelled(nodes).contains(word) {
        let i = choose|i: int| 0 <= i < nodes.len() && #[trigger] path_of(nodes, i) == word;
        lemma_descend_finds(nodes, i);
    }
}

/// The model of a tree without dead branches is well formed, and the tree
/// has as many nodes as the stored words have non-empty prefixes.
pub(crate) proof fn lemma_model_wf(nodes: Seq<TrieNode>)
    requires
        linked(nodes),
        all_live(nodes),
    ensures
        model(nodes).wf(),
        model(nodes).prefixes().finite(),
        model(nodes).node_count() == nodes.len(),
{
    let ids = set_int_range(0, nodes.len() as int);
    let path = |i: int| path_of(nodes, i);
    lemma_int_range(0, nodes.len() as int);
    assert forall|i: int, j: int|
        ids.contains(i) && ids.contains(j) && #[trigger] path(i) == #[trigger] path(j) implies i
        == j by {
        lemma_descend_finds(nodes, i);
        lemma_descend_finds(nodes, j);
    }
    assert(ids.map(path) =~= spelled(nodes)) by {
        assert forall|p: Seq<u8>| spelled(nodes).contains(p) implies ids.map(path).contains(p) by {
            let i = choose|i: int| 0 <= i < nodes.len() && #[trigger] path_of(nodes, i) == p;
            assert(ids.contains(i) && p == path(i));
        }
    }
    lemma_map_size(ids, spelled(nodes), path);
    lemma_nodes_spell_prefixes(nodes);
    let words = model(nodes).words;
    lemma_len_subset(words, spelled(nodes));
    assert forall|w: Seq<u8>| #[trigger] words.contains(w) implies w.len() > 0 && model(nodes).root
        == Some(w[0]) by {
        let i = choose|i: int|
            0 <= i < nodes.len() && nodes[i].terminal && #[trigger] path_of(nodes, i) == w;
        lemma_path_starts_at_root(nodes, i);
    }
    if nodes.len() > 0 {
        let end = lemma_node_reaches_word(nodes, 0);
        assert(words.contains(path_of(nodes, end)));
    }
}

/// Node `i` carries the same label, parent and mark in both arenas.
pub(crate) open spec fn same_place(before: Seq<TrieNode>, now: Seq<TrieNode>, i: int) -> bool {
    &&& now[i].key == before[i].key
    &&& now[i].parent == before[i].parent
    &&& now[i].terminal == before[i].terminal
}

/// `now` is `before` on the way to holding `word` as well: the nodes of
/// `before` are in place, and a word ends at a node added since only if that
/// word is `word`.
pub(crate) open spec fn grown_from(
    before: Seq<TrieNode>,
    now: Seq<TrieNode>,
    word: Seq<u8>,
) -> bool {
    &&& before.len() <= now.len()
    &&& forall|i: int| 0 <= i < before.len() ==> #[trigger] same_place(before, now, i)
    &&& forall|i: int|
        before.len() <= i < now.len() && #[trigger] now[i].terminal ==> path_of(now, i) == word
}

/// A new last node, listed by node `at` under a label for which `at` had no
/// child, keeps the arena a tree.
pub(crate) proof fn lemma_child_added(
    before: Seq<TrieNode>,
    now: Seq<TrieNode>,
    at: usize,
    label: u8,
)
    requires
        linked(before),
        at < before.len() <= usize::MAX,
        !before[at as int].children@.contains_key(label),
        now.len() == before.len() + 1,
        forall|i: int| 0 <= i < before.len() && i != at ==> #[trigger] now[i] == before[i],
        now[at as int].key == before[at as int].key,
        now[at as int].parent == before[at as int].parent,
        now[at as int].children@ == before[at as int].children@.insert(
            label,
            before.len() as usize,
        ),
        now[before.len() as int].key == label,
        now[before.len() as int].parent == Some(at),
        now[before.len() as int].children@ == Map::<u8, usize>::empty(),
    ensures
        linked(now),
{
    assert forall|i: int| 0 < i < now.len() implies #[trigger] hangs(now, i) by {
        if i < before.len() {
            assert(hangs(before, i));
        }
    }
}

/// Growth by one node at which no word ends is still growth.
pub(crate) proof fn lemma_growth_goes_on(
    before: Seq<TrieNode>,
    walked: Seq<TrieNode>,
    now: Seq<TrieNode>,
    word: Seq<u8>,
)
    requires
        grown_from(before, walked, word),
        now.len() == walked.len() + 1,
        !now[walked.len() as int].terminal,
        forall|i: int| 0 <= i < walked.len() ==> #[trigger] same_place(walked, now, i),
    ensures
        grown_from(before, now, word),
{
    assert forall|i: int| 0 <= i < before.len() implies #[trigger] same_place(before, now, i) by {
        assert(same_place(before, walked, i));
        assert(same_place(walked, now, i));
    }
    assert forall|i: int|
        before.len() <= i < now.len() && #[trigger] now[i].terminal implies path_of(now, i)
        == word by {
        assert(same_place(walked, now, i));
        assert forall|j: int| 0 <= j <= i implies (#[trigger] now[j]).key == walked[j].key
            && now[j].parent == walked[j].parent by {
            assert(same_place(walked, now, j));
        }
        lemma_path_same_links(walked, now, i);
    }
}

/// Marking a node keeps the arena a tree.
pub(crate) proof fn lemma_marking_keeps_links(
    before: Seq<TrieNode>,
    now: Seq<TrieNode>,
    at: int,
)
    requires
        linked(before),
        0 <= at < before.len(),
        now.len() == before.len(),
        forall|i: int| 0 <= i < before.len() && i != at ==> #[trigger] now[i] == before[i],
        now[at].key == before[at].key,
        now[at].parent == before[at].parent,
        now[at].children == before[at].children,
    ensures
        linked(now),
{
    assert forall|i: int| 0 < i < now.len() implies #[trigger] hangs(now, i) by {
        assert(hangs(before, i));
    }
}

/// Marking the node at the end of `word`'s path adds `word` to the stored
/// words and nothing else.
pub(crate) proof fn lemma_stored_after_mark(
    before: Seq<TrieNode>,
    grown: Seq<TrieNode>,
    marked: Seq<TrieNode>,
    word: Seq<u8>,
    at: int,
)
    requires
        grown_from(before, grown, word),
        0 <= at < grown.len(),
        path_of(grown, at) == word,
        marked.len() == grown.len(),
        marked[at].terminal,
        marked[at].key == grown[at].key,
        marked[at].parent == grown[at].parent,
        forall|i: int| 0 <= i < grown.len() && i != at ==> #[trigger] marked[i] == grown[i],
    ensures
        stored(marked) =~= stored(before).insert(word),
{
    assert forall|i: int| 0 <= i < marked.len() implies #[trigger] path_of(marked, i) == path_of(
        grown,
        i,
    ) by {
        lemma_path_same_links(grown, marked, i);
    }
    assert forall|i: int| 0 <= i < before.len() implies #[trigger] path_of(grown, i) == path_of(
        before,
        i,
    ) by {
        assert forall|j: int| 0 <= j <= i implies (#[trigger] grown[j]).key == before[j].key
            && grown[j].parent == before[j].parent by {
            assert(same_place(before, grown, j));
        }
        lemma_path_same_links(before, grown, i);
    }
    assert forall|w: Seq<u8>| stored(marked).contains(w) implies stored(before).insert(
        word,
    ).contains(w) by {
        let i = choose|i: int|
            0 <= i < marked.len() && marked[i].terminal && #[trigger] path_of(marked, i) == w;
        if i != at && i < before.len() {
            assert(same_place(before, grown, i));
        }
    }
    assert forall|w: Seq<u8>| stored(before).insert(word).contains(w) implies stored(
        marked,
    ).contains(w) by {
        if w == word {
            assert(path_of(marked, at) == path_of(grown, at));
        } else {
            let i = choose|i: int|
                0 <= i < before.len() && before[i].terminal && #[trigger] path_of(before, i) == w;
            assert(same_place(before, grown, i));
            assert(path_of(marked, i) == path_of(grown, i));
        }
    }
}

} // verus!
