//! The letter trie: an append-only table of 26-slot nodes, node 0 being the
//! root, linked by dense indices.
use vstd::prelude::*;

use vstd::relations::injective_on;
use vstd::set_lib::{
    lemma_int_range, lemma_len_union, lemma_map_size, lemma_set_empty_equivalency_len,
    lemma_set_intersect_union_lens, set_int_range,
};

use crate::letters::{is_letter_word, letter_count, text_of_letters};

verus! {

/// A node's entry for one letter.
#[derive(Clone, Copy, Debug, PartialEq, Eq, Structural)]
pub enum Slot {
    /// No word continues with this letter here.
    Empty,
    /// Longer words continue through the node at the index.
    Continues(usize),
    /// A word ends with this letter; none continues.
    Terminal,
    /// A word ends with this letter and longer words continue through the node
    /// at the index.
    TerminalContinues(usize),
}

impl Slot {
    /// The node that longer words continue through, if any.
    pub open spec fn child(self) -> Option<int> {
        match self {
            Slot::Continues(c) => Some(c as int),
            Slot::TerminalContinues(c) => Some(c as int),
            _ => None,
        }
    }

    /// A word ends at this slot.
    pub open spec fn ends_word(self) -> bool {
        self is Terminal || self is TerminalContinues
    }
}

/// Names one word of a dictionary: the node reached by all but its last
/// letter, and that last letter.
#[derive(Clone, Copy, Debug, PartialEq, Eq, Structural)]
pub struct WordId {
    /// Node reached by the word's letters but the last.
    pub node: usize,
    /// The word's last letter (`0..26`).
    pub letter: u8,
}

/// One trie node: a slot per letter, and the link back to the node it hangs from.
#[derive(Clone, Copy)]
pub(crate) struct TrieNode {
    pub(crate) slots: [Slot; 26],
    pub(crate) parent: usize,
    pub(crate) letter: u8,
}

impl TrieNode {
    fn new(letter: u8, parent: usize) -> (r: TrieNode)
        ensures
            r.letter == letter,
            r.parent == parent,
            forall|l: int| 0 <= l < 26 ==> #[trigger] r.slots@[l] == Slot::Empty,
    {
        TrieNode { slots: [Slot::Empty; 26], parent, letter }
    }
}

/// A word is a proper prefix of some word of `ws` and is not empty.
pub open spec fn is_proper_prefix(ws: Set<Seq<u8>>, q: Seq<u8>) -> bool {
    &&& q.len() > 0
    &&& exists|u: Seq<u8>| #[trigger] ws.contains(u) && q.len() < u.len() && u.take(q.len() as int) == q
}

/// The non-empty proper prefixes of the words of `ws`.
pub open spec fn proper_prefixes(ws: Set<Seq<u8>>) -> Set<Seq<u8>> {
    Set::new(|q: Seq<u8>| is_proper_prefix(ws, q))
}

/// A count requirement on a letter: exactly `n` times, or at least `n` times.
pub open spec fn count_meets(count: nat, n: nat, exact: bool) -> bool {
    if exact {
        count == n
    } else {
        count >= n
    }
}

/// The non-empty proper prefixes of `w`.
pub open spec fn prefixes_of(w: Seq<u8>) -> Set<Seq<u8>> {
    Set::new(|q: Seq<u8>| 0 < q.len() < w.len() && w.take(q.len() as int) == q)
}

/// Every word of `ws` has length `n`.
pub open spec fn same_length(ws: Set<Seq<u8>>, n: nat) -> bool {
    forall|w: Seq<u8>| #[trigger] ws.contains(w) ==> w.len() == n
}

/// No two words of `ws` share a non-empty prefix: their first letters differ.
pub open spec fn no_shared_first(ws: Set<Seq<u8>>) -> bool {
    forall|a: Seq<u8>, b: Seq<u8>| #[trigger] ws.contains(a) && #[trigger] ws.contains(b) && a != b ==> a[0] != b[0]
}

/// A word of length `n` has `n - 1` non-empty proper prefixes.
proof fn lemma_prefixes_of_len(w: Seq<u8>)
    requires
        w.len() >= 1,
    ensures
        prefixes_of(w).finite(),
        prefixes_of(w).len() == w.len() - 1,
{
    let x = set_int_range(1, w.len() as int);
    let f = |j: int| w.take(j);
    lemma_int_range(1, w.len() as int);
    assert(injective_on(f, x)) by {
        assert forall|i: int, j: int| x.contains(i) && x.contains(j) && #[trigger] f(i) == #[trigger] f(j) implies i == j by {
            assert(f(i).len() == i);
            assert(f(j).len() == j);
        }
    }
    assert(x.map(f) =~= prefixes_of(w)) by {
        assert forall|q: Seq<u8>| #[trigger] prefixes_of(w).contains(q) implies x.map(f).contains(q) by {
            assert(x.contains(q.len() as int) && f(q.len() as int) == q);
        }
    }
    lemma_map_size(x, prefixes_of(w), f);
}

/// The proper prefixes of a set are those of one word and those of the rest.
proof fn lemma_proper_prefixes_split(ws: Set<Seq<u8>>, w: Seq<u8>)
    requires
        ws.contains(w),
    ensures
        proper_prefixes(ws) == proper_prefixes(ws.remove(w)).union(prefixes_of(w)),
{
    let rest = ws.remove(w);
    assert forall|q: Seq<u8>| #[trigger] proper_prefixes(ws).contains(q) implies proper_prefixes(rest).union(
        prefixes_of(w),
    ).contains(q) by {
        let u = choose|u: Seq<u8>| #[trigger] ws.contains(u) && q.len() < u.len() && u.take(q.len() as int) == q;
        if u != w {
            assert(rest.contains(u));
        }
    }
    assert forall|q: Seq<u8>| #[trigger] proper_prefixes(rest).union(prefixes_of(w)).contains(q) implies proper_prefixes(
        ws,
    ).contains(q) by {
        if prefixes_of(w).contains(q) {
            assert(ws.contains(w));
        } else {
            let u = choose|u: Seq<u8>| #[trigger] rest.contains(u) && q.len() < u.len() && u.take(q.len() as int) == q;
            assert(ws.contains(u));
        }
    }
    assert(proper_prefixes(ws) =~= proper_prefixes(rest).union(prefixes_of(w)));
}

/// Words of length `n` have at most `n - 1` proper prefixes each.
proof fn lemma_prefix_count_bound(ws: Set<Seq<u8>>, n: nat)
    requires
        ws.finite(),
        same_length(ws, n),
        n >= 1,
    ensures
        proper_prefixes(ws).finite(),
        proper_prefixes(ws).len() <= ws.len() * (n - 1),
    decreases ws.len(),
{
    if ws.len() == 0 {
        lemma_set_empty_equivalency_len(ws);
        assert(proper_prefixes(ws) =~= Set::<Seq<u8>>::empty());
    } else {
        let w = ws.choose();
        let rest = ws.remove(w);
        lemma_prefix_count_bound(rest, n);
        lemma_proper_prefixes_split(ws, w);
        lemma_prefixes_of_len(w);
        lemma_len_union(proper_prefixes(rest), prefixes_of(w));
        assert(rest.len() * (n - 1) + (n - 1) == ws.len() * (n - 1)) by (nonlinear_arith)
            requires
                rest.len() + 1 == ws.len(),
        ;
    }
}

/// Words of length `n` whose first letters all differ have exactly `n - 1`
/// proper prefixes each.
proof fn lemma_prefix_count_disjoint(ws: Set<Seq<u8>>, n: nat)
    requires
        ws.finite(),
        same_length(ws, n),
        no_shared_first(ws),
        n >= 1,
    ensures
        proper_prefixes(ws).finite(),
        proper_prefixes(ws).len() == ws.len() * (n - 1),
    decreases ws.len(),
{
    if ws.len() == 0 {
        lemma_set_empty_equivalency_len(ws);
        assert(proper_prefixes(ws) =~= Set::<Seq<u8>>::empty());
    } else {
        let w = ws.choose();
        let rest = ws.remove(w);
        lemma_prefix_count_disjoint(rest, n);
        lemma_proper_prefixes_split(ws, w);
        lemma_prefixes_of_len(w);
        let a = proper_prefixes(rest);
        let b = prefixes_of(w);
        assert(a.intersect(b) =~= Set::<Seq<u8>>::empty()) by {
            assert forall|q: Seq<u8>| #[trigger] a.intersect(b).contains(q) implies false by {
                let u = choose|u: Seq<u8>| #[trigger] rest.contains(u) && q.len() < u.len() && u.take(q.len() as int) == q;
                assert(u[0] == q[0]);
                assert(w[0] == w.take(q.len() as int)[0]);
                assert(ws.contains(u) && ws.contains(w));
            }
        }
        lemma_set_intersect_union_lens(a, b);
        assert(a + b == a.union(b));
        assert(rest.len() * (n - 1) + (n - 1) == ws.len() * (n - 1)) by (nonlinear_arith)
            requires
                rest.len() + 1 == ws.len(),
        ;
    }
}

/// Two words of length `n >= 2` that share their first letter make the
/// proper prefixes fewer than `n - 1` per word.
proof fn lemma_prefix_count_shared(ws: Set<Seq<u8>>, n: nat, w1: Seq<u8>, w2: Seq<u8>)
    requires
        ws.finite(),
        same_length(ws, n),
        n >= 2,
        ws.contains(w1),
        ws.contains(w2),
        w1 != w2,
        w1[0] == w2[0],
    ensures
        proper_prefixes(ws).len() < ws.len() * (n - 1),
{
    let rest = ws.remove(w1);
    lemma_prefix_count_bound(rest, n);
    lemma_proper_prefixes_split(ws, w1);
    lemma_prefixes_of_len(w1);
    let a = proper_prefixes(rest);
    let b = prefixes_of(w1);
    let q = w1.take(1);
    assert(q =~= w2.take(1));
    assert(rest.contains(w2));
    assert(a.contains(q));
    assert(b.contains(q));
    assert(a.intersect(b).contains(q));
    lemma_set_intersect_union_lens(a, b);
    lemma_set_empty_equivalency_len(a.intersect(b));
    assert(a + b == a.union(b));
    assert(rest.len() * (n - 1) + (n - 1) == ws.len() * (n - 1)) by (nonlinear_arith)
        requires
            rest.len() + 1 == ws.len(),
    ;
}

/// The node paths after appending, in order of length, those non-empty
/// proper prefixes of `w` up to length `k` that `order` lacks.
pub open spec fn extend_order(order: Seq<Seq<u8>>, w: Seq<u8>, k: nat) -> Seq<Seq<u8>>
    decreases k,
{
    if k == 0 {
        order
    } else {
        let o = extend_order(order, w, (k - 1) as nat);
        if o.contains(w.take(k as int)) {
            o
        } else {
            o.push(w.take(k as int))
        }
    }
}

/// The paths of the nodes, by index, after inserting the words of `ws` in
/// order into an empty table: the root's empty path, then each word's new
/// proper prefixes, shortest first, in the order the words come.
pub open spec fn node_paths(ws: Seq<Seq<u8>>) -> Seq<Seq<u8>>
    decreases ws.len(),
{
    if ws.len() == 0 {
        seq![Seq::<u8>::empty()]
    } else {
        extend_order(node_paths(ws.drop_last()), ws.last(), (ws.last().len() - 1) as nat)
    }
}

/// A word list held as a letter trie, with the counters of the load that built it.
pub struct Dictionary {
    pub(crate) words: usize,
    pub(crate) tree: Vec<TrieNode>,
    pub(crate) lines: usize,
    pub(crate) wrong_length: usize,
    pub(crate) wrong_case: usize,
    pub(crate) paths: Ghost<Seq<Seq<u8>>>,
    pub(crate) word_set: Ghost<Set<Seq<u8>>>,
}

impl View for Dictionary {
    type V = Set<Seq<u8>>;

    /// The words held, each as its sequence of letter numbers.
    closed spec fn view(&self) -> Set<Seq<u8>> {
        self.word_set@
    }
}

impl Dictionary {
    /// Number of nodes in the table.
    pub closed spec fn node_count(&self) -> nat {
        self.tree@.len()
    }

    /// The slot of letter `l` in node `n`.
    pub closed spec fn slot(&self, n: int, l: int) -> Slot {
        self.tree@[n].slots@[l]
    }

    /// The letters spelled from the root down to node `n`.
    pub closed spec fn path(&self, n: int) -> Seq<u8> {
        self.paths@[n]
    }

    /// The paths of all nodes, by index.
    pub closed spec fn path_seq(&self) -> Seq<Seq<u8>> {
        self.paths@
    }

    /// The node reached from the root by following the letters of `s`.
    pub open spec fn walk(&self, s: Seq<u8>) -> Option<int>
        decreases s.len(),
    {
        if s.len() == 0 {
            Some(0)
        } else {
            match self.walk(s.drop_last()) {
                Some(n) => if s.last() < 26 {
                    self.slot(n, s.last() as int).child()
                } else {
                    None
                },
                None => None,
            }
        }
    }

    /// Walking all letters of `u` but the last reaches a node whose slot for
    /// the last letter ends a word.
    pub open spec fn has_word(&self, u: Seq<u8>) -> bool {
        &&& u.len() > 0
        &&& u.last() < 26
        &&& self.walk(u.drop_last()) is Some
        &&& self.slot(self.walk(u.drop_last())->0, u.last() as int).ends_word()
    }

    /// `id` names a word of this dictionary.
    pub open spec fn valid_id(&self, id: WordId) -> bool {
        &&& id.node < self.node_count()
        &&& id.letter < 26
        &&& self.slot(id.node as int, id.letter as int).ends_word()
    }

    /// The word that `id` names.
    pub open spec fn word_of(&self, id: WordId) -> Seq<u8> {
        self.path(id.node as int).push(id.letter)
    }

    /// The links of the table: parents, letters, children and paths agree.
    closed spec fn wf_tree(&self) -> bool {
        let t = self.tree@;
        let p = self.paths@;
        &&& 1 <= t.len()
        &&& p.len() == t.len()
        &&& p[0] == Seq::<u8>::empty()
        &&& forall|i: int|
            1 <= i < t.len() ==> {
                &&& (#[trigger] t[i]).parent < i
                &&& t[i].letter < 26
                &&& p[i] == p[t[i].parent as int].push(t[i].letter)
                &&& t[t[i].parent as int].slots@[t[i].letter as int].child() == Some(i)
            }
        &&& forall|i: int| 0 <= i < t.len() ==> (#[trigger] p[i]).len() <= i
        &&& forall|n: int, l: int|
            0 <= n < t.len() && 0 <= l < 26 ==> match (#[trigger] t[n].slots@[l]).child() {
                Some(c) => 0 < c < t.len() && p[c] == p[n].push(l as u8),
                None => true,
            }
    }

    /// Well-formed: the table is linked, the words held are those that end in
    /// a slot, and the nodes below the root are their proper prefixes.
    pub closed spec fn wf(&self) -> bool {
        &&& self.wf_tree()
        &&& self.word_set@.finite()
        &&& self.words == self.word_set@.len()
        &&& forall|u: Seq<u8>| #[trigger] self.word_set@.contains(u) <==> self.has_word(u)
        &&& forall|q: Seq<u8>| #[trigger] self.is_node_path(q) <==> is_proper_prefix(self.word_set@, q)
    }

    /// A non-empty word whose walk reaches a node.
    closed spec fn is_node_path(&self, q: Seq<u8>) -> bool {
        q.len() > 0 && self.walk(q) is Some
    }

    /// Walking a node's path from the root reaches that node.
    proof fn lemma_path_walks(&self, i: int)
        requires
            self.wf_tree(),
            0 <= i < self.tree@.len(),
        ensures
            self.walk(self.paths@[i]) == Some(i),
        decreases i,
    {
        if i > 0 {
            let par = self.tree@[i].parent as int;
            self.lemma_path_walks(par);
            let s = self.paths@[i];
            assert(s.drop_last() =~= self.paths@[par]);
        }
    }

    /// A walk that reaches a node spells that node's path.
    proof fn lemma_walk_spells_path(&self, s: Seq<u8>)
        requires
            self.wf_tree(),
            self.walk(s) is Some,
        ensures
            0 <= self.walk(s)->0 < self.tree@.len(),
            self.paths@[self.walk(s)->0] == s,
        decreases s.len(),
    {
        if s.len() > 0 {
            self.lemma_walk_spells_path(s.drop_last());
            let n = self.walk(s.drop_last())->0;
            assert(self.tree@[n].slots@[s.last() as int].child() is Some);
            assert(s =~= s.drop_last().push(s.last()));
        }
    }

    /// Walks and paths determine each other.
    proof fn lemma_walk_iff_path(&self, s: Seq<u8>, n: int)
        requires
            self.wf_tree(),
        ensures
            self.walk(s) == Some(n) <==> (0 <= n < self.tree@.len() && self.paths@[n] == s),
    {
        if self.walk(s) is Some {
            self.lemma_walk_spells_path(s);
        }
        if 0 <= n < self.tree@.len() && self.paths@[n] == s {
            self.lemma_path_walks(n);
        }
    }

    /// Any walk that reaches a node reaches one inside the table, and spells
    /// its path.
    pub proof fn lemma_walk_valid(&self, s: Seq<u8>)
        requires
            self.wf(),
            self.walk(s) is Some,
        ensures
            0 <= self.walk(s)->0 < self.node_count(),
            self.path(self.walk(s)->0) == s,
    {
        self.lemma_walk_spells_path(s);
    }

    /// The words held are those that end in a slot.
    pub proof fn lemma_contains_iff(&self, w: Seq<u8>)
        requires
            self.wf(),
        ensures
            self@.contains(w) == self.has_word(w),
    {
    }

    /// Each proper prefix of a held word walks to a node.
    pub proof fn lemma_prefix_walks(&self, w: Seq<u8>, k: int)
        requires
            self.wf(),
            self.has_word(w),
            0 <= k < w.len(),
        ensures
            self.walk(w.take(k)) is Some,
    {
        let s = w.drop_last();
        assert(s.take(k) =~= w.take(k));
        if self.walk(w.take(k)) is None {
            self.lemma_walk_prefix_none(s, k);
        }
    }

    /// A valid identifier names a held word, spelled by its node's path and
    /// its letter.
    pub proof fn lemma_valid_id(&self, id: WordId)
        requires
            self.wf(),
            self.valid_id(id),
        ensures
            self.walk(self.path(id.node as int)) == Some(id.node as int),
            self.has_word(self.word_of(id)),
            self@.contains(self.word_of(id)),
            self.word_of(id).len() == self.path(id.node as int).len() + 1,
    {
        self.lemma_path_walks(id.node as int);
        assert(self.word_of(id).drop_last() =~= self.path(id.node as int));
    }

    /// The identifier that walking `w` gives: the node reached by all its
    /// letters but the last, and that last letter.
    pub open spec fn id_of(&self, w: Seq<u8>) -> WordId {
        WordId { node: self.walk(w.drop_last())->0 as usize, letter: w.last() }
    }

    /// A held word's walk gives a valid identifier that names it.
    pub proof fn lemma_id_of(&self, w: Seq<u8>)
        requires
            self.wf(),
            self@.contains(w),
        ensures
            self.walk(w.drop_last()) is Some,
            self.slot(self.walk(w.drop_last())->0, w.last() as int).ends_word(),
            self.valid_id(self.id_of(w)),
            self.word_of(self.id_of(w)) == w,
    {
        self.lemma_walk_spells_path(w.drop_last());
        assert(w =~= w.drop_last().push(w.last()));
    }

    /// Two valid identifiers that name the same word are equal.
    pub proof fn lemma_word_id_unique(&self, a: WordId, b: WordId)
        requires
            self.wf(),
            self.valid_id(a),
            self.valid_id(b),
            self.word_of(a) == self.word_of(b),
        ensures
            a == b,
    {
        let wa = self.word_of(a);
        assert(wa.drop_last() =~= self.path(a.node as int));
        assert(self.word_of(b).drop_last() =~= self.path(b.node as int));
        self.lemma_path_walks(a.node as int);
        self.lemma_path_walks(b.node as int);
        assert(wa.last() == a.letter);
        assert(self.word_of(b).last() == b.letter);
    }

    /// The path list has one entry per node, each the node's path.
    pub proof fn lemma_path_seq(&self)
        requires
            self.wf(),
        ensures
            self.path_seq().len() == self.node_count(),
            forall|i: int| 0 <= i < self.node_count() ==> #[trigger] self.path(i) == self.path_seq()[i],
    {
    }

    /// A slot is fixed by the node paths and the words held: it continues to
    /// the node whose path extends the node's path by the letter, if any, and
    /// ends a word when that extension is held.
    pub proof fn lemma_slot_determined(&self, n: int, l: int, c: int)
        requires
            self.wf(),
            0 <= n < self.node_count(),
            0 <= l < 26,
        ensures
            self.slot(n, l).child() == Some(c) <==> (0 <= c < self.node_count() && self.path(c) == self.path(n).push(
                l as u8,
            )),
            self.slot(n, l).ends_word() == self@.contains(self.path(n).push(l as u8)),
    {
        let q = self.path(n).push(l as u8);
        self.lemma_path_walks(n);
        assert(q.drop_last() =~= self.path(n));
        self.lemma_walk_iff_path(q, c);
        assert(self.word_set@.contains(q) <==> self.has_word(q));
    }

    /// Children come after their node: a slot's child index lies above the
    /// node's own index and below the node count.
    pub proof fn lemma_child_index(&self, n: int, l: int)
        requires
            self.wf(),
            0 <= n < self.node_count(),
            0 <= l < 26,
        ensures
            self.slot(n, l).child() is Some ==> n < self.slot(n, l).child()->0 < self.node_count(),
    {
        if self.slot(n, l).child() is Some {
            let c = self.slot(n, l).child()->0;
            assert(0 < c < self.tree@.len());
            let par = self.tree@[c].parent as int;
            let p = self.paths@;
            assert(p[c] == p[n].push(l as u8));
            assert(p[c] == p[par].push(self.tree@[c].letter));
            assert(p[par] =~= p[c].drop_last());
            assert(p[n] =~= p[c].drop_last());
            self.lemma_path_walks(n);
            self.lemma_path_walks(par);
        }
    }

    /// The nodes form a prefix tree: the root hangs from no slot, and every
    /// other node hangs from exactly one slot.
    pub proof fn lemma_one_parent(&self, i: int)
        requires
            self.wf(),
            0 <= i < self.node_count(),
        ensures
            i == 0 ==> forall|n: int, l: int|
                0 <= n < self.node_count() && 0 <= l < 26 ==> #[trigger] self.slot(n, l).child() != Some(0int),
            i > 0 ==> exists|n: int, l: int|
                0 <= n < self.node_count() && 0 <= l < 26 && #[trigger] self.slot(n, l).child() == Some(i),
            forall|n1: int, l1: int, n2: int, l2: int|
                0 <= n1 < self.node_count() && 0 <= l1 < 26 && 0 <= n2 < self.node_count() && 0 <= l2 < 26
                    && #[trigger] self.slot(n1, l1).child() == Some(i) && #[trigger] self.slot(n2, l2).child()
                    == Some(i) ==> n1 == n2 && l1 == l2,
    {
        let p = self.paths@;
        if i > 0 {
            let par = self.tree@[i].parent as int;
            let l = self.tree@[i].letter as int;
            assert(self.slot(par, l).child() == Some(i));
        }
        assert forall|n1: int, l1: int, n2: int, l2: int|
            0 <= n1 < self.node_count() && 0 <= l1 < 26 && 0 <= n2 < self.node_count() && 0 <= l2 < 26
                && #[trigger] self.slot(n1, l1).child() == Some(i) && #[trigger] self.slot(n2, l2).child()
                == Some(i) implies n1 == n2 && l1 == l2 by {
            assert(self.tree@[n1].slots@[l1].child() == Some(i));
            assert(self.tree@[n2].slots@[l2].child() == Some(i));
            assert(p[i] == p[n1].push(l1 as u8));
            assert(p[i] == p[n2].push(l2 as u8));
            assert(p[n1] =~= p[i].drop_last());
            assert(p[n2] =~= p[i].drop_last());
            assert(p[i].last() == l1 as u8);
            assert(p[i].last() == l2 as u8);
            self.lemma_path_walks(n1);
            self.lemma_path_walks(n2);
        }
        if i == 0 {
            assert forall|n: int, l: int|
                0 <= n < self.node_count() && 0 <= l < 26 implies #[trigger] self.slot(n, l).child() != Some(0int) by {
                assert(match (self.tree@[n].slots@[l]).child() {
                    Some(c) => 0 < c < self.tree@.len() && p[c] == p[n].push(l as u8),
                    None => true,
                });
            }
        }
    }

    /// An empty dictionary: the root alone.
    pub(crate) fn new_empty() -> (r: Dictionary)
        ensures
            r.wf(),
            r@ == Set::<Seq<u8>>::empty(),
            r.node_count() == 1,
            r.path_seq() == node_paths(Seq::empty()),
            r.stats() == (0nat, 0nat, 0nat),
    {
        let mut tree: Vec<TrieNode> = Vec::new();
        tree.push(TrieNode::new(0, 0));
        let r = Dictionary {
            words: 0,
            tree,
            lines: 0,
            wrong_length: 0,
            wrong_case: 0,
            paths: Ghost(Seq::<Seq<u8>>::empty().push(Seq::<u8>::empty())),
            word_set: Ghost(Set::empty()),
        };
        proof {
            assert forall|u: Seq<u8>| #[trigger] r.word_set@.contains(u) <==> r.has_word(u) by {
                if u.len() > 0 && u.last() < 26 && r.walk(u.drop_last()) is Some {
                    r.lemma_walk_spells_path(u.drop_last());
                }
            }
            assert forall|q: Seq<u8>| #[trigger] r.is_node_path(q) <==> is_proper_prefix(r.word_set@, q) by {
                if q.len() > 0 && r.walk(q) is Some {
                    r.lemma_walk_spells_path(q);
                }
            }
        }
        r
    }

    /// The shape of appending the node for `paths[cur] + l` below `cur`.
    closed spec fn appends_node(s0: &Dictionary, s1: &Dictionary, cur: int, l: u8) -> bool {
        &&& 0 <= cur < s0.tree@.len()
        &&& l < 26
        &&& s0.tree@[cur].slots@[l as int].child() is None
        &&& s1.paths@ == s0.paths@.push(s0.paths@[cur].push(l))
        &&& s1.tree@.len() == s0.tree@.len() + 1
        &&& s1.tree@[s0.tree@.len() as int].parent == cur
        &&& s1.tree@[s0.tree@.len() as int].letter == l
        &&& forall|k: int| 0 <= k < 26 ==> #[trigger] s1.tree@[s0.tree@.len() as int].slots@[k] == Slot::Empty
        &&& forall|i: int| 0 <= i < s0.tree@.len() && i != cur ==> #[trigger] s1.tree@[i] == s0.tree@[i]
        &&& s1.tree@[cur].parent == s0.tree@[cur].parent
        &&& s1.tree@[cur].letter == s0.tree@[cur].letter
        &&& forall|k: int| 0 <= k < 26 && k != l ==> #[trigger] s1.tree@[cur].slots@[k] == s0.tree@[cur].slots@[k]
        &&& s1.tree@[cur].slots@[l as int].child() == Some(s0.tree@.len() as int)
        &&& s1.tree@[cur].slots@[l as int].ends_word() == s0.tree@[cur].slots@[l as int].ends_word()
    }

    /// Appending a node keeps the table linked.
    proof fn lemma_append_node_wf(s0: &Dictionary, s1: &Dictionary, cur: int, l: u8)
        requires
            s0.wf_tree(),
            Dictionary::appends_node(s0, s1, cur, l),
        ensures
            s1.wf_tree(),
    {
        let len0 = s0.tree@.len() as int;
        let t = s1.tree@;
        let p = s1.paths@;
        assert forall|i: int| 1 <= i < t.len() implies {
            &&& (#[trigger] t[i]).parent < i
            &&& t[i].letter < 26
            &&& p[i] == p[t[i].parent as int].push(t[i].letter)
            &&& t[t[i].parent as int].slots@[t[i].letter as int].child() == Some(i)
        } by {
            if i < len0 {
                let par = s0.tree@[i].parent as int;
                assert(s0.tree@[par].slots@[s0.tree@[i].letter as int].child() == Some(i));
                if par == cur && s0.tree@[i].letter != l {
                    assert(t[par].slots@[s0.tree@[i].letter as int] == s0.tree@[par].slots@[s0.tree@[i].letter as int]);
                }
            }
        }
        assert forall|i: int| 0 <= i < t.len() implies (#[trigger] p[i]).len() <= i by {
            if i < len0 {
                assert(s0.paths@[i].len() <= i);
            } else {
                assert(s0.paths@[cur].len() <= cur);
            }
        }
        assert forall|n: int, k: int| 0 <= n < t.len() && 0 <= k < 26 implies match (
        #[trigger] t[n].slots@[k]).child() {
            Some(c) => 0 < c < t.len() && p[c] == p[n].push(k as u8),
            None => true,
        } by {
            if n < len0 && !(n == cur && k == l) {
                assert(t[n].slots@[k] == s0.tree@[n].slots@[k]);
                assert(match (s0.tree@[n].slots@[k]).child() {
                    Some(c) => 0 < c < s0.tree@.len() && s0.paths@[c] == s0.paths@[n].push(k as u8),
                    None => true,
                });
            }
        }
    }

    /// Appending a node adds exactly its path to the walks that reach a node.
    proof fn lemma_append_node_walks(s0: &Dictionary, s1: &Dictionary, cur: int, l: u8, q: Seq<u8>)
        requires
            s0.wf_tree(),
            s1.wf_tree(),
            Dictionary::appends_node(s0, s1, cur, l),
        ensures
            s1.walk(q) is Some <==> (s0.walk(q) is Some || q == s0.paths@[cur].push(l)),
            s1.walk(q) is Some && s0.walk(q) is Some ==> s1.walk(q) == s0.walk(q),
    {
        let len0 = s0.tree@.len() as int;
        if s1.walk(q) is Some {
            s1.lemma_walk_spells_path(q);
            let m = s1.walk(q)->0;
            if m < len0 {
                s0.lemma_path_walks(m);
            }
        }
        if s0.walk(q) is Some {
            s0.lemma_walk_spells_path(q);
            s1.lemma_path_walks(s0.walk(q)->0);
        }
        if q == s0.paths@[cur].push(l) {
            s1.lemma_path_walks(len0);
        }
    }

    /// Appending a node keeps the words.
    proof fn lemma_append_node_words(s0: &Dictionary, s1: &Dictionary, cur: int, l: u8, u: Seq<u8>)
        requires
            s0.wf_tree(),
            s1.wf_tree(),
            Dictionary::appends_node(s0, s1, cur, l),
        ensures
            s1.has_word(u) == s0.has_word(u),
    {
        let len0 = s0.tree@.len() as int;
        if u.len() > 0 && u.last() < 26 {
            let s = u.drop_last();
            let k = u.last() as int;
            Dictionary::lemma_append_node_walks(s0, s1, cur, l, s);
            if s0.walk(s) is Some {
                s0.lemma_walk_spells_path(s);
                let m = s0.walk(s)->0;
                assert(s1.walk(s) == Some(m));
                if m != cur {
                    assert(s1.tree@[m] == s0.tree@[m]);
                } else if k != l {
                    assert(s1.tree@[cur].slots@[k] == s0.tree@[cur].slots@[k]);
                }
                assert(s1.has_word(u) == s0.has_word(u));
            } else if s1.walk(s) is Some {
                assert(s == s0.paths@[cur].push(l));
                s1.lemma_path_walks(len0);
                assert(s1.walk(s) == Some(len0));
                assert(s1.tree@[len0].slots@[k] == Slot::Empty);
                assert(!s1.has_word(u));
            }
        }
    }

    /// Follows the slot of letter `l` in node `cur`, appending a node for it
    /// when no longer word continues there yet.
    fn descend_or_append(&mut self, cur: usize, l: u8) -> (next: usize)
        requires
            old(self).wf_tree(),
            cur < old(self).tree@.len(),
            l < 26,
        ensures
            final(self).wf_tree(),
            next < final(self).tree@.len(),
            final(self).paths@[next as int] == old(self).paths@[cur as int].push(l),
            final(self).paths@ == if old(self).paths@.contains(old(self).paths@[cur as int].push(l)) {
                old(self).paths@
            } else {
                old(self).paths@.push(old(self).paths@[cur as int].push(l))
            },
            final(self).words == old(self).words,
            final(self).word_set == old(self).word_set,
            final(self).lines == old(self).lines,
            final(self).wrong_length == old(self).wrong_length,
            final(self).wrong_case == old(self).wrong_case,
            forall|u: Seq<u8>| #[trigger] final(self).has_word(u) == old(self).has_word(u),
            forall|q: Seq<u8>|
                #[trigger] final(self).is_node_path(q) <==> (old(self).is_node_path(q) || q == old(self).paths@[cur as int].push(l)),
    {
        let ghost s0 = *self;
        let node = self.tree[cur];
        match node.slots[l as usize] {
            Slot::Continues(c) => {
                proof {
                    self.lemma_path_walks(c as int);
                    assert(self.tree@[cur as int].slots@[l as int].child() == Some(c as int));
                    assert(self.paths@[c as int] == self.paths@[cur as int].push(l));
                    assert(self.paths@.contains(self.paths@[cur as int].push(l)));
                }
                c
            },
            Slot::TerminalContinues(c) => {
                proof {
                    self.lemma_path_walks(c as int);
                    assert(self.tree@[cur as int].slots@[l as int].child() == Some(c as int));
                    assert(self.paths@[c as int] == self.paths@[cur as int].push(l));
                    assert(self.paths@.contains(self.paths@[cur as int].push(l)));
                }
                c
            },
            _ => {
                let new = self.tree.len();
                self.tree.push(TrieNode::new(l, cur));
                let mut updated = node;
                updated.slots[l as usize] = match node.slots[l as usize] {
                    Slot::Empty => Slot::Continues(new),
                    _ => Slot::TerminalContinues(new),
                };
                self.tree[cur] = updated;
                proof {
                    let newp = s0.paths@[cur as int].push(l);
                    if s0.paths@.contains(newp) {
                        let j = choose|j: int| 0 <= j < s0.paths@.len() && s0.paths@[j] == newp;
                        s0.lemma_path_walks(j);
                        s0.lemma_path_walks(cur as int);
                        assert(newp.drop_last() =~= s0.paths@[cur as int]);
                        assert(false);
                    }
                }
                self.paths = Ghost(self.paths@.push(self.paths@[cur as int].push(l)));
                proof {
                    assert(Dictionary::appends_node(&s0, self, cur as int, l));
                    Dictionary::lemma_append_node_wf(&s0, self, cur as int, l);
                    assert forall|u: Seq<u8>| #[trigger] self.has_word(u) == s0.has_word(u) by {
                        Dictionary::lemma_append_node_words(&s0, self, cur as int, l, u);
                    }
                    assert forall|q: Seq<u8>|
                        #[trigger] self.is_node_path(q) <==> (s0.is_node_path(q) || q == s0.paths@[cur as int].push(l)) by {
                        Dictionary::lemma_append_node_walks(&s0, self, cur as int, l, q);
                    }
                }
                new
            },
        }
    }

    /// Inserts a word that is not held yet.
    pub(crate) fn insert(&mut self, w: &Vec<u8>)
        requires
            old(self).wf(),
            w@.len() > 0,
            is_letter_word(w@),
            !old(self)@.contains(w@),
            old(self)@.len() < usize::MAX,
        ensures
            final(self).wf(),
            final(self)@ == old(self)@.insert(w@),
            final(self).stats() == old(self).stats(),
            final(self).path_seq() == extend_order(old(self).path_seq(), w@, (w@.len() - 1) as nat),
            final(self).lines == old(self).lines,
            final(self).wrong_length == old(self).wrong_length,
            final(self).wrong_case == old(self).wrong_case,
    {
        let ghost prev = *self;
        let n = w.len();
        let mut cur: usize = 0;
        let mut i: usize = 0;
        while i < n - 1
            invariant
                prev.wf(),
                self.wf_tree(),
                self.word_set == prev.word_set,
                self.words == prev.words,
                self.lines == prev.lines,
                self.wrong_length == prev.wrong_length,
                self.wrong_case == prev.wrong_case,
                n == w@.len(),
                n > 0,
                is_letter_word(w@),
                0 <= i <= n - 1,
                cur < self.tree@.len(),
                self.paths@[cur as int] == w@.take(i as int),
                self.paths@ == extend_order(prev.paths@, w@, i as nat),
                forall|u: Seq<u8>| #[trigger] self.has_word(u) == prev.has_word(u),
                forall|q: Seq<u8>|
                    #[trigger] self.is_node_path(q) <==> (is_proper_prefix(prev.word_set@, q)
                        || (1 <= q.len() <= i && q == w@.take(q.len() as int))),
            decreases n - 1 - i,
        {
            let l = w[i];
            let ghost s0 = *self;
            proof {
                assert(w@.take(i + 1) =~= w@.take(i as int).push(l));
            }
            cur = self.descend_or_append(cur, l);
            proof {
                assert forall|q: Seq<u8>|
                    #[trigger] self.is_node_path(q) <==> (is_proper_prefix(prev.word_set@, q)
                        || (1 <= q.len() <= i + 1 && q == w@.take(q.len() as int))) by {
                    assert(s0.is_node_path(q) <==> (is_proper_prefix(prev.word_set@, q) || (1 <= q.len() <= i
                        && q == w@.take(q.len() as int))));
                }
            }
            i += 1;
        }
        proof {
            assert(w@.drop_last() =~= w@.take(n - 1));
            assert forall|q: Seq<u8>| #[trigger] self.is_node_path(q) <==> is_proper_prefix(prev.word_set@.insert(w@), q) by {
                let ws = prev.word_set@;
                if is_proper_prefix(ws.insert(w@), q) {
                    let u = choose|u: Seq<u8>| #[trigger] ws.insert(w@).contains(u) && q.len() < u.len() && u.take(q.len() as int) == q;
                    if u != w@ {
                        assert(ws.contains(u));
                    }
                }
                if 1 <= q.len() <= n - 1 && q == w@.take(q.len() as int) {
                    assert(ws.insert(w@).contains(w@));
                }
                if is_proper_prefix(ws, q) {
                    let u = choose|u: Seq<u8>| #[trigger] ws.contains(u) && q.len() < u.len() && u.take(q.len() as int) == q;
                    assert(ws.insert(w@).contains(u));
                }
            }
        }
        self.mark_end(cur, w[n - 1], Ghost(w@));
    }

    /// Marks the slot of letter `l` in node `cur` as ending word `w`.
    #[verifier::rlimit(40)]
    fn mark_end(&mut self, cur: usize, l: u8, Ghost(w): Ghost<Seq<u8>>)
        requires
            old(self).wf_tree(),
            old(self).word_set@.finite(),
            old(self).words == old(self).word_set@.len(),
            old(self).words < usize::MAX,
            forall|u: Seq<u8>| #[trigger] old(self).word_set@.contains(u) <==> old(self).has_word(u),
            !old(self).word_set@.contains(w),
            cur < old(self).tree@.len(),
            w.len() > 0,
            l == w.last(),
            l < 26,
            old(self).paths@[cur as int] == w.drop_last(),
            forall|q: Seq<u8>| #[trigger] old(self).is_node_path(q) <==> is_proper_prefix(old(self).word_set@.insert(w), q),
        ensures
            final(self).wf(),
            final(self)@ == old(self)@.insert(w),
            final(self).paths == old(self).paths,
            final(self).words == old(self).words + 1,
            final(self).lines == old(self).lines,
            final(self).wrong_length == old(self).wrong_length,
            final(self).wrong_case == old(self).wrong_case,
    {
        let ghost s1 = *self;
        let mut node = self.tree[cur];
        proof {
            self.lemma_path_walks(cur as int);
        }
        let marked = match node.slots[l as usize] {
            Slot::Empty => Slot::Terminal,
            Slot::Continues(c) => Slot::TerminalContinues(c),
            _ => {
                proof {
                    assert(self.has_word(w));
                }
                Slot::Terminal
            },
        };
        node.slots[l as usize] = marked;
        self.tree[cur] = node;
        self.words = self.words + 1;
        self.word_set = Ghost(self.word_set@.insert(w));
        proof {
            assert(self.wf_tree()) by {
                let t = self.tree@;
                assert forall|n: int, k: int| 0 <= n < t.len() && 0 <= k < 26 implies (
                #[trigger] t[n].slots@[k]).child() == s1.tree@[n].slots@[k].child() by {
                    if n != cur {
                        assert(t[n] == s1.tree@[n]);
                    }
                }
            }
            Dictionary::lemma_same_children(&s1, self);
            assert forall|u: Seq<u8>| #[trigger] self.word_set@.contains(u) <==> self.has_word(u) by {
                Dictionary::lemma_mark_end_words(&s1, self, cur as int, l, w, u);
            }
            assert forall|q: Seq<u8>| #[trigger] self.is_node_path(q) <==> is_proper_prefix(self.word_set@, q) by {
                assert(self.walk(q) == s1.walk(q));
                assert(self.is_node_path(q) == s1.is_node_path(q));
            }
        }
    }

    /// Marking the slot that `w` ends in adds `w` to the words and no other.
    proof fn lemma_mark_end_words(s1: &Dictionary, s2: &Dictionary, cur: int, l: u8, w: Seq<u8>, u: Seq<u8>)
        requires
            s1.wf_tree(),
            s2.tree@.len() == s1.tree@.len(),
            forall|q: Seq<u8>| #[trigger] s2.walk(q) == s1.walk(q),
            forall|i: int| 0 <= i < s1.tree@.len() && i != cur ==> #[trigger] s2.tree@[i] == s1.tree@[i],
            forall|k: int| 0 <= k < 26 && k != l ==> #[trigger] s2.tree@[cur].slots@[k] == s1.tree@[cur].slots@[k],
            s2.tree@[cur].slots@[l as int].ends_word(),
            0 <= cur < s1.tree@.len(),
            w.len() > 0,
            l == w.last(),
            l < 26,
            s1.paths@[cur] == w.drop_last(),
        ensures
            s2.has_word(u) == (s1.has_word(u) || u == w),
    {
        if u.len() > 0 && u.last() < 26 {
            let s = u.drop_last();
            let k = u.last() as int;
            if s1.walk(s) is Some {
                let m = s1.walk(s)->0;
                s1.lemma_walk_spells_path(s);
                if m == cur && k == l {
                    assert(u =~= s.push(u.last()));
                    assert(w =~= w.drop_last().push(w.last()));
                } else if m != cur {
                    assert(s2.tree@[m] == s1.tree@[m]);
                } else {
                    assert(s2.tree@[cur].slots@[k] == s1.tree@[cur].slots@[k]);
                }
            }
            if u == w {
                s1.lemma_path_walks(cur);
            }
        }
    }

    /// Two tables with the same children at every slot walk alike.
    proof fn lemma_same_children(s0: &Dictionary, s1: &Dictionary)
        requires
            s0.tree@.len() == s1.tree@.len(),
            forall|n: int, k: int|
                0 <= n < s0.tree@.len() && 0 <= k < 26 ==> (#[trigger] s1.tree@[n].slots@[k]).child()
                    == s0.tree@[n].slots@[k].child(),
            s0.wf_tree(),
        ensures
            forall|q: Seq<u8>| #[trigger] s1.walk(q) == s0.walk(q),
    {
        assert forall|q: Seq<u8>| #[trigger] s1.walk(q) == s0.walk(q) by {
            Dictionary::lemma_same_children_walk(s0, s1, q);
        }
    }

    proof fn lemma_same_children_walk(s0: &Dictionary, s1: &Dictionary, q: Seq<u8>)
        requires
            s0.tree@.len() == s1.tree@.len(),
            forall|n: int, k: int|
                0 <= n < s0.tree@.len() && 0 <= k < 26 ==> (#[trigger] s1.tree@[n].slots@[k]).child()
                    == s0.tree@[n].slots@[k].child(),
            s0.wf_tree(),
        ensures
            s1.walk(q) == s0.walk(q),
        decreases q.len(),
    {
        if q.len() > 0 {
            Dictionary::lemma_same_children_walk(s0, s1, q.drop_last());
            if s0.walk(q.drop_last()) is Some {
                s0.lemma_walk_spells_path(q.drop_last());
            }
        }
    }

    /// The nodes below the root are as many as the proper prefixes of the
    /// words held.
    pub proof fn lemma_node_count(&self)
        requires
            self.wf(),
        ensures
            self.node_count() == 1 + proper_prefixes(self@).len(),
            proper_prefixes(self@).finite(),
    {
        let len = self.tree@.len() as int;
        let x = set_int_range(1, len);
        let f = |i: int| self.paths@[i];
        lemma_int_range(1, len);
        assert(injective_on(f, x)) by {
            assert forall|i: int, j: int| x.contains(i) && x.contains(j) && #[trigger] f(i) == #[trigger] f(j) implies i == j by {
                self.lemma_path_walks(i);
                self.lemma_path_walks(j);
            }
        }
        assert(x.map(f) =~= proper_prefixes(self@)) by {
            assert forall|q: Seq<u8>| #[trigger] proper_prefixes(self@).contains(q) implies x.map(f).contains(q) by {
                assert(self.is_node_path(q));
                self.lemma_walk_spells_path(q);
                let m = self.walk(q)->0;
                assert(m != 0);
                assert(x.contains(m) && f(m) == q);
            }
            assert forall|q: Seq<u8>| #[trigger] x.map(f).contains(q) implies proper_prefixes(self@).contains(q) by {
                let i = choose|i: int| x.contains(i) && f(i) == q;
                self.lemma_path_walks(i);
                assert(q.len() > 0);
                assert(self.is_node_path(q));
            }
        }
        lemma_map_size(x, proper_prefixes(self@), f);
    }

    /// `k` words of one length `n` that share no non-empty prefix take
    /// `k * (n - 1) + 1` nodes: the root and one node per letter but the last
    /// of each word, the last being a slot.
    pub proof fn lemma_node_count_disjoint(&self, n: nat)
        requires
            self.wf(),
            n >= 1,
            same_length(self@, n),
            no_shared_first(self@),
        ensures
            self.node_count() == self@.len() * (n - 1) + 1,
    {
        self.lemma_node_count();
        lemma_prefix_count_disjoint(self@, n);
    }

    /// Words of one length `n >= 2` of which two share a non-empty prefix take
    /// fewer than `k * (n - 1) + 1` nodes.
    pub proof fn lemma_node_count_shared(&self, n: nat, w1: Seq<u8>, w2: Seq<u8>)
        requires
            self.wf(),
            n >= 2,
            same_length(self@, n),
            self@.contains(w1),
            self@.contains(w2),
            w1 != w2,
            w1[0] == w2[0],
        ensures
            self.node_count() < self@.len() * (n - 1) + 1,
    {
        self.lemma_node_count();
        lemma_prefix_count_shared(self@, n, w1, w2);
    }

    /// Number of nodes in the table, the root included: one more than the
    /// proper prefixes of the words held.
    pub fn tree_node_count(&self) -> (r: usize)
        requires
            self.wf(),
        ensures
            r == self.node_count(),
            r == 1 + proper_prefixes(self@).len(),
    {
        proof {
            self.lemma_node_count();
        }
        self.tree.len()
    }

    /// Bytes that one node of the table takes.
    pub closed spec fn node_size() -> nat {
        vstd::layout::size_of::<TrieNode>()
    }

    /// Bytes that `count` nodes take, saturating at `usize::MAX`.
    pub open spec fn bytes_of_nodes(count: int) -> int {
        let b = count * Dictionary::node_size();
        if b <= usize::MAX {
            b
        } else {
            usize::MAX as int
        }
    }

    /// Bytes that room for `cap` nodes takes, saturating at `usize::MAX`.
    pub fn bytes_for_capacity(cap: usize) -> (r: usize)
        ensures
            r == Dictionary::bytes_of_nodes(cap as int),
    {
        match cap.checked_mul(core::mem::size_of::<TrieNode>()) {
            Some(b) => b,
            None => usize::MAX,
        }
    }

    /// Bytes taken by the nodes of the table.
    pub fn tree_mem_usage(&self) -> (r: usize)
        requires
            self.wf(),
        ensures
            r == self.node_count() * Dictionary::node_size(),
            r <= isize::MAX,
    {
        let cap = vec_capacity(&self.tree);
        proof {
            vstd::arithmetic::mul::lemma_mul_inequality(
                self.tree@.len() as int,
                cap as int,
                Dictionary::node_size() as int,
            );
        }
        Dictionary::bytes_for_capacity(self.tree.len())
    }

    /// Bytes allocated for the table: those of the room it holds for nodes,
    /// at least the bytes its nodes take.
    pub fn tree_mem_alloc(&self) -> (r: usize)
        requires
            self.wf(),
        ensures
            exists|cap: int| cap >= self.node_count() && r == #[trigger] Dictionary::bytes_of_nodes(cap),
            r >= self.node_count() * Dictionary::node_size(),
            r <= isize::MAX,
    {
        let cap = vec_capacity(&self.tree);
        proof {
            vstd::arithmetic::mul::lemma_mul_inequality(
                self.tree@.len() as int,
                cap as int,
                Dictionary::node_size() as int,
            );
        }
        Dictionary::bytes_for_capacity(cap)
    }

    /// Tells whether the word of letter numbers `w` is held, by walking it
    /// from the root.
    #[verifier::rlimit(30)]
    pub fn contains_letters(&self, w: &Vec<u8>) -> (r: bool)
        requires
            self.wf(),
        ensures
            r == self@.contains(w@),
    {
        let n = w.len();
        if n == 0 {
            return false;
        }
        let mut cur: usize = 0;
        let mut i: usize = 0;
        while i < n - 1
            invariant
                self.wf(),
                n == w@.len(),
                n > 0,
                0 <= i <= n - 1,
                cur < self.node_count(),
                self.walk(w@.take(i as int)) == Some(cur as int),
                forall|j: int| 0 <= j < i ==> #[trigger] w@[j] < 26,
            decreases n - 1 - i,
        {
            let l = w[i];
            if l >= 26 {
                proof {
                    self.lemma_walk_stuck(w@, i as int);
                }
                return false;
            }
            match self.lookup_elem_letter_num(cur, l) {
                Slot::Continues(c) => {
                    cur = c;
                },
                Slot::TerminalContinues(c) => {
                    cur = c;
                },
                _ => {
                    proof {
                        self.lemma_walk_stuck(w@, i as int);
                    }
                    return false;
                },
            }
            proof {
                assert(w@.take(i + 1).drop_last() =~= w@.take(i as int));
                self.lemma_walk_valid(w@.take(i + 1));
            }
            i += 1;
        }
        let l = w[n - 1];
        proof {
            assert(w@.drop_last() =~= w@.take(n - 1));
        }
        if l >= 26 {
            return false;
        }
        let slot = self.lookup_elem_letter_num(cur, l);
        match slot {
            Slot::Terminal => true,
            Slot::TerminalContinues(_) => true,
            _ => false,
        }
    }

    /// A word is not held when the walk along it gets stuck before its last letter.
    proof fn lemma_walk_stuck(&self, w: Seq<u8>, k: int)
        requires
            0 <= k < w.len() - 1,
            self.walk(w.take(k)) is Some,
            w[k] >= 26 || self.slot(self.walk(w.take(k))->0, w[k] as int).child() is None,
        ensures
            !self.has_word(w),
    {
        let pre = w.take(k + 1);
        assert(pre.drop_last() =~= w.take(k));
        assert(self.walk(pre) is None);
        assert(w.drop_last().take(k + 1) =~= pre);
        self.lemma_walk_prefix_none(w.drop_last(), k + 1);
    }

    /// A walk that fails on a prefix fails on the whole.
    proof fn lemma_walk_prefix_none(&self, s: Seq<u8>, k: int)
        requires
            0 <= k <= s.len(),
            self.walk(s.take(k)) is None,
        ensures
            self.walk(s) is None,
        decreases s.len() - k,
    {
        if k < s.len() {
            assert(s.take(k + 1).drop_last() =~= s.take(k));
            self.lemma_walk_prefix_none(s, k + 1);
        } else {
            assert(s.take(k) =~= s);
        }
    }

    /// Appends to `result` the spelling of the path of node `elem`.
    fn get_word_rec(&self, elem: usize, result: &mut String)
        requires
            self.wf(),
            elem < self.node_count(),
        ensures
            final(result)@ == old(result)@ + text_of_letters(self.path(elem as int)),
        decreases elem,
    {
        if elem == 0 {
            assert(old(result)@ + text_of_letters(self.path(0)) =~= old(result)@);
            return;
        }
        let node = self.tree[elem];
        self.get_word_rec(node.parent, result);
        push_char(result, (node.letter + 97) as char);
        proof {
            let p = self.paths@[node.parent as int];
            assert(text_of_letters(p.push(node.letter)) =~= text_of_letters(p).push(((node.letter + 97) as u8) as char));
        }
    }

    /// The word that `id` names, in lower case.
    pub fn get_word(&self, id: WordId) -> (r: String)
        requires
            self.wf(),
            self.valid_id(id),
        ensures
            r@ == text_of_letters(self.word_of(id)),
    {
        let mut result = String::new();
        self.get_word_rec(id.node, &mut result);
        push_char(&mut result, (id.letter + 97) as char);
        proof {
            let p = self.paths@[id.node as int];
            assert(text_of_letters(p.push(id.letter)) =~= text_of_letters(p).push(((id.letter + 97) as u8) as char));
            assert(result@ =~= text_of_letters(self.word_of(id)));
        }
        result
    }

    /// Tells whether the word that `id` names holds letter number `letter`
    /// exactly `count` times (`exact`) or at least `count` times.
    pub fn word_contains(&self, id: WordId, letter: u8, count: u8, exact: bool) -> (r: bool)
        requires
            self.wf(),
            self.valid_id(id),
        ensures
            r == count_meets(letter_count(self.word_of(id), letter), count as nat, exact),
    {
        let nodes = self.tree.len();
        let mut found: usize = if id.letter == letter { 1 } else { 0 };
        let mut elem = id.node;
        proof {
            let w = self.word_of(id);
            assert(w.drop_last() =~= self.paths@[id.node as int]);
        }
        while elem != 0
            invariant
                self.wf(),
                self.valid_id(id),
                elem < self.node_count(),
                elem <= id.node,
                id.node < nodes,
                found + self.paths@[elem as int].len() <= id.node + 1,
                letter_count(self.word_of(id), letter) == found + letter_count(self.paths@[elem as int], letter),
            decreases elem,
        {
            let node = self.tree[elem];
            proof {
                let p = self.paths@[elem as int];
                assert(1 <= elem < self.tree@.len());
                assert(self.tree@[elem as int] == node);
                assert(p == self.paths@[node.parent as int].push(node.letter));
                assert(p.drop_last() =~= self.paths@[node.parent as int]);
            }
            if node.letter == letter {
                found = found + 1;
            }
            elem = node.parent;
        }
        if exact {
            found == count as usize
        } else {
            found >= count as usize
        }
    }

    /// The load counters: lines seen, lines of a wrong length, lines of the
    /// right length holding a byte other than `a`..`z`.
    pub closed spec fn stats(&self) -> (nat, nat, nat) {
        (self.lines as nat, self.wrong_length as nat, self.wrong_case as nat)
    }

    /// Counts one line of a load: out of bounds, or within bounds and
    /// holding a byte other than `a`..`z`, or neither.
    pub(crate) fn record_line(&mut self, length_ok: bool, lower: bool)
        requires
            old(self).wf(),
            old(self).stats().0 < usize::MAX,
            old(self).stats().1 < usize::MAX,
            old(self).stats().2 < usize::MAX,
        ensures
            final(self).wf(),
            final(self)@ == old(self)@,
            final(self).path_seq() == old(self).path_seq(),
            final(self).stats() == (
                old(self).stats().0 + 1,
                old(self).stats().1 + if length_ok { 0nat } else { 1nat },
                old(self).stats().2 + if length_ok && !lower { 1nat } else { 0nat },
            ),
    {
        self.lines = self.lines + 1;
        if !length_ok {
            self.wrong_length = self.wrong_length + 1;
        } else if !lower {
            self.wrong_case = self.wrong_case + 1;
        }
        proof {
            Dictionary::lemma_same_children(old(self), self);
            assert forall|u: Seq<u8>| #[trigger] self.word_set@.contains(u) <==> self.has_word(u) by {
                assert(old(self).word_set@.contains(u) <==> old(self).has_word(u));
                assert(self.walk(u.drop_last()) == old(self).walk(u.drop_last()));
            }
            assert forall|q: Seq<u8>| #[trigger] self.is_node_path(q) <==> is_proper_prefix(self.word_set@, q) by {
                assert(old(self).is_node_path(q) <==> is_proper_prefix(old(self).word_set@, q));
                assert(self.walk(q) == old(self).walk(q));
            }
        }
    }

    /// Number of lines the load saw.
    pub fn line_count(&self) -> (r: usize)
        ensures
            r == self.stats().0,
    {
        self.lines
    }

    /// Number of lines the load skipped for their length.
    pub fn wrong_length_count(&self) -> (r: usize)
        ensures
            r == self.stats().1,
    {
        self.wrong_length
    }

    /// Number of lines the load skipped for a byte other than `a`..`z`.
    pub fn wrong_case_count(&self) -> (r: usize)
        ensures
            r == self.stats().2,
    {
        self.wrong_case
    }

    /// Looks up the slot of letter number `letter` (`0..26`) in node `elem`.
    pub fn lookup_elem_letter_num(&self, elem: usize, letter: u8) -> (r: Slot)
        requires
            self.wf(),
            elem < self.node_count(),
            letter < 26,
        ensures
            r == self.slot(elem as int, letter as int),
            r.child() is Some ==> elem < r.child()->0 < self.node_count(),
    {
        proof {
            self.lemma_child_index(elem as int, letter as int);
        }
        self.tree[elem].slots[letter as usize]
    }

    /// Number of words held.
    pub fn word_count(&self) -> (r: usize)
        requires
            self.wf(),
        ensures
            r == self@.len(),
    {
        self.words
    }
}

/// Relies on `String::push`: appends one character at the end.
#[verifier::external_body]
fn push_char(s: &mut String, c: char)
    ensures
        final(s)@ == old(s)@.push(c),
{
    s.push(c)
}

/// Relies on `Vec::capacity`: a vector holds room for at least its
/// elements, and never allocates more than `isize::MAX` bytes.
#[verifier::external_body]
fn vec_capacity<T>(v: &Vec<T>) -> (r: usize)
    ensures
        r >= v@.len(),
        r * vstd::layout::size_of::<T>() <= isize::MAX,
{
    v.capacity()
}

} // verus!
