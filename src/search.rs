//! Constrained backtracking search over the trie.
use vstd::prelude::*;

use crate::letters::{is_letter_word, lemma_letter_count_bound, letter_count};
use crate::trie::{Dictionary, Slot, WordId};

verus! {

/// A requirement on how often a letter occurs in the solution.
#[derive(Clone, Copy, Debug, PartialEq, Eq, Structural)]
pub enum Requirement {
    /// At least this many times.
    AtLeast(u8),
    /// Exactly this many times.
    Exactly(u8),
}

/// The count `n` meets the requirement `req`.
pub open spec fn requirement_met(req: Option<Requirement>, n: nat) -> bool {
    match req {
        Some(Requirement::AtLeast(k)) => n >= k,
        Some(Requirement::Exactly(k)) => n == k,
        None => true,
    }
}

/// What a search looks for: per position a forced letter or letters known
/// wrong there, letters absent from the solution, and per letter a count
/// requirement. Letters are numbers `0..26`.
pub struct Constraints {
    /// The letter forced at each position, if any.
    pub correct: Vec<Option<u8>>,
    /// Letters known not to stand at each position.
    pub excluded: Vec<[bool; 26]>,
    /// Letters absent from the solution.
    pub unused: [bool; 26],
    /// How often each letter must occur, where that is known.
    pub multiplicity: [Option<Requirement>; 26],
}

impl Constraints {
    /// One entry of `excluded` per position, and every forced letter is a
    /// letter number.
    pub open spec fn wf(&self) -> bool {
        &&& self.excluded@.len() == self.correct@.len()
        &&& forall|i: int| 0 <= i < self.correct@.len() && (#[trigger] self.correct@[i]) is Some ==> self.correct@[i]->0 < 26
    }

    /// Number of positions.
    pub open spec fn width(&self) -> nat {
        self.correct@.len()
    }

    /// Letter `l` may stand at position `pos`: it is the forced letter there,
    /// or no letter is forced there and `l` is neither absent nor excluded there.
    pub open spec fn letter_allowed(&self, pos: int, l: u8) -> bool {
        match self.correct@[pos] {
            Some(f) => l == f,
            None => !self.unused@[l as int] && !self.excluded@[pos]@[l as int],
        }
    }

    /// Every letter's count in `w` meets its requirement.
    pub open spec fn counts_meet(&self, w: Seq<u8>) -> bool {
        forall|l: int| 0 <= l < 26 ==> requirement_met(#[trigger] self.multiplicity@[l], letter_count(w, l as u8))
    }

    /// `w` has one letter per position, each allowed there, and meets every
    /// count requirement.
    pub open spec fn admits(&self, w: Seq<u8>) -> bool {
        &&& w.len() == self.width()
        &&& is_letter_word(w)
        &&& forall|i: int| 0 <= i < w.len() ==> self.letter_allowed(i, #[trigger] w[i])
        &&& self.counts_meet(w)
    }
}

/// `a` comes before `b` in the order of letter numbers.
pub open spec fn lex_less(a: Seq<u8>, b: Seq<u8>) -> bool {
    exists|k: int| 0 <= k < a.len() && k < b.len() && a.take(k) == b.take(k) && #[trigger] a[k] < #[trigger] b[k]
}

/// The words that `ids` name in `d`.
pub open spec fn words_of(d: &Dictionary, ids: Seq<WordId>) -> Seq<Seq<u8>> {
    ids.map_values(|id: WordId| d.word_of(id))
}

/// Each of `ids` names a word of `d` that `c` admits and that starts with `p`.
pub open spec fn all_admitted(d: &Dictionary, c: &Constraints, ids: Seq<WordId>, p: Seq<u8>) -> bool {
    forall|k: int|
        0 <= k < ids.len() ==> {
            &&& d.valid_id(#[trigger] ids[k])
            &&& c.admits(d.word_of(ids[k]))
            &&& d.word_of(ids[k]).take(p.len() as int) == p
        }
}

/// The words that `ids` name come in strictly increasing order.
pub open spec fn in_order(d: &Dictionary, ids: Seq<WordId>) -> bool {
    forall|j: int, k: int| 0 <= j < k < ids.len() ==> lex_less(d.word_of(#[trigger] ids[j]), d.word_of(#[trigger] ids[k]))
}

/// Every word of `d` that `c` admits, that starts with `p` and whose next
/// letter is below `bound`, is named in `ids`.
pub open spec fn covers(d: &Dictionary, c: &Constraints, ids: Seq<WordId>, p: Seq<u8>, bound: int) -> bool {
    forall|w: Seq<u8>|
        #![trigger d@.contains(w), c.admits(w)]
        d@.contains(w) && c.admits(w) && w.take(p.len() as int) == p && w[p.len() as int] < bound
            ==> exists|k: int| 0 <= k < ids.len() && d.word_of(#[trigger] ids[k]) == w
}

/// Every word of `d` that `c` admits and that starts with `p` is named in `ids`.
pub open spec fn covers_all(d: &Dictionary, c: &Constraints, ids: Seq<WordId>, p: Seq<u8>) -> bool {
    forall|w: Seq<u8>|
        #![trigger d@.contains(w), c.admits(w)]
        d@.contains(w) && c.admits(w) && w.take(p.len() as int) == p
            ==> exists|k: int| 0 <= k < ids.len() && d.word_of(#[trigger] ids[k]) == w
}

/// `ids` is the outcome of a search of `d` under `c`: it names, in
/// increasing order, exactly the words of `d` that `c` admits.
pub open spec fn is_search_result(d: &Dictionary, c: &Constraints, ids: Seq<WordId>) -> bool {
    &&& all_admitted(d, c, ids, Seq::empty())
    &&& in_order(d, ids)
    &&& covers_all(d, c, ids, Seq::empty())
}

/// The letters of each word named in `ids` at position `pos` are below `bound`.
pub open spec fn letters_below(d: &Dictionary, ids: Seq<WordId>, pos: int, bound: int) -> bool {
    forall|k: int| 0 <= k < ids.len() ==> d.word_of(#[trigger] ids[k])[pos] < bound
}

/// Appending the words that continue `p` with letter `l` to those that
/// continue it with a lower letter keeps the order and widens the cover.
proof fn lemma_extend(d: &Dictionary, c: &Constraints, a: Seq<WordId>, b: Seq<WordId>, p: Seq<u8>, l: u8)
    requires
        p.len() < c.width(),
        all_admitted(d, c, a, p),
        in_order(d, a),
        letters_below(d, a, p.len() as int, l as int),
        covers(d, c, a, p, l as int),
        all_admitted(d, c, b, p.push(l)),
        in_order(d, b),
        covers_all(d, c, b, p.push(l)),
    ensures
        all_admitted(d, c, a + b, p),
        in_order(d, a + b),
        letters_below(d, a + b, p.len() as int, l + 1),
        covers(d, c, a + b, p, l + 1),
{
    let pos = p.len() as int;
    let q = p.push(l);
    let ab = a + b;
    assert forall|k: int| 0 <= k < b.len() implies d.word_of(#[trigger] b[k]).take(pos) == p
        && d.word_of(b[k])[pos] == l by {
        let w = d.word_of(b[k]);
        assert(w.take(pos + 1) == q);
        assert(w.take(pos) =~= q.take(pos));
        assert(q.take(pos) =~= p);
        assert(w[pos] == w.take(pos + 1)[pos]);
    }
    assert forall|k: int| 0 <= k < ab.len() implies {
        &&& d.valid_id(#[trigger] ab[k])
        &&& c.admits(d.word_of(ab[k]))
        &&& d.word_of(ab[k]).take(p.len() as int) == p
    } by {
        if k >= a.len() {
            assert(ab[k] == b[k - a.len()]);
        }
    }
    assert forall|j: int, k: int| 0 <= j < k < ab.len() implies lex_less(
        d.word_of(#[trigger] ab[j]),
        d.word_of(#[trigger] ab[k]),
    ) by {
        if k < a.len() {
            assert(ab[j] == a[j] && ab[k] == a[k]);
        } else if j >= a.len() {
            assert(ab[j] == b[j - a.len()] && ab[k] == b[k - a.len()]);
        } else {
            assert(ab[j] == a[j] && ab[k] == b[k - a.len()]);
            let x = d.word_of(a[j]);
            let y = d.word_of(b[k - a.len()]);
            assert(x.take(pos) == p);
            assert(y.take(pos) == p);
            assert(x[pos] < y[pos]);
        }
    }
    assert forall|k: int| 0 <= k < ab.len() implies d.word_of(#[trigger] ab[k])[pos] < l + 1 by {
        if k >= a.len() {
            assert(ab[k] == b[k - a.len()]);
        } else {
            assert(ab[k] == a[k]);
        }
    }
    assert forall|w: Seq<u8>|
        #![trigger d@.contains(w), c.admits(w)]
        d@.contains(w) && c.admits(w) && w.take(pos) == p && w[pos] < l + 1
            implies exists|k: int| 0 <= k < ab.len() && d.word_of(#[trigger] ab[k]) == w by {
        if w[pos] < l {
            let k = choose|k: int| 0 <= k < a.len() && d.word_of(#[trigger] a[k]) == w;
            assert(ab[k] == a[k]);
        } else {
            assert(w.take(pos + 1) =~= w.take(pos).push(w[pos]));
            let k = choose|k: int| 0 <= k < b.len() && d.word_of(#[trigger] b[k]) == w;
            assert(ab[k + a.len()] == b[k]);
        }
    }
}

/// Letter `l` may stand at position `pos` under `c`.
fn allowed(c: &Constraints, pos: usize, l: u8) -> (r: bool)
    requires
        c.wf(),
        pos < c.width(),
        l < 26,
    ensures
        r == c.letter_allowed(pos as int, l),
{
    match c.correct[pos] {
        Some(f) => l == f,
        None => !c.unused[l as usize] && !c.excluded[pos][l as usize],
    }
}

/// The letters `p` placed so far are each allowed at their position, and
/// `counts` counts them.
pub open spec fn placed_ok(c: &Constraints, p: Seq<u8>, counts: [usize; 26]) -> bool {
    &&& is_letter_word(p)
    &&& forall|i: int| 0 <= i < p.len() ==> c.letter_allowed(i, #[trigger] p[i])
    &&& forall|l: int| 0 <= l < 26 ==> #[trigger] counts@[l] == letter_count(p, l as u8)
}

/// The words appended for letter `l` after `p` at the last position: the one
/// word `p + l` where it is held and admitted.
proof fn lemma_leaf(
    d: &Dictionary,
    c: &Constraints,
    p: Seq<u8>,
    node: int,
    l: u8,
    counts: [usize; 26],
    b: Seq<WordId>,
)
    requires
        d.wf(),
        c.wf(),
        p.len() + 1 == c.width(),
        placed_ok(c, p, counts),
        l < 26,
        c.letter_allowed(p.len() as int, l),
        d.walk(p) == Some(node),
        b.len() <= 1,
        b.len() == 1 <==> (d.slot(node, l as int).ends_word() && c.counts_meet(p.push(l))),
        b.len() == 1 ==> b[0] == (WordId { node: node as usize, letter: l }),
    ensures
        all_admitted(d, c, b, p.push(l)),
        in_order(d, b),
        covers_all(d, c, b, p.push(l)),
{
    let q = p.push(l);
    d.lemma_walk_valid(p);
    assert(q.drop_last() =~= p);
    assert forall|i: int| 0 <= i < q.len() implies c.letter_allowed(i, #[trigger] q[i]) by {
        if i < p.len() {
            assert(q[i] == p[i]);
        }
    }
    if b.len() == 1 {
        assert(d.word_of(b[0]) =~= q);
        assert(q.take(q.len() as int) =~= q);
    }
    assert forall|w: Seq<u8>|
        #![trigger d@.contains(w), c.admits(w)]
        d@.contains(w) && c.admits(w) && w.take(q.len() as int) == q
            implies exists|k: int| 0 <= k < b.len() && d.word_of(#[trigger] b[k]) == w by {
        assert(w.take(q.len() as int) =~= w);
        d.lemma_contains_iff(w);
        assert(w.drop_last() =~= p);
        assert(d.word_of(b[0]) == w);
    }
}

/// Appends to `result`, in increasing order, each word of `d` that `c`
/// admits and that starts with `p`, the letters placed at the positions
/// before `pos`; `p` walks to `node`, and `counts` counts its letters.
fn search_from(
    d: &Dictionary,
    c: &Constraints,
    pos: usize,
    node: usize,
    counts: [usize; 26],
    Ghost(p): Ghost<Seq<u8>>,
    result: &mut Vec<WordId>,
)
    requires
        d.wf(),
        c.wf(),
        pos < c.width(),
        p.len() == pos,
        placed_ok(c, p, counts),
        d.walk(p) == Some(node as int),
    ensures
        final(result)@.len() >= old(result)@.len(),
        final(result)@.take(old(result)@.len() as int) == old(result)@,
        all_admitted(d, c, final(result)@.skip(old(result)@.len() as int), p),
        in_order(d, final(result)@.skip(old(result)@.len() as int)),
        covers_all(d, c, final(result)@.skip(old(result)@.len() as int), p),
    decreases c.width() - pos,
{
    let width = c.correct.len();
    let (lo, hi): (u8, u8) = match c.correct[pos] {
        Some(f) => (f, f + 1),
        None => (0, 26),
    };
    let ghost start = result@.len() as int;
    proof {
        d.lemma_walk_valid(p);
        assert(result@.skip(start) =~= Seq::<WordId>::empty());
        assert(result@.take(start) =~= result@);
        let e = Seq::<WordId>::empty();
        assert forall|w: Seq<u8>|
            #![trigger d@.contains(w), c.admits(w)]
            d@.contains(w) && c.admits(w) && w.take(pos as int) == p && w[pos as int] < lo
                implies exists|k: int| 0 <= k < e.len() && d.word_of(#[trigger] e[k]) == w by {
            assert(c.letter_allowed(pos as int, w[pos as int]));
        }
    }
    let mut l: u8 = lo;
    while l < hi
        invariant
            d.wf(),
            c.wf(),
            width == c.width(),
            pos < width,
            p.len() == pos,
            placed_ok(c, p, counts),
            d.walk(p) == Some(node as int),
            node < d.node_count(),
            lo <= l <= hi <= 26,
            c.correct@[pos as int] is Some ==> hi == c.correct@[pos as int]->0 + 1,
            c.correct@[pos as int] is None ==> hi == 26,
            result@.len() >= start,
            start == old(result)@.len(),
            result@.take(start) == old(result)@,
            all_admitted(d, c, result@.skip(start), p),
            in_order(d, result@.skip(start)),
            letters_below(d, result@.skip(start), pos as int, l as int),
            covers(d, c, result@.skip(start), p, l as int),
        decreases hi - l,
    {
        let ghost a = result@.skip(start);
        let ghost before = result@;
        let ghost q = p.push(l);
        if allowed(c, pos, l) {
            let slot = d.lookup_elem_letter_num(node, l);
            proof {
                lemma_letter_count_bound(p, l);
            }
            let mut next_counts = counts;
            next_counts[l as usize] = counts[l as usize] + 1;
            proof {
                assert(q.drop_last() =~= p);
                assert forall|m: int| 0 <= m < 26 implies #[trigger] next_counts@[m] == letter_count(q, m as u8) by {
                }
                assert forall|i: int| 0 <= i < q.len() implies c.letter_allowed(i, #[trigger] q[i]) by {
                    if i < p.len() {
                        assert(q[i] == p[i]);
                    }
                }
                assert(placed_ok(c, q, next_counts));
            }
            if pos + 1 == width {
                let ends = match slot {
                    Slot::Terminal => true,
                    Slot::TerminalContinues(_) => true,
                    _ => false,
                };
                if ends && counts_ok(c, &next_counts) {
                    result.push(WordId { node, letter: l });
                }
                proof {
                    let b = result@.skip(before.len() as int);
                    if result@.len() > before.len() {
                        assert(b =~= seq![WordId { node, letter: l }]);
                    } else {
                        assert(b =~= Seq::<WordId>::empty());
                    }
                    lemma_leaf(d, c, p, node as int, l, counts, b);
                }
            } else {
                match slot {
                    Slot::Continues(ch) => {
                        search_from(d, c, pos + 1, ch, next_counts, Ghost(q), result);
                    },
                    Slot::TerminalContinues(ch) => {
                        search_from(d, c, pos + 1, ch, next_counts, Ghost(q), result);
                    },
                    _ => {
                        proof {
                            let e = Seq::<WordId>::empty();
                            assert(result@.skip(before.len() as int) =~= e);
                            assert forall|w: Seq<u8>|
                                #![trigger d@.contains(w), c.admits(w)]
                                d@.contains(w) && c.admits(w) && w.take(q.len() as int) == q
                                    implies exists|k: int| 0 <= k < e.len() && d.word_of(#[trigger] e[k]) == w by {
                                d.lemma_contains_iff(w);
                                d.lemma_prefix_walks(w, pos + 1);
                            }
                        }
                    },
                }
            }
            proof {
                let b = result@.skip(before.len() as int);
                assert(result@.skip(start) =~= a + b);
                assert(result@.take(start) =~= before.take(start));
                lemma_extend(d, c, a, b, p, l);
            }
        } else {
            proof {
                assert forall|w: Seq<u8>|
                    #![trigger d@.contains(w), c.admits(w)]
                    d@.contains(w) && c.admits(w) && w.take(pos as int) == p && w[pos as int] < l + 1
                        implies exists|k: int| 0 <= k < a.len() && d.word_of(#[trigger] a[k]) == w by {
                    assert(c.letter_allowed(pos as int, w[pos as int]));
                }
            }
        }
        l += 1;
    }
    proof {
        let r = result@.skip(start);
        assert forall|w: Seq<u8>|
            #![trigger d@.contains(w), c.admits(w)]
            d@.contains(w) && c.admits(w) && w.take(p.len() as int) == p
                implies exists|k: int| 0 <= k < r.len() && d.word_of(#[trigger] r[k]) == w by {
            assert(c.letter_allowed(pos as int, w[pos as int]));
        }
    }
}

/// Every word of `d` that `c` admits, in increasing order of letters: at
/// each position the forced letter, or each letter neither absent nor
/// excluded there, tried in turn, a word being kept where its letter counts
/// meet every requirement.
pub fn search(d: &Dictionary, c: &Constraints) -> (r: Vec<WordId>)
    requires
        d.wf(),
        c.wf(),
    ensures
        is_search_result(d, c, r@),
{
    let mut result: Vec<WordId> = Vec::new();
    if c.correct.len() > 0 {
        let counts: [usize; 26] = [0; 26];
        proof {
            let e = Seq::<u8>::empty();
            assert forall|l: int| 0 <= l < 26 implies #[trigger] counts@[l] == letter_count(e, l as u8) by {
            }
        }
        search_from(d, c, 0, 0, counts, Ghost(Seq::empty()), &mut result);
        proof {
            assert(result@.skip(0) =~= result@);
        }
    } else {
        proof {
            let e = Seq::<WordId>::empty();
            assert forall|w: Seq<u8>|
                #![trigger d@.contains(w), c.admits(w)]
                d@.contains(w) && c.admits(w) && w.take(0) == Seq::<u8>::empty()
                    implies exists|k: int| 0 <= k < e.len() && d.word_of(#[trigger] e[k]) == w by {
                d.lemma_contains_iff(w);
            }
        }
    }
    result
}

/// Of two words, at most one comes before the other; none before itself.
proof fn lemma_lex_asymmetric(x: Seq<u8>, y: Seq<u8>)
    ensures
        !(lex_less(x, y) && lex_less(y, x)),
        !lex_less(x, x),
{
    if lex_less(x, y) && lex_less(y, x) {
        let k1 = choose|k: int| 0 <= k < x.len() && k < y.len() && x.take(k) == y.take(k) && #[trigger] x[k] < #[trigger] y[k];
        let k2 = choose|k: int| 0 <= k < y.len() && k < x.len() && y.take(k) == x.take(k) && #[trigger] y[k] < #[trigger] x[k];
        if k1 < k2 {
            assert(x.take(k2)[k1] == y.take(k2)[k1]);
        } else if k2 < k1 {
            assert(x.take(k1)[k2] == y.take(k1)[k2]);
        }
    }
}

/// Two sequences of words in strictly increasing order that hold the same
/// words are equal.
proof fn lemma_ordered_equal(a: Seq<Seq<u8>>, b: Seq<Seq<u8>>)
    requires
        forall|j: int, k: int| 0 <= j < k < a.len() ==> lex_less(#[trigger] a[j], #[trigger] a[k]),
        forall|j: int, k: int| 0 <= j < k < b.len() ==> lex_less(#[trigger] b[j], #[trigger] b[k]),
        forall|x: Seq<u8>| a.contains(x) <==> b.contains(x),
    ensures
        a == b,
    decreases a.len(),
{
    if a.len() == 0 {
        if b.len() > 0 {
            assert(b.contains(b[0]));
        }
        assert(a =~= b);
    } else {
        assert(a.contains(a[0]));
        assert(b.len() > 0);
        assert(b.contains(b[0]));
        let j = choose|j: int| 0 <= j < b.len() && b[j] == a[0];
        let i = choose|i: int| 0 <= i < a.len() && a[i] == b[0];
        if a[0] != b[0] {
            assert(i > 0 && j > 0);
            assert(lex_less(a[0], a[i]));
            assert(lex_less(b[0], b[j]));
            lemma_lex_asymmetric(a[0], b[0]);
        }
        let a1 = a.drop_first();
        let b1 = b.drop_first();
        assert forall|x: Seq<u8>| a1.contains(x) <==> b1.contains(x) by {
            if a1.contains(x) {
                let k = choose|k: int| 0 <= k < a1.len() && a1[k] == x;
                assert(a[k + 1] == x);
                assert(lex_less(a[0], a[k + 1]));
                lemma_lex_asymmetric(x, x);
                assert(b.contains(x));
                let m = choose|m: int| 0 <= m < b.len() && b[m] == x;
                assert(m != 0);
                assert(b1[m - 1] == x);
            }
            if b1.contains(x) {
                let k = choose|k: int| 0 <= k < b1.len() && b1[k] == x;
                assert(b[k + 1] == x);
                assert(lex_less(b[0], b[k + 1]));
                lemma_lex_asymmetric(x, x);
                assert(a.contains(x));
                let m = choose|m: int| 0 <= m < a.len() && a[m] == x;
                assert(m != 0);
                assert(a1[m - 1] == x);
            }
        }
        assert forall|j: int, k: int| 0 <= j < k < a1.len() implies lex_less(#[trigger] a1[j], #[trigger] a1[k]) by {
            assert(a1[j] == a[j + 1] && a1[k] == a[k + 1]);
        }
        assert forall|j: int, k: int| 0 <= j < k < b1.len() implies lex_less(#[trigger] b1[j], #[trigger] b1[k]) by {
            assert(b1[j] == b[j + 1] && b1[k] == b[k + 1]);
        }
        lemma_ordered_equal(a1, b1);
        assert(a =~= seq![a[0]] + a1);
        assert(b =~= seq![b[0]] + b1);
    }
}

/// A search has one outcome: two results of searching one dictionary under
/// the same constraints are equal, order included.
pub proof fn lemma_search_deterministic(d: &Dictionary, c: &Constraints, r1: Seq<WordId>, r2: Seq<WordId>)
    requires
        d.wf(),
        c.wf(),
        is_search_result(d, c, r1),
        is_search_result(d, c, r2),
    ensures
        r1 == r2,
{
    let a = words_of(d, r1);
    let b = words_of(d, r2);
    assert forall|x: Seq<u8>| a.contains(x) <==> (d@.contains(x) && c.admits(x)) by {
        if a.contains(x) {
            let k = choose|k: int| 0 <= k < a.len() && a[k] == x;
            d.lemma_valid_id(r1[k]);
        }
        if d@.contains(x) && c.admits(x) {
            assert(x.take(0) =~= Seq::<u8>::empty());
            let k = choose|k: int| 0 <= k < r1.len() && d.word_of(#[trigger] r1[k]) == x;
            assert(a[k] == x);
        }
    }
    assert forall|x: Seq<u8>| b.contains(x) <==> (d@.contains(x) && c.admits(x)) by {
        if b.contains(x) {
            let k = choose|k: int| 0 <= k < b.len() && b[k] == x;
            d.lemma_valid_id(r2[k]);
        }
        if d@.contains(x) && c.admits(x) {
            assert(x.take(0) =~= Seq::<u8>::empty());
            let k = choose|k: int| 0 <= k < r2.len() && d.word_of(#[trigger] r2[k]) == x;
            assert(b[k] == x);
        }
    }
    assert forall|j: int, k: int| 0 <= j < k < a.len() implies lex_less(#[trigger] a[j], #[trigger] a[k]) by {
        assert(lex_less(d.word_of(r1[j]), d.word_of(r1[k])));
    }
    assert forall|j: int, k: int| 0 <= j < k < b.len() implies lex_less(#[trigger] b[j], #[trigger] b[k]) by {
        assert(lex_less(d.word_of(r2[j]), d.word_of(r2[k])));
    }
    lemma_ordered_equal(a, b);
    assert forall|k: int| 0 <= k < r1.len() implies r1[k] == r2[k] by {
        assert(a[k] == b[k]);
        d.lemma_word_id_unique(r1[k], r2[k]);
    }
    assert(r1 =~= r2);
}

/// Constraints that force a letter at every position admit only the word
/// those letters spell: where the dictionary lacks it, a search finds nothing.
pub proof fn lemma_forced_absent(d: &Dictionary, c: &Constraints, r: Seq<WordId>, w: Seq<u8>)
    requires
        d.wf(),
        c.wf(),
        is_search_result(d, c, r),
        w.len() == c.width(),
        forall|i: int| 0 <= i < w.len() ==> #[trigger] c.correct@[i] == Some(w[i]),
        !d@.contains(w),
    ensures
        r.len() == 0,
{
    if r.len() > 0 {
        let x = d.word_of(r[0]);
        d.lemma_valid_id(r[0]);
        assert forall|i: int| 0 <= i < x.len() implies x[i] == w[i] by {
            assert(c.letter_allowed(i, x[i]));
        }
        assert(x =~= w);
    }
}

/// Tells whether letter counts `counts` meet every requirement of `c`.
fn counts_ok(c: &Constraints, counts: &[usize; 26]) -> (r: bool)
    ensures
        r == forall|l: int| 0 <= l < 26 ==> requirement_met(#[trigger] c.multiplicity@[l], counts@[l] as nat),
{
    let mut l: usize = 0;
    while l < 26
        invariant
            0 <= l <= 26,
            forall|m: int| 0 <= m < l ==> requirement_met(#[trigger] c.multiplicity@[m], counts@[m] as nat),
        decreases 26 - l,
    {
        let n = counts[l];
        let met = match c.multiplicity[l] {
            Some(Requirement::AtLeast(k)) => n >= k as usize,
            Some(Requirement::Exactly(k)) => n == k as usize,
            None => true,
        };
        if !met {
            return false;
        }
        l += 1;
    }
    true
}

} // verus!
