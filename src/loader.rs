//! Building a dictionary from a newline-delimited word list, plain or gzip
//! compressed.
use vstd::prelude::*;
use vstd::string::StringSliceAdditionalSpecFns;

use crate::letters::{is_letter_word, is_lower_byte, is_lower_text, letters_of_text, text_of_letters};
use crate::trie::{node_paths, no_shared_first, same_length, Dictionary};

verus! {

/// Length bounds that a line must meet to be taken as a word.
#[derive(Clone, Copy, Debug, PartialEq, Eq, Structural)]
pub struct WordSizeConstraint {
    /// Shortest length taken.
    pub min: usize,
    /// Longest length taken.
    pub max: usize,
}

impl WordSizeConstraint {
    /// No bound on the length.
    pub fn unbounded() -> (r: WordSizeConstraint)
        ensures
            r.min == 0,
            r.max == usize::MAX,
    {
        WordSizeConstraint { min: 0, max: usize::MAX }
    }

    /// Only words of length `n`.
    pub fn exactly(n: usize) -> (r: WordSizeConstraint)
        ensures
            r.min == n,
            r.max == n,
    {
        WordSizeConstraint { min: n, max: n }
    }
}

impl Default for WordSizeConstraint {
    /// No bound on the length.
    fn default() -> (r: WordSizeConstraint)
        ensures
            r.min == 0,
            r.max == usize::MAX,
    {
        WordSizeConstraint::unbounded()
    }
}

/// Why a word list could not be loaded.
#[derive(Clone, Copy, Debug, PartialEq, Eq, Structural)]
pub enum LoadError {
    /// The data starts with the gzip magic bytes but does not decompress.
    Decompress,
    /// The line with this number (counting from 1) repeats a word taken
    /// from an earlier line.
    DuplicateWord(usize),
}

/// Byte value of a line feed.
pub const LF: u8 = 10;

/// Byte value of a carriage return.
pub const CR: u8 = 13;

/// The data opens with the gzip magic bytes `1f 8b`.
pub open spec fn is_gzip(b: Seq<u8>) -> bool {
    b.len() >= 2 && b[0] == 0x1f && b[1] == 0x8b
}

/// A line ended by a line feed loses one carriage return before it.
pub open spec fn strip_cr(l: Seq<u8>) -> Seq<u8> {
    if l.len() > 0 && l.last() == CR {
        l.drop_last()
    } else {
        l
    }
}

/// Splitting `b` at line feeds: the lines ended so far, and the bytes after
/// the last line feed.
pub open spec fn split_acc(b: Seq<u8>) -> (Seq<Seq<u8>>, Seq<u8>)
    decreases b.len(),
{
    if b.len() == 0 {
        (Seq::empty(), Seq::empty())
    } else {
        let (done, cur) = split_acc(b.drop_last());
        if b.last() == LF {
            (done.push(strip_cr(cur)), Seq::empty())
        } else {
            (done, cur.push(b.last()))
        }
    }
}

/// The lines of `b`: each line feed ends one, and bytes after the last line
/// feed make one more.
pub open spec fn lines_of(b: Seq<u8>) -> Seq<Seq<u8>> {
    let (done, cur) = split_acc(b);
    if cur.len() > 0 {
        done.push(cur)
    } else {
        done
    }
}

/// The line's length is within the bounds; an empty line never is.
pub open spec fn length_ok(line: Seq<u8>, size: WordSizeConstraint) -> bool {
    line.len() > 0 && size.min <= line.len() <= size.max
}

/// The line is taken as a word.
pub open spec fn accepted(line: Seq<u8>, size: WordSizeConstraint) -> bool {
    length_ok(line, size) && is_lower_text(line)
}

/// The words taken from `lines`, in order, as letter numbers.
pub open spec fn accepted_words(lines: Seq<Seq<u8>>, size: WordSizeConstraint) -> Seq<Seq<u8>>
    decreases lines.len(),
{
    if lines.len() == 0 {
        Seq::empty()
    } else {
        let before = accepted_words(lines.drop_last(), size);
        if accepted(lines.last(), size) {
            before.push(letters_of_text(lines.last()))
        } else {
            before
        }
    }
}

/// How many of `lines` have a length out of bounds.
pub open spec fn wrong_length_lines(lines: Seq<Seq<u8>>, size: WordSizeConstraint) -> nat
    decreases lines.len(),
{
    if lines.len() == 0 {
        0
    } else {
        wrong_length_lines(lines.drop_last(), size) + if length_ok(lines.last(), size) {
            0nat
        } else {
            1nat
        }
    }
}

/// How many of `lines` have a length within bounds but a byte other than
/// `a`..`z`.
pub open spec fn wrong_case_lines(lines: Seq<Seq<u8>>, size: WordSizeConstraint) -> nat
    decreases lines.len(),
{
    if lines.len() == 0 {
        0
    } else {
        wrong_case_lines(lines.drop_last(), size) + if length_ok(lines.last(), size) && !is_lower_text(
            lines.last(),
        ) {
            1nat
        } else {
            0nat
        }
    }
}

/// The number (counting from 1) of the first line whose word was already
/// taken from an earlier line.
pub open spec fn first_duplicate(lines: Seq<Seq<u8>>, size: WordSizeConstraint) -> Option<nat>
    decreases lines.len(),
{
    if lines.len() == 0 {
        None
    } else {
        match first_duplicate(lines.drop_last(), size) {
            Some(k) => Some(k),
            None => if accepted(lines.last(), size) && accepted_words(lines.drop_last(), size).contains(
                letters_of_text(lines.last()),
            ) {
                Some(lines.len())
            } else {
                None
            },
        }
    }
}

/// `r` is the outcome of loading the word list `text`.
pub open spec fn loaded_from(r: Result<Dictionary, LoadError>, text: Seq<u8>, size: WordSizeConstraint) -> bool {
    let lines = lines_of(text);
    let ws = accepted_words(lines, size);
    match r {
        Ok(d) => {
            &&& first_duplicate(lines, size) is None
            &&& ws.no_duplicates()
            &&& d.wf()
            &&& d@ == ws.to_set()
            &&& d@.len() == ws.len()
            &&& d.stats() == (lines.len(), wrong_length_lines(lines, size), wrong_case_lines(lines, size))
            &&& d.path_seq() == node_paths(ws)
        },
        Err(LoadError::DuplicateWord(k)) => first_duplicate(lines, size) == Some(k as nat),
        Err(LoadError::Decompress) => false,
    }
}

/// What decompressing the first gzip member of `b` gives, or `None` where it
/// fails.
pub uninterp spec fn gunzip_of(b: Seq<u8>) -> Option<Seq<u8>>;

/// The word-list text held in `b`: decompressed where it opens with the
/// gzip magic bytes, else `b` itself.
pub open spec fn text_of_source(b: Seq<u8>) -> Option<Seq<u8>> {
    if is_gzip(b) {
        gunzip_of(b)
    } else {
        Some(b)
    }
}

/// `d` holds what loading the lines `done` gives.
pub open spec fn tracks(d: Dictionary, done: Seq<Seq<u8>>, size: WordSizeConstraint) -> bool {
    let ws = accepted_words(done, size);
    &&& d.wf()
    &&& first_duplicate(done, size) is None
    &&& ws.no_duplicates()
    &&& d@ == ws.to_set()
    &&& d@.len() == ws.len()
    &&& d.stats() == (done.len(), wrong_length_lines(done, size), wrong_case_lines(done, size))
    &&& d.path_seq() == node_paths(ws)
}

/// `p` is a prefix of `s`.
pub open spec fn is_prefix_of<T>(p: Seq<T>, s: Seq<T>) -> bool {
    p.len() <= s.len() && s.take(p.len() as int) == p
}

/// Every line is counted once: taken, of a wrong length, or of a wrong case.
proof fn lemma_line_tally(lines: Seq<Seq<u8>>, size: WordSizeConstraint)
    ensures
        accepted_words(lines, size).len() + wrong_length_lines(lines, size) + wrong_case_lines(lines, size)
            == lines.len(),
    decreases lines.len(),
{
    if lines.len() > 0 {
        lemma_line_tally(lines.drop_last(), size);
    }
}

/// The first repeated line of a prefix is the first of the whole.
proof fn lemma_first_duplicate_prefix(p: Seq<Seq<u8>>, s: Seq<Seq<u8>>, size: WordSizeConstraint)
    requires
        is_prefix_of(p, s),
        first_duplicate(p, size) is Some,
    ensures
        first_duplicate(s, size) == first_duplicate(p, size),
    decreases s.len(),
{
    if s.len() > p.len() {
        assert(s.drop_last().take(p.len() as int) =~= s.take(p.len() as int));
        assert(is_prefix_of(p, s.drop_last()));
        lemma_first_duplicate_prefix(p, s.drop_last(), size);
    } else {
        assert(s =~= p);
    }
}

/// The lines ended within the first `i` bytes open the lines of the whole.
proof fn lemma_split_prefix(b: Seq<u8>, i: int)
    requires
        0 <= i <= b.len(),
    ensures
        is_prefix_of(split_acc(b.take(i)).0, lines_of(b)),
    decreases b.len() - i,
{
    let p = split_acc(b.take(i)).0;
    if i < b.len() {
        lemma_split_prefix(b, i + 1);
        assert(b.take(i + 1).drop_last() =~= b.take(i));
        let q = split_acc(b.take(i + 1)).0;
        let l = lines_of(b);
        assert(q.take(p.len() as int) =~= p);
        assert(is_prefix_of(p, q));
        assert(l.take(p.len() as int) =~= l.take(q.len() as int).take(p.len() as int));
    } else {
        assert(b.take(i) =~= b);
        let l = lines_of(b);
        assert(l.take(p.len() as int) =~= p);
    }
}

/// Each line taken gives a word of the sequence taken.
proof fn lemma_accepted_in(lines: Seq<Seq<u8>>, size: WordSizeConstraint, line: Seq<u8>)
    requires
        lines.contains(line),
        accepted(line, size),
    ensures
        accepted_words(lines, size).contains(letters_of_text(line)),
    decreases lines.len(),
{
    if lines.last() == line {
        let ws = accepted_words(lines, size);
        assert(ws.last() == letters_of_text(line));
    } else {
        let k = choose|k: int| 0 <= k < lines.len() && lines[k] == line;
        assert(lines.drop_last()[k] == line);
        lemma_accepted_in(lines.drop_last(), size, line);
        let before = accepted_words(lines.drop_last(), size);
        let j = choose|j: int| 0 <= j < before.len() && before[j] == letters_of_text(line);
        assert(accepted_words(lines, size)[j] == letters_of_text(line));
    }
}

/// Every word taken from a word list walks from the root, letter by letter,
/// to a slot that ends a word, and the identifier it gives spells the line
/// back exactly.
pub proof fn lemma_loaded_word(d: Dictionary, text: Seq<u8>, size: WordSizeConstraint, line: Seq<u8>)
    requires
        loaded_from(Ok(d), text, size),
        lines_of(text).contains(line),
        accepted(line, size),
    ensures
        forall|k: int| 0 <= k < line.len() ==> #[trigger] d.walk(letters_of_text(line).take(k)) is Some,
        d.walk(letters_of_text(line).drop_last()) is Some,
        d.slot(d.walk(letters_of_text(line).drop_last())->0, letters_of_text(line).last() as int).ends_word(),
        d.valid_id(d.id_of(letters_of_text(line))),
        d.word_of(d.id_of(letters_of_text(line))).len() == line.len(),
        text_of_letters(d.word_of(d.id_of(letters_of_text(line)))) == line.map_values(|b: u8| b as char),
{
    let w = letters_of_text(line);
    lemma_accepted_in(lines_of(text), size, line);
    assert(d@.contains(w));
    d.lemma_id_of(w);
    d.lemma_contains_iff(w);
    assert forall|k: int| 0 <= k < line.len() implies #[trigger] d.walk(letters_of_text(line).take(k)) is Some by {
        d.lemma_prefix_walks(w, k);
    }
    assert forall|k: int| 0 <= k < line.len() implies #[trigger] text_of_letters(w)[k] == line.map_values(
        |b: u8| b as char,
    )[k] by {
        assert(is_lower_byte(line[k]));
    }
    assert(text_of_letters(w) =~= line.map_values(|b: u8| b as char));
}

/// Each word taken comes from a line taken.
proof fn lemma_accepted_from(lines: Seq<Seq<u8>>, size: WordSizeConstraint, w: Seq<u8>)
    requires
        accepted_words(lines, size).contains(w),
    ensures
        exists|line: Seq<u8>| #[trigger] lines.contains(line) && accepted(line, size) && letters_of_text(line) == w,
    decreases lines.len(),
{
    if lines.len() == 0 {
        assert(accepted_words(lines, size) =~= Seq::<Seq<u8>>::empty());
        return;
    }
    let before = accepted_words(lines.drop_last(), size);
    if before.contains(w) {
        lemma_accepted_from(lines.drop_last(), size, w);
        let line = choose|line: Seq<u8>| #[trigger] lines.drop_last().contains(line) && accepted(line, size) && letters_of_text(line) == w;
        let k = choose|k: int| 0 <= k < lines.drop_last().len() && lines.drop_last()[k] == line;
        assert(lines[k] == line);
        assert(lines.contains(line));
    } else {
        assert(accepted(lines.last(), size));
        assert(accepted_words(lines, size) == before.push(letters_of_text(lines.last())));
        let k = choose|k: int| 0 <= k < accepted_words(lines, size).len() && accepted_words(lines, size)[k] == w;
        if k < before.len() {
            assert(before[k] == w);
        }
        assert(w == letters_of_text(lines.last()));
        assert(lines[lines.len() - 1] == lines.last());
        assert(lines.contains(lines.last()));
    }
}

/// The words of a loaded dictionary are exactly the letters of the lines taken.
pub proof fn lemma_loaded_word_set(d: Dictionary, text: Seq<u8>, size: WordSizeConstraint, w: Seq<u8>)
    requires
        loaded_from(Ok(d), text, size),
    ensures
        d@.contains(w) <==> exists|line: Seq<u8>|
            #[trigger] lines_of(text).contains(line) && accepted(line, size) && letters_of_text(line) == w,
{
    let lines = lines_of(text);
    let ws = accepted_words(lines, size);
    if d@.contains(w) {
        assert(ws.contains(w));
        lemma_accepted_from(lines, size, w);
    }
    if exists|line: Seq<u8>| #[trigger] lines.contains(line) && accepted(line, size) && letters_of_text(line) == w {
        let line = choose|line: Seq<u8>| #[trigger] lines.contains(line) && accepted(line, size) && letters_of_text(line) == w;
        lemma_accepted_in(lines, size, line);
    }
}

/// Two lines taken give the same word only when they are the same line.
proof fn lemma_letters_injective(a: Seq<u8>, b: Seq<u8>, size: WordSizeConstraint)
    requires
        accepted(a, size),
        accepted(b, size),
        letters_of_text(a) == letters_of_text(b),
    ensures
        a == b,
{
    assert(letters_of_text(a).len() == a.len());
    assert(letters_of_text(b).len() == b.len());
    assert forall|k: int| 0 <= k < a.len() implies a[k] == b[k] by {
        assert(is_lower_byte(a[k]) && is_lower_byte(b[k]));
        assert(letters_of_text(a)[k] == (a[k] - 97) as u8);
        assert(letters_of_text(b)[k] == (b[k] - 97) as u8);
        assert(letters_of_text(a)[k] == letters_of_text(b)[k]);
    }
    assert(a =~= b);
}

/// Every line taken has length `n`.
pub open spec fn lines_taken_of_length(text: Seq<u8>, size: WordSizeConstraint, n: nat) -> bool {
    forall|line: Seq<u8>| #[trigger] lines_of(text).contains(line) && accepted(line, size) ==> line.len() == n
}

/// The words of a loaded dictionary all have length `n` when its lines
/// taken do.
proof fn lemma_loaded_same_length(d: Dictionary, text: Seq<u8>, size: WordSizeConstraint, n: nat)
    requires
        loaded_from(Ok(d), text, size),
        lines_taken_of_length(text, size, n),
    ensures
        same_length(d@, n),
{
    assert forall|w: Seq<u8>| #[trigger] d@.contains(w) implies w.len() == n by {
        lemma_loaded_word_set(d, text, size, w);
        let line = choose|line: Seq<u8>| #[trigger] lines_of(text).contains(line) && accepted(line, size) && letters_of_text(line) == w;
    }
}

/// Loading `k` distinct lines of one length `n` whose first letters all
/// differ gives `k * (n - 1) + 1` nodes, `k` being the number of words held.
pub proof fn lemma_loaded_node_count_disjoint(d: Dictionary, text: Seq<u8>, size: WordSizeConstraint, n: nat)
    requires
        loaded_from(Ok(d), text, size),
        n >= 1,
        lines_taken_of_length(text, size, n),
        forall|a: Seq<u8>, b: Seq<u8>|
            #[trigger] lines_of(text).contains(a) && #[trigger] lines_of(text).contains(b) && accepted(a, size)
                && accepted(b, size) && a != b ==> a[0] != b[0],
    ensures
        d@.len() == accepted_words(lines_of(text), size).len(),
        d.node_count() == d@.len() * (n - 1) + 1,
{
    lemma_loaded_same_length(d, text, size, n);
    assert forall|w1: Seq<u8>, w2: Seq<u8>| #[trigger] d@.contains(w1) && #[trigger] d@.contains(w2) && w1 != w2 implies w1[0] != w2[0] by {
        lemma_loaded_word_set(d, text, size, w1);
        lemma_loaded_word_set(d, text, size, w2);
        let a = choose|line: Seq<u8>| #[trigger] lines_of(text).contains(line) && accepted(line, size) && letters_of_text(line) == w1;
        let b = choose|line: Seq<u8>| #[trigger] lines_of(text).contains(line) && accepted(line, size) && letters_of_text(line) == w2;
        assert(a != b);
        assert(is_lower_byte(a[0]) && is_lower_byte(b[0]));
        assert(w1[0] == letters_of_text(a)[0]);
        assert(w2[0] == letters_of_text(b)[0]);
    }
    assert(no_shared_first(d@));
    d.lemma_node_count_disjoint(n);
}

/// Loading lines of one length `n >= 2` of which two distinct ones share
/// their first letter gives fewer than `k * (n - 1) + 1` nodes, `k` being
/// the number of words held, and so fewer than `k * n + 1`.
pub proof fn lemma_loaded_node_count_shared(
    d: Dictionary,
    text: Seq<u8>,
    size: WordSizeConstraint,
    n: nat,
    a: Seq<u8>,
    b: Seq<u8>,
)
    requires
        loaded_from(Ok(d), text, size),
        n >= 2,
        lines_taken_of_length(text, size, n),
        lines_of(text).contains(a),
        lines_of(text).contains(b),
        accepted(a, size),
        accepted(b, size),
        a != b,
        a[0] == b[0],
    ensures
        d@.len() == accepted_words(lines_of(text), size).len(),
        d.node_count() < d@.len() * (n - 1) + 1,
        d.node_count() < d@.len() * n + 1,
{
    lemma_loaded_same_length(d, text, size, n);
    lemma_accepted_in(lines_of(text), size, a);
    lemma_accepted_in(lines_of(text), size, b);
    let w1 = letters_of_text(a);
    let w2 = letters_of_text(b);
    if w1 == w2 {
        lemma_letters_injective(a, b, size);
    }
    assert(d@.contains(w1) && d@.contains(w2));
    d.lemma_node_count_shared(n, w1, w2);
    assert(d@.len() * (n - 1) <= d@.len() * n) by (nonlinear_arith)
        requires
            n >= 2,
    ;
}

/// Loading the same text twice gives the same table: the same node count
/// and the same slot at every node and letter.
pub proof fn lemma_loaded_same_table(d1: Dictionary, d2: Dictionary, text: Seq<u8>, size: WordSizeConstraint)
    requires
        loaded_from(Ok(d1), text, size),
        loaded_from(Ok(d2), text, size),
    ensures
        d1@ == d2@,
        d1.node_count() == d2.node_count(),
        forall|n: int, l: int| 0 <= n < d1.node_count() && 0 <= l < 26 ==> #[trigger] d1.slot(n, l) == d2.slot(n, l),
{
    d1.lemma_path_seq();
    d2.lemma_path_seq();
    assert forall|n: int, l: int| 0 <= n < d1.node_count() && 0 <= l < 26 implies #[trigger] d1.slot(n, l) == d2.slot(
        n,
        l,
    ) by {
        let c1 = d1.slot(n, l).child();
        let c2 = d2.slot(n, l).child();
        d1.lemma_slot_determined(n, l, 0);
        d2.lemma_slot_determined(n, l, 0);
        if c1 is Some {
            d1.lemma_slot_determined(n, l, c1->0);
            d2.lemma_slot_determined(n, l, c1->0);
        }
        if c2 is Some {
            d1.lemma_slot_determined(n, l, c2->0);
            d2.lemma_slot_determined(n, l, c2->0);
        }
    }
}

impl Dictionary {
    /// Takes one line of a load: counts it, and inserts its word where the
    /// line is taken; a word already held stops the load.
    fn add_line(
        &mut self,
        bytes: &[u8],
        start: usize,
        end: usize,
        size: WordSizeConstraint,
        Ghost(done): Ghost<Seq<Seq<u8>>>,
    ) -> (r: Result<(), LoadError>)
        requires
            start <= end <= bytes@.len(),
            done.len() < usize::MAX,
            tracks(*old(self), done, size),
        ensures
            match r {
                Ok(()) => tracks(*final(self), done.push(bytes@.subrange(start as int, end as int)), size),
                Err(e) => {
                    &&& e == LoadError::DuplicateWord((done.len() + 1) as usize)
                    &&& first_duplicate(done.push(bytes@.subrange(start as int, end as int)), size)
                        == Some(done.len() + 1)
                },
            },
    {
        let ghost line = bytes@.subrange(start as int, end as int);
        let ghost all = done.push(line);
        let len = end - start;
        let length_ok = len > 0 && size.min <= len && len <= size.max;
        let mut letters: Vec<u8> = Vec::new();
        let mut lower = true;
        if length_ok {
            let mut j = start;
            while j < end && lower
                invariant
                    start <= j <= end <= bytes@.len(),
                    line == bytes@.subrange(start as int, end as int),
                    lower ==> is_lower_text(bytes@.subrange(start as int, j as int)),
                    lower ==> letters@ == letters_of_text(bytes@.subrange(start as int, j as int)),
                    !lower ==> !is_lower_text(line),
                decreases end - j + if lower { 1int } else { 0int },
            {
                let b = bytes[j];
                proof {
                    assert(bytes@.subrange(start as int, j + 1) =~= bytes@.subrange(start as int, j as int).push(b));
                }
                if b < 97 || b > 122 {
                    lower = false;
                    proof {
                        assert(line[j - start] == b);
                        assert(!is_lower_byte(line[j - start]));
                    }
                } else {
                    letters.push(b - 97);
                    j = j + 1;
                    proof {
                        assert(letters@ =~= letters_of_text(bytes@.subrange(start as int, j as int)));
                    }
                }
            }
            proof {
                if lower {
                    assert(bytes@.subrange(start as int, j as int) =~= line);
                }
            }
        }
        proof {
            assert(all.drop_last() =~= done);
            lemma_line_tally(done, size);
        }
        self.record_line(length_ok, lower);
        if length_ok && lower {
            proof {
                assert(accepted(line, size));
                assert forall|k: int| 0 <= k < letters@.len() implies #[trigger] letters@[k] < 26 by {
                    assert(is_lower_byte(line[k]));
                }
            }
            if self.contains_letters(&letters) {
                proof {
                    assert(accepted_words(done, size).to_set().contains(letters@));
                    assert(accepted_words(done, size).contains(letters@));
                }
                return Err(LoadError::DuplicateWord(self.line_count()));
            }
            proof {
                assert(!accepted_words(done, size).contains(letters@));
            }
            self.insert(&letters);
            proof {
                let ws = accepted_words(done, size);
                assert(accepted_words(all, size) == ws.push(letters@));
                ws.lemma_push_to_set_commute(letters@);
                assert(ws.push(letters@).drop_last() =~= ws);
                assert(ws.push(letters@).no_duplicates());
            }
        } else {
            proof {
                assert(!accepted(line, size));
                assert(accepted_words(all, size) == accepted_words(done, size));
            }
        }
        Ok(())
    }

    /// Loads the plain word list `text`: splits it into lines, skips the
    /// lines out of `size` or holding a byte other than `a`..`z`, and inserts
    /// the rest; a repeated word stops the load with the number of its line.
    pub fn new_from_text(text: &[u8], size: WordSizeConstraint) -> (r: Result<Dictionary, LoadError>)
        ensures
            loaded_from(r, text@, size),
    {
        let mut d = Dictionary::new_empty();
        let n = text.len();
        let mut i: usize = 0;
        let mut start: usize = 0;
        proof {
            assert(text@.take(0) =~= Seq::<u8>::empty());
            assert(text@.subrange(0, 0) =~= Seq::<u8>::empty());
            let none = Seq::<Seq<u8>>::empty();
            assert(none.to_set() =~= Set::<Seq<u8>>::empty());
            assert(accepted_words(none, size) == none);
        }
        while i < n
            invariant
                0 <= start <= i <= n,
                n == text@.len(),
                split_acc(text@.take(i as int)).1 == text@.subrange(start as int, i as int),
                tracks(d, split_acc(text@.take(i as int)).0, size),
                split_acc(text@.take(i as int)).0.len() + (if start < i { 1int } else { 0int }) <= i,
            decreases n - i,
        {
            let ghost done = split_acc(text@.take(i as int)).0;
            proof {
                assert(text@.take(i + 1).drop_last() =~= text@.take(i as int));
            }
            if text[i] == LF {
                let end = if i > start && text[i - 1] == CR {
                    i - 1
                } else {
                    i
                };
                proof {
                    let cur = text@.subrange(start as int, i as int);
                    assert(strip_cr(cur) =~= text@.subrange(start as int, end as int));
                }
                match d.add_line(text, start, end, size, Ghost(done)) {
                    Ok(()) => {},
                    Err(e) => {
                        proof {
                            lemma_split_prefix(text@, i + 1);
                            lemma_first_duplicate_prefix(split_acc(text@.take(i + 1)).0, lines_of(text@), size);
                        }
                        return Err(e);
                    },
                }
                start = i + 1;
                proof {
                    assert(text@.subrange(start as int, start as int) =~= Seq::<u8>::empty());
                }
            } else {
                proof {
                    assert(text@.subrange(start as int, i + 1) =~= text@.subrange(start as int, i as int).push(text@[i as int]));
                }
            }
            i = i + 1;
        }
        let ghost done = split_acc(text@.take(n as int)).0;
        proof {
            assert(text@.take(n as int) =~= text@);
        }
        if start < n {
            match d.add_line(text, start, n, size, Ghost(done)) {
                Ok(()) => {},
                Err(e) => {
                    return Err(e);
                },
            }
        }
        Ok(d)
    }

    /// Loads a word list held in `bytes`, decompressing it first where it
    /// opens with the gzip magic bytes.
    pub fn new_from_bytes(bytes: &[u8], size: WordSizeConstraint) -> (r: Result<Dictionary, LoadError>)
        ensures
            match text_of_source(bytes@) {
                Some(text) => loaded_from(r, text, size),
                None => r == Err::<Dictionary, LoadError>(LoadError::Decompress),
            },
    {
        if bytes.len() >= 2 && bytes[0] == 0x1f && bytes[1] == 0x8b {
            match gunzip(bytes) {
                Ok(text) => Dictionary::new_from_text(text.as_slice(), size),
                Err(_) => Err(LoadError::Decompress),
            }
        } else {
            Dictionary::new_from_text(bytes, size)
        }
    }

    /// Loads a plain word list held in a string: text is never gzip data.
    pub fn new_from_string(string: &str, size: WordSizeConstraint) -> (r: Result<Dictionary, LoadError>)
        ensures
            loaded_from(r, string.spec_bytes(), size),
    {
        Dictionary::new_from_text(string.as_bytes(), size)
    }
}

/// The standard library's I/O error, carried from the decompressor.
#[verifier::external_type_specification]
#[verifier::external_body]
pub struct ExIoError(std::io::Error);

/// Relies on flate2's `bufread::GzDecoder` read to the end: it decodes the
/// first gzip member of `data`, and whether it succeeds and what it yields
/// depend on the bytes alone.
#[verifier::external_body]
fn gunzip(data: &[u8]) -> (r: Result<Vec<u8>, std::io::Error>)
    ensures
        match r {
            Ok(v) => gunzip_of(data@) == Some(v@),
            Err(_) => gunzip_of(data@) is None,
        },
{
    let mut out = Vec::new();
    match std::io::Read::read_to_end(&mut flate2::bufread::GzDecoder::new(data), &mut out) {
        Ok(_) => Ok(out),
        Err(e) => Err(e),
    }
}

} // verus!
