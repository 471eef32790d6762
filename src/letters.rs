//! Letters of the alphabet as numbers `0..26`.
use vstd::prelude::*;

use crate::trie::Dictionary;

verus! {

/// The letter number of a lower case ASCII character.
pub open spec fn lower_num(c: char) -> int {
    c as int - 'a' as int
}

/// The letter number of an upper case ASCII character.
pub open spec fn upper_num(c: char) -> int {
    c as int - 'A' as int
}

/// A byte is a lower case ASCII letter.
pub open spec fn is_lower_byte(b: u8) -> bool {
    97 <= b <= 122
}

/// Every byte of a line is a lower case ASCII letter.
pub open spec fn is_lower_text(s: Seq<u8>) -> bool {
    forall|i: int| 0 <= i < s.len() ==> #[trigger] is_lower_byte(s[i])
}

/// Every element of a word is a letter number.
pub open spec fn is_letter_word(w: Seq<u8>) -> bool {
    forall|i: int| 0 <= i < w.len() ==> #[trigger] w[i] < 26
}

/// The letter numbers of a lower case line.
pub open spec fn letters_of_text(s: Seq<u8>) -> Seq<u8> {
    s.map_values(|b: u8| (b - 97) as u8)
}

/// The lower case spelling of a word of letter numbers.
pub open spec fn text_of_letters(w: Seq<u8>) -> Seq<char> {
    w.map_values(|l: u8| ((l + 97) as u8) as char)
}

/// How many times letter `l` occurs in `w`.
pub open spec fn letter_count(w: Seq<u8>, l: u8) -> nat
    decreases w.len(),
{
    if w.len() == 0 {
        0
    } else {
        letter_count(w.drop_last(), l) + if w.last() == l { 1nat } else { 0nat }
    }
}

/// A letter occurs at most as often as the word is long.
pub proof fn lemma_letter_count_bound(w: Seq<u8>, l: u8)
    ensures
        letter_count(w, l) <= w.len(),
    decreases w.len(),
{
    if w.len() > 0 {
        lemma_letter_count_bound(w.drop_last(), l);
    }
}

impl Dictionary {
    /// Converts a lower case character to its letter number.
    pub fn lchar_to_usize(c: char) -> (r: usize)
        requires
            'a' <= c <= 'z',
        ensures
            r == lower_num(c),
            r < 26,
    {
        (c as u32 - 'a' as u32) as usize
    }

    /// Converts an upper case character to its letter number.
    pub fn uchar_to_usize(c: char) -> (r: usize)
        requires
            'A' <= c <= 'Z',
        ensures
            r == upper_num(c),
            r < 26,
    {
        (c as u32 - 'A' as u32) as usize
    }

    /// Converts an upper case character to its letter number.
    pub fn uchar_to_u8(c: char) -> (r: u8)
        requires
            'A' <= c <= 'Z',
        ensures
            r == upper_num(c),
            r < 26,
    {
        (c as u32 - 'A' as u32) as u8
    }
}

} // verus!
