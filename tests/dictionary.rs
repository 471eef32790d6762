use std::io::Write;

use flate2::write::GzEncoder;
use flate2::Compression;
use wordsolve::{Dictionary, LoadError, Slot, WordId, WordSizeConstraint};

fn gz_dict(string: &str) -> Vec<u8> {
    let mut encoder = GzEncoder::new(Vec::new(), Compression::default());
    encoder.write_all(string.as_bytes()).unwrap();
    encoder.finish().unwrap()
}

fn five() -> WordSizeConstraint {
    WordSizeConstraint::exactly(5)
}

fn letter(c: char) -> u8 {
    Dictionary::uchar_to_u8(c)
}

fn check_mem(dictionary: &Dictionary) {
    let nodes = dictionary.tree_node_count();
    let used = dictionary.tree_mem_usage();
    assert!(used > 0);
    assert_eq!(used % nodes, 0);
    assert!(dictionary.tree_mem_alloc() >= used);
}

fn test_dict1(dictionary: Dictionary) {
    assert_eq!(dictionary.word_count(), 1);
    assert_eq!(dictionary.tree_node_count(), 5);
    check_mem(&dictionary);

    assert_eq!(dictionary.lookup_elem_letter_num(0, letter('R')), Slot::Continues(1));
    assert_eq!(dictionary.lookup_elem_letter_num(1, letter('U')), Slot::Continues(2));
    assert_eq!(dictionary.lookup_elem_letter_num(2, letter('S')), Slot::Continues(3));
    assert_eq!(dictionary.lookup_elem_letter_num(3, letter('T')), Slot::Continues(4));
    assert_eq!(dictionary.lookup_elem_letter_num(4, letter('Y')), Slot::Terminal);
}

fn test_dict2(dictionary: Dictionary) {
    assert_eq!(dictionary.word_count(), 2);
    assert_eq!(dictionary.tree_node_count(), 5);
    check_mem(&dictionary);

    assert_eq!(dictionary.lookup_elem_letter_num(0, letter('R')), Slot::Continues(1));
    assert_eq!(dictionary.lookup_elem_letter_num(1, letter('U')), Slot::Continues(2));
    assert_eq!(dictionary.lookup_elem_letter_num(2, letter('S')), Slot::Continues(3));
    assert_eq!(dictionary.lookup_elem_letter_num(3, letter('T')), Slot::Continues(4));
    assert_eq!(dictionary.lookup_elem_letter_num(4, letter('Y')), Slot::Terminal);
    assert_eq!(dictionary.lookup_elem_letter_num(4, letter('S')), Slot::Terminal);
}

#[test]
fn dict1() {
    let dictionary = Dictionary::new_from_string("rusty", five()).unwrap();
    test_dict1(dictionary)
}

#[test]
fn dict1z() {
    let dictionary = Dictionary::new_from_bytes(&gz_dict("rusty"), five()).unwrap();
    test_dict1(dictionary)
}

#[test]
fn dict2() {
    let dictionary = Dictionary::new_from_string("rusts\nrusty", five()).unwrap();
    test_dict2(dictionary);
}

#[test]
fn dict2z() {
    let dictionary = Dictionary::new_from_bytes(&gz_dict("rusts\nrusty"), five()).unwrap();
    test_dict2(dictionary);
}

#[test]
fn rust_then_rusty() {
    let only = Dictionary::new_from_string("rust", WordSizeConstraint::unbounded()).unwrap();
    assert_eq!(only.tree_node_count(), 4);
    assert_eq!(only.lookup_elem_letter_num(0, letter('R')), Slot::Continues(1));
    assert_eq!(only.lookup_elem_letter_num(1, letter('U')), Slot::Continues(2));
    assert_eq!(only.lookup_elem_letter_num(2, letter('S')), Slot::Continues(3));
    assert_eq!(only.lookup_elem_letter_num(3, letter('T')), Slot::Terminal);

    let both = Dictionary::new_from_string("rust\nrusty", WordSizeConstraint::unbounded()).unwrap();
    assert_eq!(both.tree_node_count(), 5);
    assert_eq!(both.word_count(), 2);
    assert_eq!(both.lookup_elem_letter_num(3, letter('T')), Slot::TerminalContinues(4));
    assert_eq!(both.tree_node_count() - 1, 4);
    for l in 0..26u8 {
        let expected = if l == letter('Y') { Slot::Terminal } else { Slot::Empty };
        assert_eq!(both.lookup_elem_letter_num(4, l), expected);
    }
}

#[test]
fn children_follow_their_node() {
    let d = Dictionary::new_from_string("crane\ncrate\nslate\nstare", five()).unwrap();
    let nodes = d.tree_node_count();
    let mut parents = vec![0usize; nodes];
    for n in 0..nodes {
        for l in 0..26u8 {
            if let Slot::Continues(c) | Slot::TerminalContinues(c) = d.lookup_elem_letter_num(n, l) {
                assert!(n < c && c < nodes);
                parents[c] += 1;
            }
        }
    }
    assert_eq!(parents[0], 0);
    assert!(parents[1..].iter().all(|p| *p == 1));
}

#[test]
fn memory_figures() {
    let d = Dictionary::new_from_string("rusty", five()).unwrap();
    let per_node = Dictionary::bytes_for_capacity(1);
    assert!(per_node > 0);
    assert_eq!(Dictionary::bytes_for_capacity(3), 3 * per_node);
    assert_eq!(Dictionary::bytes_for_capacity(usize::MAX), usize::MAX);
    assert_eq!(d.tree_mem_usage(), 5 * per_node);
    assert_eq!(d.tree_mem_alloc() % per_node, 0);
    assert!(d.tree_mem_alloc() >= d.tree_mem_usage());
}

#[test]
fn get_word_spells_back() {
    let dictionary = Dictionary::new_from_string("rusts\nrusty", five()).unwrap();
    assert_eq!(dictionary.get_word(WordId { node: 4, letter: letter('Y') }), "rusty");
    assert_eq!(dictionary.get_word(WordId { node: 4, letter: letter('S') }), "rusts");
}

#[test]
fn walk_reaches_every_word() {
    let words = ["crane", "crate", "slate", "cr", "c"];
    let dictionary = Dictionary::new_from_string(&words.join("\n"), WordSizeConstraint::unbounded()).unwrap();
    for w in words {
        let letters: Vec<u8> = w.bytes().map(|b| b - b'a').collect();
        let mut node = 0usize;
        for l in &letters[..letters.len() - 1] {
            node = match dictionary.lookup_elem_letter_num(node, *l) {
                Slot::Continues(c) | Slot::TerminalContinues(c) => c,
                other => panic!("walk of {w} stopped at {other:?}"),
            };
        }
        let last = *letters.last().unwrap();
        assert!(matches!(
            dictionary.lookup_elem_letter_num(node, last),
            Slot::Terminal | Slot::TerminalContinues(_)
        ));
        assert_eq!(dictionary.get_word(WordId { node, letter: last }), w);
    }
}

#[test]
fn node_count_without_shared_prefixes() {
    let dictionary = Dictionary::new_from_string("abc\nbcd\ncde", WordSizeConstraint::unbounded()).unwrap();
    assert_eq!(dictionary.tree_node_count(), 3 * (3 - 1) + 1);
}

#[test]
fn node_count_with_shared_prefixes() {
    let dictionary = Dictionary::new_from_string("abc\nabd\ncde", WordSizeConstraint::unbounded()).unwrap();
    assert_eq!(dictionary.tree_node_count(), 5);
    assert!(dictionary.tree_node_count() < 3 * (3 - 1) + 1);
}

#[test]
fn load_counters() {
    let dictionary = Dictionary::new_from_string("rusty\nRUSTY\nrust\n\nab-de\nstare\n", five()).unwrap();
    assert_eq!(dictionary.line_count(), 6);
    assert_eq!(dictionary.wrong_length_count(), 2);
    assert_eq!(dictionary.wrong_case_count(), 2);
    assert_eq!(dictionary.word_count(), 2);
}

#[test]
fn crlf_lines() {
    let dictionary = Dictionary::new_from_string("rusts\r\nrusty\r\n", five()).unwrap();
    assert_eq!(dictionary.word_count(), 2);
    assert_eq!(dictionary.line_count(), 2);
}

#[test]
fn unbounded_takes_any_length() {
    let dictionary = Dictionary::new_from_string("a\nab\nabcdefghij", WordSizeConstraint::unbounded()).unwrap();
    assert_eq!(dictionary.word_count(), 3);
    assert_eq!(dictionary.tree_node_count(), 10);
}

#[test]
fn default_size_is_unbounded() {
    let size = WordSizeConstraint::default();
    assert_eq!(size, WordSizeConstraint::unbounded());
    let dictionary = Dictionary::new_from_string("a\nabcdefghijklmnop", size).unwrap();
    assert_eq!(dictionary.word_count(), 2);
}

#[test]
fn empty_source() {
    let dictionary = Dictionary::new_from_string("", five()).unwrap();
    assert_eq!(dictionary.word_count(), 0);
    assert_eq!(dictionary.tree_node_count(), 1);
    assert_eq!(dictionary.line_count(), 0);
}

#[test]
fn duplicate_word_is_an_error() {
    let r = Dictionary::new_from_string("rusty\nstare\nrusty\nrusty", five());
    assert_eq!(r.err(), Some(LoadError::DuplicateWord(3)));
}

#[test]
fn duplicate_in_gzip_is_an_error() {
    let r = Dictionary::new_from_bytes(&gz_dict("rusty\nrusty"), five());
    assert_eq!(r.err(), Some(LoadError::DuplicateWord(2)));
}

#[test]
fn bad_gzip_is_an_error() {
    let r = Dictionary::new_from_bytes(&[0x1f, 0x8b, 0x00, 0x01, 0x02], five());
    assert_eq!(r.err(), Some(LoadError::Decompress));
}

#[test]
fn word_contains_counts_letters() {
    let dictionary = Dictionary::new_from_string("erase", five()).unwrap();
    let id = WordId { node: 4, letter: letter('E') };
    assert!(dictionary.word_contains(id, letter('E'), 2, true));
    assert!(!dictionary.word_contains(id, letter('E'), 1, true));
    assert!(dictionary.word_contains(id, letter('E'), 1, false));
    assert!(!dictionary.word_contains(id, letter('E'), 3, false));
    assert!(dictionary.word_contains(id, letter('Z'), 0, true));
}

#[test]
fn contains_letters_walks() {
    let dictionary = Dictionary::new_from_string("rusts\nrusty", five()).unwrap();
    let rusty: Vec<u8> = "rusty".bytes().map(|b| b - b'a').collect();
    let rust: Vec<u8> = "rust".bytes().map(|b| b - b'a').collect();
    assert!(dictionary.contains_letters(&rusty));
    assert!(!dictionary.contains_letters(&rust));
    assert!(!dictionary.contains_letters(&vec![17, 30]));
}

#[test]
fn char_conversions() {
    assert_eq!(Dictionary::lchar_to_usize('a'), 0);
    assert_eq!(Dictionary::lchar_to_usize('z'), 25);
    assert_eq!(Dictionary::uchar_to_usize('C'), 2);
    assert_eq!(Dictionary::uchar_to_u8('R'), 17);
}

#[test]
fn plain_and_gzip_give_the_same_table() {
    let text = "crane\ncrate\nslate\nstare\nshore";
    let plain = Dictionary::new_from_string(text, five()).unwrap();
    let packed = Dictionary::new_from_bytes(&gz_dict(text), five()).unwrap();
    assert_eq!(plain.word_count(), packed.word_count());
    assert_eq!(plain.tree_node_count(), packed.tree_node_count());
    for n in 0..plain.tree_node_count() {
        for l in 0..26u8 {
            assert_eq!(plain.lookup_elem_letter_num(n, l), packed.lookup_elem_letter_num(n, l));
        }
    }
}

#[test]
fn nodes_numbered_in_order_of_appending() {
    let d = Dictionary::new_from_string("ab\ncd\nace", WordSizeConstraint::unbounded()).unwrap();
    assert_eq!(d.tree_node_count(), 4);
    assert_eq!(d.lookup_elem_letter_num(0, letter('A')), Slot::Continues(1));
    assert_eq!(d.lookup_elem_letter_num(0, letter('C')), Slot::Continues(2));
    assert_eq!(d.lookup_elem_letter_num(1, letter('C')), Slot::Continues(3));
    assert_eq!(d.lookup_elem_letter_num(3, letter('E')), Slot::Terminal);
    assert_eq!(d.lookup_elem_letter_num(1, letter('B')), Slot::Terminal);
}
