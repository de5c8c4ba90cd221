use thesaurus_rex::iter::gen_to_iter;
use thesaurus_rex::language::new_empty_word;
use thesaurus_rex::language::RegularLanguage;
use thesaurus_rex::matcher::enumerate_matches;
use thesaurus_rex::matcher::is_match;
use thesaurus_rex::matcher::try_match;

fn singleton(a: char) -> RegularLanguage {
    RegularLanguage::Singleton(a)
}

#[test]
fn empty_word_language_rejects_non_empty_words() {
    let language = new_empty_word();
    assert!(!is_match(&language, &['a']));
    assert!(!is_match(&language, &['a', 'b']));
}

#[test]
fn flattening_of_nested_repetition() {
    let once = RegularLanguage::Repetition(Box::new(singleton('a')));
    let twice = RegularLanguage::Repetition(Box::new(RegularLanguage::Repetition(Box::new(
        singleton('a'),
    ))));
    let words: [&[char]; 5] = [&[], &['a'], &['a', 'a'], &['b'], &['a', 'b']];
    for word in words {
        assert_eq!(is_match(&once, word), is_match(&twice, word));
    }
}

#[test]
fn union_acceptance_commutes() {
    let ab = RegularLanguage::Union(Box::new(singleton('a')), Box::new(singleton('b')));
    let ba = RegularLanguage::Union(Box::new(singleton('b')), Box::new(singleton('a')));
    let words: [&[char]; 4] = [&[], &['a'], &['b'], &['a', 'b']];
    for word in words {
        assert_eq!(is_match(&ab, word), is_match(&ba, word));
    }
}

#[test]
fn concatenation_acceptance_associates() {
    let left = RegularLanguage::Concatenation(
        Box::new(RegularLanguage::Concatenation(
            Box::new(singleton('a')),
            Box::new(singleton('b')),
        )),
        Box::new(singleton('c')),
    );
    let right = RegularLanguage::Concatenation(
        Box::new(singleton('a')),
        Box::new(RegularLanguage::Concatenation(
            Box::new(singleton('b')),
            Box::new(singleton('c')),
        )),
    );
    let words: [&[char]; 5] = [&[], &['a'], &['a', 'b'], &['a', 'b', 'c'], &['a', 'b', 'c', 'd']];
    for word in words {
        assert_eq!(is_match(&left, word), is_match(&right, word));
    }
    assert!(is_match(&left, &['a', 'b', 'c']));
}

#[test]
fn enumerate_matches_reports_every_suffix_offset() {
    let language = RegularLanguage::Union(
        Box::new(singleton('a')),
        Box::new(RegularLanguage::Concatenation(
            Box::new(singleton('a')),
            Box::new(singleton('a')),
        )),
    );
    let offsets = enumerate_matches(&language, &['a', 'a']);
    assert_eq!(offsets.len(), 2);
    assert!(offsets.contains(&1));
    assert!(offsets.contains(&2));
}

#[test]
fn enumerate_matches_of_repetition_deduplicates() {
    let language = RegularLanguage::Repetition(Box::new(RegularLanguage::Union(
        Box::new(RegularLanguage::Concatenation(
            Box::new(singleton('a')),
            Box::new(singleton('a')),
        )),
        Box::new(singleton('a')),
    )));
    // Offsets 1 and 2 are reachable through several derivations each,
    // yet every offset is reported once.
    let offsets = enumerate_matches(&language, &['a', 'a', 'a']);
    assert_eq!(offsets.len(), 4);
    for o in 0..=3 {
        assert!(offsets.contains(&o));
    }
}

#[test]
fn enumerate_matches_of_empty_language_is_empty() {
    let offsets = enumerate_matches(&RegularLanguage::Empty, &['a']);
    assert!(offsets.is_empty());
}

#[test]
fn try_match_yields_each_match_once() {
    let language = RegularLanguage::Repetition(Box::new(singleton('a')));
    let mut matches = try_match(&language, &['a', 'a']);
    let mut seen: Vec<usize> = Vec::new();
    while let Some(offset) = matches.next() {
        assert!(!seen.contains(&offset));
        seen.push(offset);
    }
    assert_eq!(seen.len(), 3);
    assert!(seen.contains(&0));
    assert!(seen.contains(&1));
    assert!(seen.contains(&2));
}

#[test]
fn gen_to_iter_hands_items_back_in_order() {
    let mut it = gen_to_iter(vec![3usize, 1, 2]);
    assert_eq!(it.next(), Some(3));
    assert_eq!(it.next(), Some(1));
    assert_eq!(it.next(), Some(2));
    assert_eq!(it.next(), None);
    assert_eq!(it.next(), None);
}
