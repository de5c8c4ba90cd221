use thesaurus_rex::language::new_empty_word;
use thesaurus_rex::language::RegularLanguage;
use thesaurus_rex::matcher::is_match;

#[test]
fn match_empty_language() {
    let language = RegularLanguage::Empty;
    assert!(!is_match(&language, &[]));
    assert!(!is_match(&language, &['a']));
    assert!(!is_match(&language, &['a', 'b']));
}

#[test]
fn match_empty_word_language() {
    let language = new_empty_word();
    assert!(is_match(&language, &[]));
}

#[test]
fn match_singleton() {
    let language = RegularLanguage::Singleton('a');
    assert!(!is_match(&language, &[]));
    assert!(is_match(&language, &['a']));
    assert!(!is_match(&language, &['b']));
    assert!(!is_match(&language, &['a', 'a']));
}

#[test]
fn match_repeated_singleton() {
    let language = RegularLanguage::Repetition(Box::new(RegularLanguage::Singleton('a')));
    assert!(is_match(&language, &[]));
    assert!(is_match(&language, &['a']));
    assert!(is_match(&language, &['a', 'a']));
    assert!(is_match(&language, &['a', 'a', 'a']));
    assert!(!is_match(&language, &['b']));
    assert!(!is_match(&language, &['a', 'a', 'a', 'b']));
}

#[test]
fn match_repeated_empty_word() {
    let language = RegularLanguage::Concatenation(
        Box::new(RegularLanguage::Repetition(Box::new(new_empty_word()))),
        Box::new(RegularLanguage::Singleton('a')),
    );
    assert!(!is_match(&language, &[]));
    assert!(is_match(&language, &['a']));
    assert!(!is_match(&language, &['b']));
    assert!(!is_match(&language, &['a', 'a']));
}

#[test]
fn match_union_simple() {
    let language = RegularLanguage::Union(
        Box::new(RegularLanguage::Singleton('a')),
        Box::new(RegularLanguage::Singleton('b')),
    );
    assert!(!is_match(&language, &[]));
    assert!(is_match(&language, &['a']));
    assert!(is_match(&language, &['b']));
    assert!(!is_match(&language, &['A']));
    assert!(!is_match(&language, &['z']));
    assert!(!is_match(&language, &['a', 'a']));
    assert!(!is_match(&language, &['b', 'a']));
    assert!(!is_match(&language, &['b', 'b']));
    assert!(!is_match(&language, &['b', 'b']));
}

#[test]
fn match_union_longer_match_wins() {
    let language = RegularLanguage::Union(
        Box::new(RegularLanguage::Singleton('a')),
        Box::new(RegularLanguage::Repetition(Box::new(
            RegularLanguage::Singleton('a'),
        ))),
    );
    assert!(is_match(&language, &['a', 'a']));
    assert!(is_match(&language, &[]));
    assert!(is_match(&language, &['a']));
    assert!(!is_match(&language, &['b']));
    assert!(!is_match(&language, &['a', 'b']));
    assert!(is_match(&language, &['a', 'a', 'a']));
}

#[test]
fn match_concatenation() {
    let language = RegularLanguage::Concatenation(
        Box::new(RegularLanguage::Singleton('a')),
        Box::new(RegularLanguage::Singleton('b')),
    );
    assert!(!is_match(&language, &[]));
    assert!(!is_match(&language, &['a']));
    assert!(!is_match(&language, &['b']));
    assert!(is_match(&language, &['a', 'b']));
    assert!(!is_match(&language, &['a', 'b', 'b']));
    assert!(!is_match(&language, &['a', 'a']));
    assert!(!is_match(&language, &['b', 'a']));
}

#[test]
fn consider_empty_word_match() {
    let language = RegularLanguage::Concatenation(
        Box::new(RegularLanguage::Union(
            Box::new(RegularLanguage::Singleton('a')),
            Box::new(new_empty_word()),
        )),
        Box::new(RegularLanguage::Singleton('a')),
    );
    assert!(!is_match(&language, &[]));
    assert!(is_match(&language, &['a']));
    assert!(!is_match(&language, &['b']));
    assert!(is_match(&language, &['a', 'a']));
    assert!(!is_match(&language, &['a', 'b']));
    assert!(!is_match(&language, &['a', 'a', 'a']));
}

#[test]
fn consider_non_empty_match() {
    let language = RegularLanguage::Concatenation(
        Box::new(RegularLanguage::Union(
            Box::new(RegularLanguage::Concatenation(
                Box::new(RegularLanguage::Singleton('a')),
                Box::new(RegularLanguage::Singleton('a')),
            )),
            Box::new(RegularLanguage::Singleton('a')),
        )),
        Box::new(RegularLanguage::Singleton('a')),
    );
    assert!(!is_match(&language, &[]));
    assert!(!is_match(&language, &['a']));
    assert!(!is_match(&language, &['b']));
    assert!(is_match(&language, &['a', 'a']));
    assert!(is_match(&language, &['a', 'a', 'a']));
    assert!(!is_match(&language, &['a', 'a', 'b']));
    assert!(!is_match(&language, &['a', 'a', 'a', 'a']));
}

#[test]
fn repeated_ambiguity() {
    let language = RegularLanguage::Repetition(Box::new(RegularLanguage::Union(
        Box::new(RegularLanguage::Concatenation(
            Box::new(RegularLanguage::Singleton('a')),
            Box::new(RegularLanguage::Singleton('a')),
        )),
        Box::new(RegularLanguage::Singleton('a')),
    )));
    assert!(is_match(&language, &[]));
    assert!(is_match(&language, &['a']));
    assert!(!is_match(&language, &['b']));
    assert!(is_match(&language, &['a', 'a']));
    assert!(is_match(&language, &['a'; 10]));
    assert!(is_match(&language, &['a'; 20]));
    assert!(is_match(&language, &['a'; 30]));
    assert!(is_match(&language, &['a'; 100]));
    assert!(is_match(&language, &['a'; 1000]));
}
