//! A matching engine for algebraic regular languages: a language is built
//! once from the five constructors of [`language::RegularLanguage`], and a
//! word is then matched against it. The enumerator
//! [`matcher::enumerate_matches`] is proved to report exactly the suffixes
//! reachable by consuming an accepted prefix, each once, and the decision
//! procedure [`matcher::is_match`] is proved to agree with the membership
//! predicate [`language::in_language`].

pub mod iter;
pub mod language;
pub mod matcher;
