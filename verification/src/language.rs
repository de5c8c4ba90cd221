use vstd::prelude::*;

verus! {

/// An algebraic regular language over `char` tokens: the empty language,
/// a single-token match, Kleene repetition, union, or concatenation.
/// The tree is built once through the variants and never mutated.
pub enum RegularLanguage {
    Empty,
    Singleton(char),
    // Kleene Star
    Repetition(Box<RegularLanguage>),
    Union(Box<RegularLanguage>, Box<RegularLanguage>),
    Concatenation(Box<RegularLanguage>, Box<RegularLanguage>),
}

/// Membership of a word in a language.
///
/// A word belongs to `Repetition(l)` exactly when it splits into zero or
/// more chunks, each a member of `l`. Requiring the leading chunk to be
/// non-empty loses no members (a zero-width chunk can always be dropped
/// from a split) and makes the recursion terminate.
pub open spec fn in_language(l: RegularLanguage, w: Seq<char>) -> bool
    decreases w.len(), l,
{
    match l {
        RegularLanguage::Empty => false,
        RegularLanguage::Singleton(a) => w.len() == 1 && w[0] == a,
        RegularLanguage::Repetition(inner) => w.len() == 0 || (exists|i: int|
            1 <= i <= w.len() && in_language(*inner, w.take(i)) && in_language(
                l,
                w.skip(i),
            )),
        RegularLanguage::Union(first, second) => in_language(*first, w) || in_language(*second, w),
        RegularLanguage::Concatenation(first, second) => exists|i: int|
            0 <= i <= w.len() && in_language(*first, w.take(i)) && in_language(*second, w.skip(i)),
    }
}

/// `Repetition(Empty)`: the language whose only member is the empty word.
pub fn new_empty_word() -> (l: RegularLanguage)
    ensures
        l matches RegularLanguage::Repetition(inner) && *inner is Empty,
        forall|w: Seq<char>| in_language(l, w) <==> w.len() == 0,
{
    let l = RegularLanguage::Repetition(Box::new(RegularLanguage::Empty));
    proof {
        assert forall|w: Seq<char>| in_language(l, w) <==> w.len() == 0 by {
            lemma_empty_word_language(l, w);
        }
    }
    l
}

/// A single non-empty member of the inner language is itself a member of
/// the repetition: one chunk is a legal split.
pub proof fn lemma_single_in_star(l: RegularLanguage, v: Seq<char>)
    requires
        l is Repetition,
        in_language(*l->Repetition_0, v),
        v.len() >= 1,
    ensures
        in_language(l, v),
{
    let inner = l->Repetition_0;
    let i = v.len() as int;
    assert(v.take(i) =~= v);
    assert(v.skip(i).len() == 0);
    assert(in_language(*inner, v.take(i)) && in_language(l, v.skip(i)));
}

/// A repetition is closed under concatenation: two members joined end to
/// end are again a member.
pub proof fn lemma_star_concat(l: RegularLanguage, u: Seq<char>, v: Seq<char>)
    requires
        l is Repetition,
        in_language(l, u),
        in_language(l, v),
    ensures
        in_language(l, u + v),
    decreases u.len(),
{
    let inner = l->Repetition_0;
    if u.len() == 0 {
        assert(u + v =~= v);
    } else {
        let i = choose|i: int|
            1 <= i <= u.len() && in_language(*inner, u.take(i)) && in_language(l, u.skip(i));
        lemma_star_concat(l, u.skip(i), v);
        assert((u + v).take(i) =~= u.take(i));
        assert((u + v).skip(i) =~= u.skip(i) + v);
        assert(in_language(*inner, (u + v).take(i)) && in_language(l, (u + v).skip(i)));
        assert(1 <= i <= (u + v).len());
    }
}

/// Extending a matched prefix of `w` by one further non-empty chunk of the
/// inner language yields a longer matched prefix of the repetition.
pub proof fn lemma_star_extend(l: RegularLanguage, w: Seq<char>, a: int, b: int)
    requires
        l is Repetition,
        0 <= a < b <= w.len(),
        in_language(l, w.take(a)),
        in_language(*l->Repetition_0, w.subrange(a, b)),
    ensures
        in_language(l, w.take(b)),
{
    lemma_single_in_star(l, w.subrange(a, b));
    lemma_star_concat(l, w.take(a), w.subrange(a, b));
    assert(w.take(a) + w.subrange(a, b) =~= w.take(b));
}

/// Splitting witness for concatenation: a prefix of `w` up to `j` belongs
/// to the concatenation when it splits at some `i` into a member of the
/// first operand and a member of the second.
pub proof fn lemma_concat_intro(l: RegularLanguage, w: Seq<char>, i: int, j: int)
    requires
        l is Concatenation,
        0 <= i <= j <= w.len(),
        in_language(*l->Concatenation_0, w.take(i)),
        in_language(*l->Concatenation_1, w.subrange(i, j)),
    ensures
        in_language(l, w.take(j)),
{
    let u = w.take(j);
    assert(u.take(i) =~= w.take(i));
    assert(u.skip(i) =~= w.subrange(i, j));
    assert(in_language(*l->Concatenation_0, u.take(i)) && in_language(
        *l->Concatenation_1,
        u.skip(i),
    ));
}

/// Inverse of `lemma_concat_intro`: every matched prefix of a
/// concatenation splits at some offset between its two operands.
pub proof fn lemma_concat_elim(l: RegularLanguage, w: Seq<char>, j: int) -> (i: int)
    requires
        l is Concatenation,
        0 <= j <= w.len(),
        in_language(l, w.take(j)),
    ensures
        0 <= i <= j,
        in_language(*l->Concatenation_0, w.take(i)),
        in_language(*l->Concatenation_1, w.subrange(i, j)),
{
    let u = w.take(j);
    let first = l->Concatenation_0;
    let second = l->Concatenation_1;
    let i = choose|i: int|
        0 <= i <= u.len() && in_language(*first, u.take(i)) && in_language(*second, u.skip(i));
    assert(u.take(i) =~= w.take(i));
    assert(u.skip(i) =~= w.subrange(i, j));
    i
}

/// The empty language accepts no word at all, not even the empty one.
pub proof fn lemma_empty_matches_nothing(w: Seq<char>)
    ensures
        !in_language(RegularLanguage::Empty, w),
{
}

/// A language shaped `Repetition(Empty)` accepts exactly the empty word.
pub proof fn lemma_empty_word_language(l: RegularLanguage, w: Seq<char>)
    requires
        l matches RegularLanguage::Repetition(inner) && *inner is Empty,
    ensures
        in_language(l, w) <==> w.len() == 0,
{
    if w.len() != 0 {
        assert(forall|i: int| !in_language(RegularLanguage::Empty, w.take(i)));
    }
}

/// A singleton language accepts exactly the one-token word holding its
/// token.
pub proof fn lemma_singleton_exact(a: char, w: Seq<char>)
    ensures
        in_language(RegularLanguage::Singleton(a), w) <==> (w.len() == 1 && w[0] == a),
{
}

/// Every repetition accepts the empty word: zero chunks is a legal split.
pub proof fn lemma_repetition_matches_empty(l: RegularLanguage)
    requires
        l is Repetition,
    ensures
        in_language(l, Seq::<char>::empty()),
{
}

/// A word of a doubly repeated language already belongs to the singly
/// repeated one: each chunk of the outer split is a run of inner chunks,
/// and runs concatenate.
proof fn lemma_star_star_sub(outer: RegularLanguage, w: Seq<char>)
    requires
        outer is Repetition,
        *outer->Repetition_0 is Repetition,
        in_language(outer, w),
    ensures
        in_language(*outer->Repetition_0, w),
    decreases w.len(),
{
    let mid = *outer->Repetition_0;
    if w.len() != 0 {
        let i = choose|i: int|
            1 <= i <= w.len() && in_language(mid, w.take(i)) && in_language(outer, w.skip(i));
        lemma_star_star_sub(outer, w.skip(i));
        lemma_star_concat(mid, w.take(i), w.skip(i));
        assert(w.take(i) + w.skip(i) =~= w);
    }
}

/// Flattening law: repeating a repetition accepts the same words as the
/// repetition itself.
pub proof fn lemma_repetition_flattening(outer: RegularLanguage, w: Seq<char>)
    requires
        outer is Repetition,
        *outer->Repetition_0 is Repetition,
    ensures
        in_language(outer, w) <==> in_language(*outer->Repetition_0, w),
{
    let mid = *outer->Repetition_0;
    if in_language(mid, w) && w.len() != 0 {
        lemma_single_in_star(outer, w);
    }
    if in_language(outer, w) {
        lemma_star_star_sub(outer, w);
    }
}

/// Union acceptance is commutative: swapping the operands accepts the same
/// words.
pub proof fn lemma_union_commutative(u: RegularLanguage, v: RegularLanguage, w: Seq<char>)
    requires
        u is Union,
        v is Union,
        *u->Union_0 == *v->Union_1,
        *u->Union_1 == *v->Union_0,
    ensures
        in_language(u, w) <==> in_language(v, w),
{
}

/// Concatenation acceptance is associative: grouping three operands to the
/// left or to the right accepts the same words.
pub proof fn lemma_concatenation_associative(
    left: RegularLanguage,
    right: RegularLanguage,
    w: Seq<char>,
)
    requires
        left is Concatenation,
        *left->Concatenation_0 is Concatenation,
        right is Concatenation,
        *right->Concatenation_1 is Concatenation,
        *(*left->Concatenation_0)->Concatenation_0 == *right->Concatenation_0,
        *(*left->Concatenation_0)->Concatenation_1 == *(*right->Concatenation_1)->Concatenation_0,
        *left->Concatenation_1 == *(*right->Concatenation_1)->Concatenation_1,
    ensures
        in_language(left, w) <==> in_language(right, w),
{
    let n = w.len() as int;
    assert(w.take(n) =~= w);
    if in_language(left, w) {
        let j = lemma_concat_elim(left, w, n);
        let i = lemma_concat_elim(*left->Concatenation_0, w, j);
        assert(w.skip(i).take(j - i) =~= w.subrange(i, j));
        assert(w.skip(i).skip(j - i) =~= w.subrange(j, n));
        assert(w.subrange(i, n).take(j - i) =~= w.skip(i).take(j - i));
        let tail = w.skip(i);
        assert(in_language(*(*right->Concatenation_1)->Concatenation_0, tail.take(j - i))
            && in_language(*(*right->Concatenation_1)->Concatenation_1, tail.skip(j - i)));
        assert(in_language(*right->Concatenation_1, tail));
        assert(in_language(*right->Concatenation_0, w.take(i)) && in_language(
            *right->Concatenation_1,
            w.skip(i),
        ));
    }
    if in_language(right, w) {
        let i = lemma_concat_elim(right, w, n);
        let tail = w.skip(i);
        assert(tail.take(tail.len() as int) =~= tail);
        assert(tail =~= w.subrange(i, n));
        let k = lemma_concat_elim(*right->Concatenation_1, tail, tail.len() as int);
        assert(tail.take(k) =~= w.subrange(i, i + k));
        assert(tail.subrange(k, tail.len() as int) =~= w.subrange(i + k, n));
        lemma_concat_intro(*left->Concatenation_0, w, i, i + k);
        assert(w.skip(i + k) =~= w.subrange(i + k, n));
        assert(in_language(*left->Concatenation_0, w.take(i + k)) && in_language(
            *left->Concatenation_1,
            w.skip(i + k),
        ));
    }
}

} // verus!
