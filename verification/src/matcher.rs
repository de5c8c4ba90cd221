use vstd::prelude::*;

use crate::iter::CoroutineIter;
use crate::iter::gen_to_iter;
use crate::language::RegularLanguage;
use crate::language::in_language;
use crate::language::lemma_concat_elim;
use crate::language::lemma_concat_intro;
use crate::language::lemma_star_extend;

verus! {

/// Every gathered offset lies within the word and marks the end of a
/// consumed prefix that the language accepts.
pub open spec fn offsets_sound(l: RegularLanguage, w: Seq<char>, r: Seq<usize>) -> bool {
    forall|k: int| #![trigger r[k]]
        0 <= k < r.len() ==> r[k] <= w.len() && in_language(l, w.take(r[k] as int))
}

/// Every prefix of the word that the language accepts has its end offset
/// gathered.
pub open spec fn offsets_complete(l: RegularLanguage, w: Seq<char>, r: Seq<usize>) -> bool {
    forall|o: usize| #![trigger r.contains(o)]
        o <= w.len() && in_language(l, w.take(o as int)) ==> r.contains(o)
}

/// From offset `a`, one further non-empty chunk of `inner` cannot leave the
/// gathered set `s`: every offset one such chunk ahead of `a` is in `s`.
pub open spec fn closed_at(inner: RegularLanguage, w: Seq<char>, s: Seq<usize>, a: int) -> bool {
    forall|b: int| #![trigger in_language(inner, w.subrange(a, b))]
        a < b <= w.len() && in_language(inner, w.subrange(a, b)) ==> s.contains(b as usize)
}

/// Pushing onto a sequence adds exactly one value to its membership.
proof fn lemma_push_contains(s: Seq<usize>, v: usize)
    ensures
        forall|y: usize| #![trigger s.push(v).contains(y)]
            s.push(v).contains(y) <==> (s.contains(y) || y == v),
{
    assert forall|y: usize| s.push(v).contains(y) <==> (s.contains(y) || y == v) by {
        if s.contains(y) {
            let k = choose|k: int| 0 <= k < s.len() && s[k] == y;
            assert(s.push(v)[k] == y);
        }
        if y == v {
            assert(s.push(v)[s.len() as int] == y);
        }
        if s.push(v).contains(y) {
            let k = choose|k: int| 0 <= k < s.push(v).len() && s.push(v)[k] == y;
            if k < s.len() {
                assert(s[k] == y);
            }
        }
    }
}

/// Pushing a fresh value keeps a sequence free of duplicates.
proof fn lemma_push_nodup(s: Seq<usize>, v: usize)
    requires
        s.no_duplicates(),
        !s.contains(v),
    ensures
        s.push(v).no_duplicates(),
{
    assert forall|i: int, j: int|
        0 <= i < s.push(v).len() && 0 <= j < s.push(v).len() && i != j implies s.push(v)[i]
        != s.push(v)[j] by {
        if i == s.len() && s.push(v)[j] == v {
            assert(s[j] == v);
        }
        if j == s.len() && s.push(v)[i] == v {
            assert(s[i] == v);
        }
    }
}

/// Dropping the last element of a duplicate-free sequence keeps it
/// duplicate-free, loses exactly that element, and adds none.
proof fn lemma_drop_last_nodup(s: Seq<usize>)
    requires
        s.no_duplicates(),
        s.len() >= 1,
    ensures
        s.subrange(0, s.len() - 1).no_duplicates(),
        !s.subrange(0, s.len() - 1).contains(s[s.len() - 1]),
        forall|y: usize| #![trigger s.subrange(0, s.len() - 1).contains(y)]
            s.subrange(0, s.len() - 1).contains(y) ==> s.contains(y),
{
    let t = s.subrange(0, s.len() - 1);
    assert forall|y: usize| t.contains(y) implies s.contains(y) by {
        let k = choose|k: int| 0 <= k < t.len() && t[k] == y;
        assert(s[k] == y);
    }
    if t.contains(s[s.len() - 1]) {
        let k = choose|k: int| 0 <= k < t.len() && t[k] == s[s.len() - 1];
        assert(s[k] == s[s.len() - 1]);
    }
}

/// A duplicate-free sequence of offsets drawn from `0 ..= n` has at most
/// `n + 1` elements.
proof fn lemma_bounded_nodup_len(s: Seq<usize>, n: int)
    requires
        s.no_duplicates(),
        n >= 0,
        forall|k: int| #![trigger s[k]] 0 <= k < s.len() ==> s[k] <= n,
    ensures
        s.len() <= n + 1,
{
    let f = |x: usize| x as int;
    let t = s.map_values(f);
    assert forall|i: int, j: int|
        0 <= i < t.len() && 0 <= j < t.len() && i != j implies t[i] != t[j] by {
        assert(t[i] == f(s[i]) && t[j] == f(s[j]));
    }
    assert(t.no_duplicates());
    t.unique_seq_to_set();
    assert forall|x: int| t.to_set().contains(x) implies vstd::set_lib::set_int_range(
        0,
        n + 1,
    ).contains(x) by {
        let k = choose|k: int| 0 <= k < t.len() && t[k] == x;
        assert(t[k] == f(s[k]));
    }
    vstd::set_lib::lemma_int_range(0, n + 1);
    vstd::set_lib::lemma_len_subset(t.to_set(), vstd::set_lib::set_int_range(0, n + 1));
}

/// Growing the gathered set cannot break closedness at an offset.
proof fn lemma_closed_at_push(
    inner: RegularLanguage,
    w: Seq<char>,
    s: Seq<usize>,
    v: usize,
    a: int,
)
    requires
        closed_at(inner, w, s, a),
    ensures
        closed_at(inner, w, s.push(v), a),
{
    lemma_push_contains(s, v);
    assert forall|b: int|
        a < b <= w.len() && in_language(inner, w.subrange(a, b)) implies s.push(v).contains(
        b as usize,
    ) by {
        assert(s.contains(b as usize));
    }
}

/// In a set of offsets that contains `a` and is closed at each of its
/// members, every offset that a member of the repetition leads to from `a`
/// is present. This is the completeness of the worklist expansion: once no
/// pending work remains, no accepted prefix has been missed.
proof fn lemma_closed_reaches(
    inner: RegularLanguage,
    l: RegularLanguage,
    w: Seq<char>,
    s: Seq<usize>,
    a: int,
    b: int,
)
    requires
        l is Repetition,
        *l->Repetition_0 == inner,
        w.len() <= usize::MAX,
        forall|k: int| #![trigger s[k]] 0 <= k < s.len() ==> closed_at(inner, w, s, s[k] as int),
        0 <= a <= b <= w.len(),
        s.contains(a as usize),
        in_language(l, w.subrange(a, b)),
    ensures
        s.contains(b as usize),
    decreases b - a,
{
    if a < b {
        let u = w.subrange(a, b);
        assert(u.len() == b - a);
        let i = choose|i: int|
            1 <= i <= u.len() && in_language(*l->Repetition_0, u.take(i)) && in_language(
                l,
                u.skip(i),
            );
        assert(u.take(i) =~= w.subrange(a, a + i));
        assert(u.skip(i) =~= w.subrange(a + i, b));
        let k = choose|k: int| 0 <= k < s.len() && s[k] == a as usize;
        assert(s[k] == a as usize);
        assert(s[k] as int == a);
        assert(closed_at(inner, w, s, a));
        assert(in_language(inner, w.subrange(a, a + i)));
        assert(s.contains((a + i) as usize));
        lemma_closed_reaches(inner, l, w, s, a + i, b);
    }
}

/// Linear scan for an offset among those gathered so far.
fn contains_offset(v: &Vec<usize>, x: usize) -> (b: bool)
    ensures
        b == v@.contains(x),
{
    let mut k: usize = 0;
    while k < v.len()
        invariant
            k <= v@.len(),
            forall|j: int| 0 <= j < k ==> v@[j] != x,
        decreases v@.len() - k,
    {
        if v[k] == x {
            return true;
        }
        k = k + 1;
    }
    false
}

/// The set of suffixes of `word` reachable by consuming a prefix that
/// `language` accepts, each suffix identified by its start offset. The
/// result holds every reachable offset exactly once.
///
/// Repetition is expanded through an explicit worklist: a popped offset's
/// inner matches are kept only when they consume at least one token, so
/// the expansion always shrinks the remaining suffix and terminates even
/// when the inner language accepts the empty word.
#[verifier::loop_isolation(false)]
pub fn enumerate_matches(language: &RegularLanguage, word: &[char]) -> (r: Vec<usize>)
    ensures
        offsets_sound(*language, word@, r@),
        offsets_complete(*language, word@, r@),
        r@.no_duplicates(),
    decreases *language,
{
    match language {
        RegularLanguage::Empty => {
            let r: Vec<usize> = Vec::new();
            r
        },
        RegularLanguage::Singleton(a) => {
            let mut r: Vec<usize> = Vec::new();
            if word.len() >= 1 {
                let head = *vstd::slice::slice_index_get(word, 0);
                if head == *a {
                    r.push(1);
                    proof {
                        assert(word@.take(1).len() == 1 && word@.take(1)[0] == *a);
                    }
                }
            }
            proof {
                assert forall|o: usize|
                    o <= word@.len() && in_language(*language, word@.take(o as int))
                        implies r@.contains(o) by {
                    assert(word@.take(o as int).len() == o);
                    assert(o == 1 && word@.take(1)[0] == *a);
                    assert(r@[0] == 1usize);
                }
            }
            r
        },
        RegularLanguage::Union(first, second) => {
            let mut r = enumerate_matches(&**first, word);
            let r2 = enumerate_matches(&**second, word);
            let ghost r1 = r@;
            let mut j: usize = 0;
            while j < r2.len()
                invariant
                    j <= r2@.len(),
                    offsets_sound(*language, word@, r@),
                    r@.no_duplicates(),
                    forall|y: usize| #![trigger r1.contains(y)] r1.contains(y) ==> r@.contains(y),
                    forall|jj: int| #![trigger r2@[jj]] 0 <= jj < j ==> r@.contains(r2@[jj]),
                decreases r2@.len() - j,
            {
                let x = r2[j];
                if !contains_offset(&r, x) {
                    let ghost r0 = r@;
                    r.push(x);
                    proof {
                        lemma_push_contains(r0, x);
                        lemma_push_nodup(r0, x);
                    }
                }
                j = j + 1;
            }
            proof {
                assert forall|o: usize|
                    o <= word@.len() && in_language(*language, word@.take(o as int))
                        implies r@.contains(o) by {
                    if in_language(**first, word@.take(o as int)) {
                        assert(r1.contains(o));
                    } else {
                        assert(r2@.contains(o));
                        let jj = choose|jj: int| 0 <= jj < r2@.len() && r2@[jj] == o;
                        assert(r@.contains(r2@[jj]));
                    }
                }
            }
            r
        },
        RegularLanguage::Concatenation(first, second) => {
            let r1 = enumerate_matches(&**first, word);
            let mut r: Vec<usize> = Vec::new();
            let mut i: usize = 0;
            while i < r1.len()
                invariant
                    i <= r1@.len(),
                    offsets_sound(*language, word@, r@),
                    r@.no_duplicates(),
                    forall|kk: int, o: int|
                        #![trigger r1@[kk], word@.subrange(r1@[kk] as int, o)]
                        0 <= kk < i && r1@[kk] <= o <= word@.len() && in_language(
                            **second,
                            word@.subrange(r1@[kk] as int, o),
                        ) ==> r@.contains(o as usize),
                decreases r1@.len() - i,
            {
                let o1 = r1[i];
                let sub = vstd::slice::slice_subrange(word, o1, word.len());
                let r2 = enumerate_matches(&**second, sub);
                let mut j: usize = 0;
                while j < r2.len()
                    invariant
                        j <= r2@.len(),
                        offsets_sound(*language, word@, r@),
                        r@.no_duplicates(),
                        forall|kk: int, o: int|
                            #![trigger r1@[kk], word@.subrange(r1@[kk] as int, o)]
                            0 <= kk < i && r1@[kk] <= o <= word@.len() && in_language(
                                **second,
                                word@.subrange(r1@[kk] as int, o),
                            ) ==> r@.contains(o as usize),
                        forall|jj: int| #![trigger r2@[jj]]
                            0 <= jj < j ==> r@.contains((o1 + r2@[jj]) as usize),
                    decreases r2@.len() - j,
                {
                    let c = r2[j];
                    proof {
                        assert(r2@[j as int] == c && c <= sub@.len());
                    }
                    let o2 = o1 + c;
                    if !contains_offset(&r, o2) {
                        let ghost r0 = r@;
                        proof {
                            assert(sub@.take(c as int) =~= word@.subrange(
                                o1 as int,
                                o1 + c as int,
                            ));
                            lemma_concat_intro(*language, word@, o1 as int, o1 + c as int);
                        }
                        r.push(o2);
                        proof {
                            lemma_push_contains(r0, o2);
                            lemma_push_nodup(r0, o2);
                        }
                    }
                    j = j + 1;
                }
                proof {
                    assert forall|o: int|
                        r1@[i as int] <= o <= word@.len() && in_language(
                            **second,
                            word@.subrange(r1@[i as int] as int, o),
                        ) implies r@.contains(o as usize) by {
                        assert(sub@.take(o - o1) =~= word@.subrange(o1 as int, o));
                        assert(r2@.contains((o - o1) as usize));
                        let jj = choose|jj: int| 0 <= jj < r2@.len() && r2@[jj] == (o - o1) as usize;
                        assert(r@.contains((o1 + r2@[jj]) as usize));
                    }
                }
                i = i + 1;
            }
            proof {
                assert forall|o: usize|
                    o <= word@.len() && in_language(*language, word@.take(o as int))
                        implies r@.contains(o) by {
                    let split = lemma_concat_elim(*language, word@, o as int);
                    assert(r1@.contains(split as usize));
                    let kk = choose|kk: int| 0 <= kk < r1@.len() && r1@[kk] == split as usize;
                    assert(in_language(**second, word@.subrange(r1@[kk] as int, o as int)));
                }
            }
            r
        },
        RegularLanguage::Repetition(inner) => {
            let n = word.len();
            let mut r: Vec<usize> = Vec::new();
            let mut pending: Vec<usize> = Vec::new();
            r.push(0);
            pending.push(0);
            proof {
                assert(word@.take(0).len() == 0);
                assert(r@[0] == 0usize && pending@[0] == 0usize);
            }
            while pending.len() > 0
                invariant
                    offsets_sound(*language, word@, r@),
                    r@.no_duplicates(),
                    pending@.no_duplicates(),
                    forall|k: int| #![trigger pending@[k]]
                        0 <= k < pending@.len() ==> r@.contains(pending@[k]),
                    r@.contains(0usize),
                    r@.len() <= word@.len() + 1,
                    forall|k: int| #![trigger r@[k]]
                        0 <= k < r@.len() ==> pending@.contains(r@[k]) || closed_at(
                            **inner,
                            word@,
                            r@,
                            r@[k] as int,
                        ),
                decreases word@.len() + 1 - r@.len(), pending@.len(),
            {
                let ghost p0 = pending@;
                let ghost r_head = r@;
                let o = pending.pop().unwrap();
                proof {
                    lemma_drop_last_nodup(p0);
                    assert(p0[p0.len() - 1] == o);
                    assert(r@.contains(o));
                    let k = choose|k: int| 0 <= k < r@.len() && r@[k] == o;
                    assert(r@[k] == o);
                    assert forall|k2: int| 0 <= k2 < pending@.len() implies r@.contains(
                        pending@[k2],
                    ) by {
                        assert(pending@[k2] == p0[k2]);
                    }
                    assert forall|k2: int|
                        0 <= k2 < r@.len() implies r@[k2] == o || pending@.contains(r@[k2])
                        || closed_at(**inner, word@, r@, r@[k2] as int) by {
                        if r@[k2] != o && !closed_at(**inner, word@, r@, r@[k2] as int) {
                            assert(p0.contains(r@[k2]));
                            let idx = choose|idx: int| 0 <= idx < p0.len() && p0[idx] == r@[k2];
                            assert(idx < p0.len() - 1);
                            assert(pending@[idx] == r@[k2]);
                        }
                    }
                }
                let sub = vstd::slice::slice_subrange(word, o, n);
                let cand = enumerate_matches(&**inner, sub);
                let mut j: usize = 0;
                while j < cand.len()
                    invariant
                        j <= cand@.len(),
                        offsets_sound(*language, word@, r@),
                        r@.no_duplicates(),
                        pending@.no_duplicates(),
                        forall|k: int| #![trigger pending@[k]]
                            0 <= k < pending@.len() ==> r@.contains(pending@[k]),
                        r@.contains(0usize),
                        r@.contains(o),
                        r@.len() <= word@.len() + 1,
                        r@.len() >= r_head.len(),
                        pending@.len() + r_head.len() + 1 == r@.len() + p0.len(),
                        forall|k: int| #![trigger r@[k]]
                            0 <= k < r@.len() ==> r@[k] == o || pending@.contains(r@[k])
                                || closed_at(**inner, word@, r@, r@[k] as int),
                        forall|jj: int| #![trigger cand@[jj]]
                            0 <= jj < j ==> cand@[jj] == 0 || r@.contains((o + cand@[jj]) as usize),
                    decreases cand@.len() - j,
                {
                    let c = cand[j];
                    proof {
                        assert(cand@[j as int] == c && c <= sub@.len());
                    }
                    if c >= 1 {
                        let o2 = o + c;
                        if !contains_offset(&r, o2) {
                            let ghost r0 = r@;
                            let ghost q0 = pending@;
                            proof {
                                let k = choose|k: int| 0 <= k < r0.len() && r0[k] == o;
                                assert(in_language(*language, word@.take(o as int)));
                                assert(sub@.take(c as int) =~= word@.subrange(
                                    o as int,
                                    o + c as int,
                                ));
                                lemma_star_extend(*language, word@, o as int, o + c as int);
                            }
                            r.push(o2);
                            pending.push(o2);
                            proof {
                                lemma_push_contains(r0, o2);
                                lemma_push_contains(q0, o2);
                                lemma_push_nodup(r0, o2);
                                if q0.contains(o2) {
                                    let k = choose|k: int| 0 <= k < q0.len() && q0[k] == o2;
                                    assert(r0.contains(q0[k]));
                                }
                                lemma_push_nodup(q0, o2);
                                lemma_bounded_nodup_len(r@, word@.len() as int);
                                assert forall|k: int|
                                    0 <= k < r@.len() implies r@[k] == o || pending@.contains(
                                    r@[k],
                                ) || closed_at(**inner, word@, r@, r@[k] as int) by {
                                    if k < r0.len() {
                                        assert(r@[k] == r0[k]);
                                        if !(r0[k] == o) && !q0.contains(r0[k]) {
                                            lemma_closed_at_push(
                                                **inner,
                                                word@,
                                                r0,
                                                o2,
                                                r0[k] as int,
                                            );
                                        }
                                    } else {
                                        assert(r@[k] == o2 && pending@.contains(o2));
                                    }
                                }
                            }
                        }
                    }
                    j = j + 1;
                }
                proof {
                    assert forall|k: int|
                        0 <= k < r@.len() implies pending@.contains(r@[k]) || closed_at(
                        **inner,
                        word@,
                        r@,
                        r@[k] as int,
                    ) by {
                        if r@[k] == o {
                            assert forall|b: int|
                                o < b <= word@.len() && in_language(
                                    **inner,
                                    word@.subrange(o as int, b),
                                ) implies r@.contains(b as usize) by {
                                assert(sub@.take(b - o) =~= word@.subrange(o as int, b));
                                assert(cand@.contains((b - o) as usize));
                                let jj = choose|jj: int|
                                    0 <= jj < cand@.len() && cand@[jj] == (b - o) as usize;
                                assert(r@.contains((o + cand@[jj]) as usize));
                            }
                            assert(closed_at(**inner, word@, r@, o as int));
                        }
                    }
                }
            }
            proof {
                assert forall|o: usize|
                    o <= word@.len() && in_language(*language, word@.take(o as int))
                        implies r@.contains(o) by {
                    assert(word@.take(o as int) =~= word@.subrange(0, o as int));
                    lemma_closed_reaches(**inner, *language, word@, r@, 0, o as int);
                }
            }
            r
        },
    }
}

/// The matches of `language` against `word`, presented as a resumable
/// iterator of suffix offsets so a consumer can stop at the first one it
/// wants.
pub fn try_match(language: &RegularLanguage, word: &[char]) -> (it: CoroutineIter<usize>)
    ensures
        it.wf(),
        offsets_sound(*language, word@, it.remaining()),
        offsets_complete(*language, word@, it.remaining()),
        it.remaining().no_duplicates(),
{
    gen_to_iter(enumerate_matches(language, word))
}

/// Whether `language` accepts `word` whole: the fully consumed, zero-length
/// suffix is among the matches. Scans the match iterator and stops at the
/// first fully consumed suffix.
pub fn is_match(language: &RegularLanguage, word: &[char]) -> (b: bool)
    ensures
        b == in_language(*language, word@),
{
    let n = word.len();
    let mut it = try_match(language, word);
    proof {
        assert(word@.take(n as int) =~= word@);
        if in_language(*language, word@) {
            assert(it.remaining().contains(n));
        }
    }
    loop
        invariant
            it.wf(),
            n == word@.len(),
            offsets_sound(*language, word@, it.remaining()),
            in_language(*language, word@) ==> it.remaining().contains(n),
        decreases it.remaining().len(),
    {
        let ghost rem0 = it.remaining();
        match it.next() {
            None => {
                proof {
                    if in_language(*language, word@) {
                        let k = choose|k: int| 0 <= k < rem0.len() && rem0[k] == n;
                        assert(false);
                    }
                }
                return false;
            },
            Some(o) => {
                if o == n {
                    proof {
                        assert(rem0[0] == o);
                        assert(word@.take(o as int) =~= word@);
                    }
                    return true;
                }
                proof {
                    if in_language(*language, word@) {
                        let k = choose|k: int| 0 <= k < rem0.len() && rem0[k] == n;
                        assert(k >= 1);
                        assert(it.remaining()[k - 1] == n);
                    }
                }
            },
        }
    }
}

} // verus!
