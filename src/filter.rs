use vstd::prelude::*;
use crate::utils::names;

verus! {

/// A character with ASCII capitals folded to lower case, as a code point.
pub open spec fn folded(c: char) -> u32 {
    if 65 <= (c as u32) && (c as u32) <= 90 {
        ((c as u32) + 32) as u32
    } else {
        c as u32
    }
}

/// Whether the characters of `term` occur in `text` in order, not
/// necessarily next to each other, ignoring ASCII case.
pub open spec fn fuzzy_matches(term: Seq<char>, text: Seq<char>) -> bool
    decreases text.len(),
{
    if term.len() == 0 {
        true
    } else if text.len() == 0 {
        false
    } else if folded(term[0]) == folded(text[0]) {
        fuzzy_matches(term.drop_first(), text.drop_first())
    } else {
        fuzzy_matches(term, text.drop_first())
    }
}

/// The paths of `s` that `term` matches, in their order in `s`.
pub open spec fn filter_matching(s: Seq<Seq<char>>, term: Seq<char>) -> Seq<Seq<char>>
    decreases s.len(),
{
    if s.len() == 0 {
        Seq::empty()
    } else if fuzzy_matches(term, s.last()) {
        filter_matching(s.drop_last(), term).push(s.last())
    } else {
        filter_matching(s.drop_last(), term)
    }
}

/// Whether `a` is `b` with some elements left out.
pub open spec fn is_subsequence(a: Seq<Seq<char>>, b: Seq<Seq<char>>) -> bool
    decreases b.len(),
{
    if a.len() == 0 {
        true
    } else if b.len() == 0 {
        false
    } else if a.last() == b.last() {
        is_subsequence(a.drop_last(), b.drop_last())
    } else {
        is_subsequence(a, b.drop_last())
    }
}

fn fold_char(c: char) -> (r: u32)
    ensures
        r == folded(c),
{
    let u = c as u32;
    if 65 <= u && u <= 90 {
        u + 32
    } else {
        u
    }
}

/// Whether `term` matches `text` (see `fuzzy_matches`).
pub fn fuzzy_match(term: &str, text: &str) -> (r: bool)
    ensures
        r == fuzzy_matches(term@, text@),
{
    let tl = term.unicode_len();
    let sl = text.unicode_len();
    let mut i: usize = 0;
    let mut j: usize = 0;
    assert(term@.skip(0) =~= term@);
    assert(text@.skip(0) =~= text@);
    while i < tl && j < sl
        invariant
            tl == term@.len(),
            sl == text@.len(),
            i <= tl,
            j <= sl,
            fuzzy_matches(term@, text@) == fuzzy_matches(term@.skip(i as int), text@.skip(j as int)),
        decreases sl - j,
    {
        let a = term.get_char(i);
        let b = text.get_char(j);
        assert(term@.skip(i as int)[0] == a);
        assert(text@.skip(j as int)[0] == b);
        assert(term@.skip(i as int).drop_first() =~= term@.skip(i + 1));
        assert(text@.skip(j as int).drop_first() =~= text@.skip(j + 1));
        if fold_char(a) == fold_char(b) {
            i = i + 1;
        }
        j = j + 1;
    }
    if i == tl {
        assert(term@.skip(i as int).len() == 0);
        true
    } else {
        assert(text@.skip(j as int).len() == 0);
        false
    }
}

/// The paths of `dirs` that `term` matches, keeping their order.
pub fn fuzzy_filter(dirs: &Vec<String>, term: &str) -> (r: Vec<String>)
    ensures
        names(r@) == filter_matching(names(dirs@), term@),
{
    let mut r: Vec<String> = Vec::new();
    let mut i: usize = 0;
    while i < dirs.len()
        invariant
            i <= dirs@.len(),
            names(r@) == filter_matching(names(dirs@).take(i as int), term@),
        decreases dirs@.len() - i,
    {
        let ghost before = names(r@);
        assert(names(dirs@).take(i + 1).drop_last() =~= names(dirs@).take(i as int));
        assert(names(dirs@).take(i + 1).last() == dirs@[i as int]@);
        if fuzzy_match(term, dirs[i].as_str()) {
            r.push(dirs[i].clone());
            assert(names(r@) =~= before.push(dirs@[i as int]@));
        }
        i = i + 1;
    }
    assert(names(dirs@).take(i as int) =~= names(dirs@));
    r
}

/// Every path that the filter keeps is matched by the term.
pub proof fn lemma_filter_all_match(s: Seq<Seq<char>>, term: Seq<char>)
    ensures
        forall|k: int|
            0 <= k < filter_matching(s, term).len() ==> fuzzy_matches(
                term,
                #[trigger] filter_matching(s, term)[k],
            ),
    decreases s.len(),
{
    if s.len() > 0 {
        lemma_filter_all_match(s.drop_last(), term);
        let f = filter_matching(s, term);
        let g = filter_matching(s.drop_last(), term);
        assert forall|k: int| 0 <= k < f.len() implies fuzzy_matches(term, #[trigger] f[k]) by {
            if k < g.len() {
                assert(f[k] == g[k]);
            }
        }
    }
}

/// Filtering keeps only paths that are there, each once and in their order:
/// the result is a subsequence of the input.
pub proof fn lemma_filter_subsequence(s: Seq<Seq<char>>, term: Seq<char>)
    ensures
        is_subsequence(filter_matching(s, term), s),
    decreases s.len(),
{
    if s.len() > 0 {
        lemma_filter_subsequence(s.drop_last(), term);
        let f = filter_matching(s, term);
        if fuzzy_matches(term, s.last()) {
            assert(f.drop_last() =~= filter_matching(s.drop_last(), term));
        } else if f.len() > 0 {
            lemma_filter_all_match(s.drop_last(), term);
            assert(fuzzy_matches(term, f[f.len() - 1]));
            assert(f.last() != s.last());
        }
    }
}

/// Filtering a filtered list again with the same term changes nothing.
pub proof fn lemma_filter_idempotent(s: Seq<Seq<char>>, term: Seq<char>)
    ensures
        filter_matching(filter_matching(s, term), term) == filter_matching(s, term),
    decreases s.len(),
{
    if s.len() > 0 {
        lemma_filter_idempotent(s.drop_last(), term);
        let f = filter_matching(s, term);
        if fuzzy_matches(term, s.last()) {
            assert(f.drop_last() =~= filter_matching(s.drop_last(), term));
        }
    }
}

/// Every path that the filter keeps is one of the input's.
pub proof fn lemma_filter_contained(s: Seq<Seq<char>>, term: Seq<char>)
    ensures
        forall|k: int|
            0 <= k < filter_matching(s, term).len() ==> s.contains(
                #[trigger] filter_matching(s, term)[k],
            ),
    decreases s.len(),
{
    if s.len() > 0 {
        lemma_filter_contained(s.drop_last(), term);
        let f = filter_matching(s, term);
        let g = filter_matching(s.drop_last(), term);
        assert forall|k: int| 0 <= k < f.len() implies s.contains(#[trigger] f[k]) by {
            if k < g.len() {
                assert(f[k] == g[k]);
                let j = choose|j: int| 0 <= j < s.drop_last().len() && s.drop_last()[j] == g[k];
                assert(s[j] == f[k]);
            } else {
                assert(f[k] == s[s.len() - 1]);
            }
        }
    }
}

/// Filtering keeps the relative order of a list sorted in strictly
/// descending order.
pub proof fn lemma_filter_keeps_descending(s: Seq<Seq<char>>, term: Seq<char>)
    requires
        strictly_descending(s),
    ensures
        strictly_descending(filter_matching(s, term)),
    decreases s.len(),
{
    if s.len() > 0 {
        let t = s.drop_last();
        assert(strictly_descending(t));
        lemma_filter_keeps_descending(t, term);
        lemma_filter_contained(t, term);
        let g = filter_matching(t, term);
        if fuzzy_matches(term, s.last()) {
            let f = g.push(s.last());
            assert forall|i: int, j: int| 0 <= i < j < f.len() implies crate::text::lex_lt(
                #[trigger] f[j],
                #[trigger] f[i],
            ) by {
                if j == f.len() - 1 {
                    let m = choose|m: int| 0 <= m < t.len() && t[m] == g[i];
                    assert(s[m] == f[i]);
                }
            }
        }
    }
}

/// Strictly descending lexicographic order: no two entries equal.
pub open spec fn strictly_descending(s: Seq<Seq<char>>) -> bool {
    forall|i: int, j: int| 0 <= i < j < s.len() ==> crate::text::lex_lt(#[trigger] s[j], #[trigger] s[i])
}

} // verus!
