//! Mathematical model of delimiter matching and splitting.
//!
//! The text and the delimiter pattern are both sequences of characters. A
//! pattern occurrence is leftmost and non-overlapping: [`find_pat`] locates
//! the leftmost occurrence, and [`split_spec`] repeatedly cuts the text there,
//! resuming the scan after the matched pattern. An empty pattern never
//! matches, so splitting on it yields the whole text as one fragment.

use vstd::prelude::*;

verus! {

/// `pat` occurs in `s` at position `i`.
pub open spec fn match_at(s: Seq<char>, pat: Seq<char>, i: int) -> bool {
    &&& 0 <= i
    &&& i + pat.len() <= s.len()
    &&& s.subrange(i, i + pat.len() as int) == pat
}

/// Position of the leftmost occurrence of `pat` in `s`, or `None` when `pat`
/// does not occur. An empty pattern never matches.
pub open spec fn find_pat(s: Seq<char>, pat: Seq<char>) -> Option<int>
    decreases s.len(),
{
    if pat.len() == 0 || s.len() < pat.len() {
        None
    } else if s.subrange(0, pat.len() as int) == pat {
        Some(0int)
    } else {
        match find_pat(s.drop_first(), pat) {
            Some(i) => Some(i + 1),
            None => None,
        }
    }
}

/// Matching at position `j + 1` of `s` is matching at position `j` of the
/// tail of `s`.
proof fn lemma_match_at_drop_first(s: Seq<char>, pat: Seq<char>, j: int)
    requires
        0 <= j,
        s.len() >= 1,
    ensures
        match_at(s, pat, j + 1) <==> match_at(s.drop_first(), pat, j),
{
    if j + 1 + pat.len() <= s.len() {
        assert(s.drop_first().subrange(j, j + pat.len() as int) =~= s.subrange(
            j + 1,
            j + 1 + pat.len() as int,
        ));
    }
}

/// When `find_pat` reports a position, the pattern is non-empty, it occurs
/// there, and it occurs nowhere earlier.
pub proof fn lemma_find_pat_some(s: Seq<char>, pat: Seq<char>)
    requires
        find_pat(s, pat) is Some,
    ensures
        pat.len() > 0,
        match_at(s, pat, find_pat(s, pat)->Some_0),
        forall|j: int| 0 <= j < find_pat(s, pat)->Some_0 ==> !match_at(s, pat, j),
    decreases s.len(),
{
    let i = find_pat(s, pat)->Some_0;
    if s.subrange(0, pat.len() as int) == pat {
    } else {
        lemma_find_pat_some(s.drop_first(), pat);
        lemma_match_at_drop_first(s, pat, i - 1);
        assert forall|j: int| 0 <= j < i implies !match_at(s, pat, j) by {
            if j > 0 {
                lemma_match_at_drop_first(s, pat, j - 1);
            }
        }
    }
}

/// When `find_pat` reports no position, a non-empty pattern occurs nowhere.
pub proof fn lemma_find_pat_none(s: Seq<char>, pat: Seq<char>)
    requires
        find_pat(s, pat) is None,
        pat.len() > 0,
    ensures
        forall|j: int| !match_at(s, pat, j),
    decreases s.len(),
{
    if s.len() < pat.len() {
    } else {
        lemma_find_pat_none(s.drop_first(), pat);
        assert forall|j: int| !match_at(s, pat, j) by {
            if j > 0 {
                lemma_match_at_drop_first(s, pat, j - 1);
            }
        }
    }
}

/// The leftmost occurrence determines the value of `find_pat`.
pub proof fn lemma_find_pat_from_first_match(s: Seq<char>, pat: Seq<char>, i: int)
    requires
        pat.len() > 0,
        match_at(s, pat, i),
        forall|j: int| 0 <= j < i ==> !match_at(s, pat, j),
    ensures
        find_pat(s, pat) == Some(i),
    decreases s.len(),
{
    if i == 0 {
        assert(s.subrange(0, pat.len() as int) == pat);
    } else {
        assert(!match_at(s, pat, 0));
        assert(s.subrange(0, pat.len() as int) != pat);
        lemma_match_at_drop_first(s, pat, i - 1);
        assert forall|j: int| 0 <= j < i - 1 implies !match_at(s.drop_first(), pat, j) by {
            lemma_match_at_drop_first(s, pat, j);
        }
        lemma_find_pat_from_first_match(s.drop_first(), pat, i - 1);
    }
}

/// The absence of any occurrence determines that `find_pat` reports none.
pub proof fn lemma_find_pat_from_no_match(s: Seq<char>, pat: Seq<char>)
    requires
        forall|j: int| !match_at(s, pat, j),
    ensures
        find_pat(s, pat) is None,
{
    if find_pat(s, pat) is Some {
        lemma_find_pat_some(s, pat);
    }
}

/// The fragments of `s` cut at each leftmost occurrence of `pat`, scanning
/// left to right and resuming after the matched pattern: one fragment more
/// than there are occurrences, the whole of `s` when there are none.
pub open spec fn split_spec(s: Seq<char>, pat: Seq<char>) -> Seq<Seq<char>>
    decreases s.len(),
    via split_spec_decreases
{
    match find_pat(s, pat) {
        None => seq![s],
        Some(i) => seq![s.subrange(0, i)] + split_spec(
            s.subrange(i + pat.len() as int, s.len() as int),
            pat,
        ),
    }
}

#[via_fn]
proof fn split_spec_decreases(s: Seq<char>, pat: Seq<char>) {
    if find_pat(s, pat) is Some {
        lemma_find_pat_some(s, pat);
    }
}

/// The fragments interleaved with the separator, in order.
pub open spec fn join_with(frags: Seq<Seq<char>>, sep: Seq<char>) -> Seq<char>
    decreases frags.len(),
{
    if frags.len() == 0 {
        Seq::empty()
    } else if frags.len() == 1 {
        frags[0]
    } else {
        frags[0] + sep + join_with(frags.drop_first(), sep)
    }
}

/// How many non-overlapping occurrences of `pat` a greedy left-to-right scan
/// of `s` finds.
pub open spec fn count_occurrences(s: Seq<char>, pat: Seq<char>) -> nat
    decreases s.len(),
    via count_occurrences_decreases
{
    match find_pat(s, pat) {
        None => 0,
        Some(i) => 1 + count_occurrences(s.subrange(i + pat.len() as int, s.len() as int), pat),
    }
}

#[via_fn]
proof fn count_occurrences_decreases(s: Seq<char>, pat: Seq<char>) {
    if find_pat(s, pat) is Some {
        lemma_find_pat_some(s, pat);
    }
}

/// Splitting always yields at least one fragment: an empty text yields one
/// empty fragment, never none.
pub proof fn lemma_split_nonempty(s: Seq<char>, pat: Seq<char>)
    ensures
        split_spec(s, pat).len() >= 1,
{
}

/// Round trip: joining the fragments of `s` with the pattern they were cut at
/// reconstructs `s` exactly.
pub proof fn lemma_split_join_round_trip(s: Seq<char>, pat: Seq<char>)
    ensures
        join_with(split_spec(s, pat), pat) == s,
    decreases s.len(),
{
    match find_pat(s, pat) {
        None => {
            assert(join_with(seq![s], pat) == s);
        },
        Some(i) => {
            lemma_find_pat_some(s, pat);
            let pre = s.subrange(0, i);
            let suf = s.subrange(i + pat.len() as int, s.len() as int);
            lemma_split_join_round_trip(suf, pat);
            let frags = seq![pre] + split_spec(suf, pat);
            lemma_split_nonempty(suf, pat);
            assert(frags.drop_first() =~= split_spec(suf, pat));
            assert(join_with(frags, pat) == pre + pat + suf);
            assert(s.subrange(i, i + pat.len() as int) == pat);
            assert(pre + pat + suf =~= s);
        },
    }
}

/// The number of fragments is the number of non-overlapping occurrences of
/// the pattern, scanned greedily left to right, plus one.
pub proof fn lemma_split_count(s: Seq<char>, pat: Seq<char>)
    ensures
        split_spec(s, pat).len() == count_occurrences(s, pat) + 1,
    decreases s.len(),
{
    match find_pat(s, pat) {
        None => {},
        Some(i) => {
            lemma_find_pat_some(s, pat);
            lemma_split_count(s.subrange(i + pat.len() as int, s.len() as int), pat);
        },
    }
}

} // verus!

