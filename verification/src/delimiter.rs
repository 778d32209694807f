//! The pluggable delimiter-matching capability.

use vstd::prelude::*;

verus! {

use crate::model::{find_pat, lemma_find_pat_from_first_match, lemma_find_pat_from_no_match, match_at};

/// A strategy for locating the next delimiter occurrence in a span.
///
/// Every matcher stands for a fixed character pattern, given by [`Self::pattern`];
/// [`Self::find_next`] reports the start and end offsets (relative to the given
/// span) of the leftmost occurrence of that pattern, or `None` when the
/// pattern does not occur. An empty pattern never matches.
pub trait Delimiter: Sized {
    /// The character pattern this matcher looks for.
    spec fn pattern(&self) -> Seq<char>;

    /// Offsets of the leftmost occurrence of the pattern in `s`.
    fn find_next(&self, s: &[char]) -> (r: Option<(usize, usize)>)
        ensures
            match r {
                Some(p) => {
                    &&& find_pat(s@, self.pattern()) == Some(p.0 as int)
                    &&& p.1 == p.0 + self.pattern().len()
                },
                None => find_pat(s@, self.pattern()) is None,
            },
    ;
}

/// Whether `pat` occurs in `s` at position `i`, by character-wise comparison.
fn matches_at(s: &[char], pat: &[char], i: usize) -> (b: bool)
    requires
        i + pat@.len() <= s@.len(),
    ensures
        b == match_at(s@, pat@, i as int),
{
    let n = s.len();
    let mut k: usize = 0;
    while k < pat.len()
        invariant
            n == s@.len(),
            0 <= k <= pat@.len(),
            i + pat@.len() <= s@.len(),
            forall|m: int| 0 <= m < k ==> s@[i + m] == pat@[m],
        decreases pat@.len() - k,
    {
        if s[i + k] != pat[k] {
            proof {
                assert(s@.subrange(i as int, i + pat@.len() as int)[k as int] == s@[i + k]);
            }
            return false;
        }
        k += 1;
    }
    proof {
        assert(s@.subrange(i as int, i + pat@.len() as int) =~= pat@);
    }
    true
}

/// A literal character-slice pattern: a match is the leftmost occurrence of
/// the whole pattern, and its length is the pattern's length. An empty
/// pattern never matches, so splitting on it leaves the text in one piece.
impl<'p> Delimiter for &'p [char] {
    open spec fn pattern(&self) -> Seq<char> {
        (*self)@
    }

    fn find_next(&self, s: &[char]) -> (r: Option<(usize, usize)>) {
        let pat: &[char] = *self;
        if pat.len() == 0 || s.len() < pat.len() {
            return None;
        }
        let n = s.len();
        let m = pat.len();
        let last = n - m;
        let mut i: usize = 0;
        while i <= last
            invariant
                pat@ == self.pattern(),
                n == s@.len(),
                m == pat@.len(),
                0 < m <= n,
                last == n - m,
                0 <= i <= last + 1,
                forall|j: int| 0 <= j < i ==> !match_at(s@, pat@, j),
            decreases last + 1 - i,
        {
            if matches_at(s, pat, i) {
                proof {
                    lemma_find_pat_from_first_match(s@, pat@, i as int);
                }
                return Some((i, i + pat.len()));
            }
            i += 1;
        }
        proof {
            assert(forall|j: int| !match_at(s@, pat@, j));
            lemma_find_pat_from_no_match(s@, pat@);
        }
        None
    }
}

/// A single-character delimiter: a match is the leftmost occurrence of that
/// character, of length one.
impl Delimiter for char {
    open spec fn pattern(&self) -> Seq<char> {
        seq![*self]
    }

    fn find_next(&self, s: &[char]) -> (r: Option<(usize, usize)>) {
        let c: char = *self;
        let mut i: usize = 0;
        while i < s.len()
            invariant
                self.pattern() == seq![c],
                0 <= i <= s@.len(),
                forall|j: int| 0 <= j < i ==> s@[j] != c,
            decreases s@.len() - i,
        {
            if s[i] == c {
                proof {
                    assert(s@.subrange(i as int, i + 1) =~= seq![c]);
                    assert forall|j: int| 0 <= j < i implies !match_at(s@, seq![c], j) by {
                        if match_at(s@, seq![c], j) {
                            assert(s@.subrange(j, j + 1)[0] == s@[j]);
                        }
                    }
                    lemma_find_pat_from_first_match(s@, seq![c], i as int);
                }
                return Some((i, i + 1));
            }
            i += 1;
        }
        proof {
            assert forall|j: int| !match_at(s@, seq![c], j) by {
                if match_at(s@, seq![c], j) {
                    assert(s@.subrange(j, j + 1)[0] == s@[j]);
                }
            }
            lemma_find_pat_from_no_match(s@, seq![c]);
        }
        None
    }
}

} // verus!
